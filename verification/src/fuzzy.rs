//! Fuzzy, case-insensitive scores of paths for a query.
use vstd::prelude::*;

use crate::find::{fold_chars, folded, find_chars, next_occurrence, occurs, Folding};
use crate::text::chars_of;

verus! {

/// Whether Unicode counts a scalar value as white space.
pub open spec fn is_space(c: char) -> bool {
    let n = c as u32;
    ||| 0x9 <= n <= 0xd
    ||| n == 0x20
    ||| n == 0x85
    ||| n == 0xa0
    ||| n == 0x1680
    ||| 0x2000 <= n <= 0x200a
    ||| n == 0x2028
    ||| n == 0x2029
    ||| n == 0x202f
    ||| n == 0x205f
    ||| n == 0x3000
}

/// What `char::is_uppercase` answers.
pub uninterp spec fn is_upper(c: char) -> bool;

/// What `char::is_lowercase` answers.
pub uninterp spec fn is_lower(c: char) -> bool;

/// `char::is_whitespace`: whether a scalar value has the Unicode property
/// `White_Space`.
#[verifier::external_body]
pub(crate) fn whitespace(c: char) -> (yes: bool)
    ensures
        yes == is_space(c),
{
    c.is_whitespace()
}

/// `char::is_uppercase`: whether Unicode counts a scalar value as uppercase.
#[verifier::external_body]
fn uppercase_letter(c: char) -> (yes: bool)
    ensures
        yes == is_upper(c),
{
    c.is_uppercase()
}

/// `char::is_lowercase`: whether Unicode counts a scalar value as lowercase.
#[verifier::external_body]
fn lowercase_letter(c: char) -> (yes: bool)
    ensures
        yes == is_lower(c),
{
    c.is_lowercase()
}

/// A text without the whitespace at its start.
pub open spec fn trimmed_start(text: Seq<char>) -> Seq<char>
    decreases text.len(),
{
    if text.len() > 0 && is_space(text[0]) {
        trimmed_start(text.drop_first())
    } else {
        text
    }
}

/// A text without the whitespace at its end.
pub open spec fn trimmed_end(text: Seq<char>) -> Seq<char>
    decreases text.len(),
{
    if text.len() > 0 && is_space(text.last()) {
        trimmed_end(text.drop_last())
    } else {
        text
    }
}

/// A text without the whitespace around it.
pub open spec fn trimmed(text: Seq<char>) -> Seq<char> {
    trimmed_end(trimmed_start(text))
}

/// Computes [`trimmed`].
pub fn trim(text: &[char]) -> (out: Vec<char>)
    ensures
        out@ == trimmed(text@),
{
    let mut start: usize = 0;
    assert(text@.skip(0) =~= text@);
    while start < text.len() && whitespace(text[start])
        invariant
            start <= text@.len(),
            trimmed_start(text@.skip(start as int)) == trimmed_start(text@),
        decreases text@.len() - start,
    {
        assert(text@.skip(start as int).drop_first() =~= text@.skip(start + 1));
        start += 1;
    }
    let ghost rest = text@.skip(start as int);
    assert(trimmed_start(text@) == rest);
    let mut end: usize = text.len();
    assert(text@.subrange(start as int, end as int) =~= rest);
    while end > start && whitespace(text[end - 1])
        invariant
            start <= end <= text@.len(),
            trimmed_end(text@.subrange(start as int, end as int)) == trimmed_end(rest),
        decreases end,
    {
        assert(text@.subrange(start as int, end as int).drop_last() =~= text@.subrange(
            start as int,
            end - 1,
        ));
        end -= 1;
    }
    let mut out: Vec<char> = Vec::new();
    let mut i: usize = start;
    while i < end
        invariant
            start <= i <= end <= text@.len(),
            out@ == text@.subrange(start as int, i as int),
        decreases end - i,
    {
        out.push(text[i]);
        assert(text@.subrange(start as int, i + 1) =~= text@.subrange(start as int, i as int).push(
            text@[i as int],
        ));
        i += 1;
    }
    out
}

/// A path with slashes in place of backslashes.
pub open spec fn slashed(path: Seq<char>) -> Seq<char> {
    path.map_values(|c: char| if c == '\\' {
        '/'
    } else {
        c
    })
}

/// Computes [`slashed`].
pub fn normalize_path(path: &[char]) -> (out: Vec<char>)
    ensures
        out@ == slashed(path@),
{
    let mut out: Vec<char> = Vec::new();
    let mut i: usize = 0;
    while i < path.len()
        invariant
            i <= path@.len(),
            out@ == slashed(path@.take(i as int)),
        decreases path@.len() - i,
    {
        out.push(
            if path[i] == '\\' {
                '/'
            } else {
                path[i]
            },
        );
        assert(out@ =~= slashed(path@.take(i + 1)));
        i += 1;
    }
    assert(path@.take(i as int) =~= path@);
    out
}

/// A text in lowercase.
pub open spec fn lowered(text: Seq<char>) -> Seq<char> {
    folded(Folding::Lower, text)
}

/// What a match at an index is worth: more at the start of the path, of a
/// component or of a word, and in the last component.
pub open spec fn character_worth(
    index: int,
    basename_start: int,
    candidate: Seq<char>,
    original: Seq<char>,
) -> int {
    let base: int = if index >= basename_start {
        15
    } else {
        10
    };
    if index == 0 {
        base + 24
    } else {
        let previous = candidate[index - 1];
        let boundary: int = if previous == '/' {
            24
        } else if previous == '_' || previous == '-' || previous == ' ' {
            18
        } else if previous == '.' {
            10
        } else {
            0
        };
        let hump: int = if index < original.len() && is_upper(original[index]) && is_lower(
            original[index - 1],
        ) {
            12
        } else {
            0
        };
        base + boundary + hump
    }
}

/// What a late start costs.
pub open spec fn late_start(index: int) -> int {
    if index < 30 {
        index
    } else {
        30
    }
}

/// What going on from one match to the next is worth: a bonus where they are
/// adjacent, and otherwise one point less for each skipped scalar value.
pub open spec fn going_on(from: int, to: int) -> int {
    if to == from + 1 {
        18
    } else {
        from + 1 - to
    }
}

/// What is matched: a query against a candidate whose last component starts at
/// `basename_start`.
#[verifier::ext_equal]
pub struct Pairing {
    pub query: Seq<char>,
    pub candidate: Seq<char>,
    pub original: Seq<char>,
    pub basename_start: int,
}

/// What a match at an index of the candidate is worth.
pub open spec fn worth_at(pairing: Pairing, index: int) -> int {
    character_worth(index, pairing.basename_start, pairing.candidate, pairing.original)
}

/// Whether indexes place the start of the query in the candidate, in order.
pub open spec fn places(pairing: Pairing, indexes: Seq<int>) -> bool {
    &&& 0 < indexes.len() <= pairing.query.len()
    &&& forall|k: int|
        0 <= k < indexes.len() ==> 0 <= #[trigger] indexes[k] < pairing.candidate.len()
            && pairing.candidate[indexes[k]] == pairing.query[k]
    &&& forall|k: int, m: int|
        0 <= k < m < indexes.len() ==> #[trigger] indexes[k] < #[trigger] indexes[m]
}

/// What a placement is worth.
pub open spec fn placement_worth(pairing: Pairing, indexes: Seq<int>) -> int
    decreases indexes.len(),
{
    if indexes.len() == 0 {
        0
    } else if indexes.len() == 1 {
        worth_at(pairing, indexes[0]) - late_start(indexes[0])
    } else {
        let rest = indexes.drop_last();
        placement_worth(pairing, rest) + going_on(rest.last(), indexes.last()) + worth_at(
            pairing,
            indexes.last(),
        )
    }
}

/// The larger of two optional numbers.
pub open spec fn best_of(a: Option<int>, b: Option<int>) -> Option<int> {
    match (a, b) {
        (Some(x), Some(y)) => Some(
            if x < y {
                y
            } else {
                x
            },
        ),
        (Some(x), None) => Some(x),
        (None, other) => other,
    }
}

/// The best worth of placing the query up to position `k`, with position `k`
/// at `index`.
pub open spec fn best_ending(pairing: Pairing, k: int, index: int) -> Option<int>
    decreases k, 1int, 0int,
{
    if k < 0 || pairing.candidate[index] != pairing.query[k] {
        None
    } else if k == 0 {
        Some(worth_at(pairing, index) - late_start(index))
    } else {
        match best_before(pairing, k - 1, index, index) {
            Some(best) => Some(best + worth_at(pairing, index)),
            None => None,
        }
    }
}

/// The best worth of placing the query up to position `k` below `upto`, and
/// going on to `index`.
pub open spec fn best_before(pairing: Pairing, k: int, index: int, upto: int) -> Option<int>
    decreases k + 1, 0int, upto,
{
    if upto <= 0 || k < 0 {
        None
    } else {
        best_of(
            best_before(pairing, k, index, upto - 1),
            match best_ending(pairing, k, upto - 1) {
                Some(worth) => Some(worth + going_on(upto - 1, index)),
                None => None,
            },
        )
    }
}

/// What is left of a placement's worth for what the candidate still holds
/// behind its last index.
pub open spec fn less_trailing(pairing: Pairing, worth: int, index: int) -> int {
    worth - (pairing.candidate.len() - (index + 1)) / 4
}

/// The best worth of placing the whole query with its last position below
/// `upto`.
pub open spec fn best_placement(pairing: Pairing, upto: int) -> Option<int>
    decreases upto,
{
    if upto <= 0 {
        None
    } else {
        best_of(
            best_placement(pairing, upto - 1),
            match best_ending(pairing, pairing.query.len() - 1, upto - 1) {
                Some(worth) => Some(less_trailing(pairing, worth, upto - 1)),
                None => None,
            },
        )
    }
}

/// The best worth of each placement is at least that of any placement.
proof fn lemma_ending_is_upper(pairing: Pairing, indexes: Seq<int>)
    requires
        places(pairing, indexes),
    ensures
        best_ending(pairing, indexes.len() - 1, indexes.last()) matches Some(best)
            && placement_worth(pairing, indexes) <= best,
    decreases indexes.len(),
{
    let k = indexes.len() - 1;
    let index = indexes.last();
    assert(pairing.candidate[indexes[k]] == pairing.query[k]);
    if k > 0 {
        let rest = indexes.drop_last();
        assert forall|m: int| 0 <= m < rest.len() implies 0 <= #[trigger] rest[m]
            < pairing.candidate.len() && pairing.candidate[rest[m]] == pairing.query[m] by {
            assert(rest[m] == indexes[m]);
        }
        assert forall|m: int, n: int| 0 <= m < n < rest.len() implies #[trigger] rest[m]
            < #[trigger] rest[n] by {
            assert(rest[m] == indexes[m] && rest[n] == indexes[n]);
        }
        lemma_ending_is_upper(pairing, rest);
        assert(indexes[k - 1] < indexes[k]);
        lemma_before_is_upper(pairing, k - 1, index, index, rest.last());
    }
}

proof fn lemma_before_is_upper(pairing: Pairing, k: int, index: int, upto: int, from: int)
    requires
        0 <= from < upto,
        0 <= k,
        best_ending(pairing, k, from) is Some,
    ensures
        best_before(pairing, k, index, upto) matches Some(best) && best_ending(
            pairing,
            k,
            from,
        )->0 + going_on(from, index) <= best,
    decreases upto,
{
    if from < upto - 1 {
        lemma_before_is_upper(pairing, k, index, upto - 1, from);
    }
}

/// The best worth is that of some placement.
proof fn lemma_ending_is_reached(pairing: Pairing, k: int, index: int) -> (indexes: Seq<int>)
    requires
        0 <= k < pairing.query.len(),
        0 <= index < pairing.candidate.len(),
        best_ending(pairing, k, index) is Some,
    ensures
        places(pairing, indexes),
        indexes.len() == k + 1,
        indexes.last() == index,
        placement_worth(pairing, indexes) == best_ending(pairing, k, index)->0,
    decreases k, 1int, 0int,
{
    if k == 0 {
        seq![index]
    } else {
        let rest = lemma_before_is_reached(pairing, k - 1, index, index);
        let indexes = rest.push(index);
        assert(indexes.drop_last() =~= rest);
        assert forall|m: int| 0 <= m < indexes.len() implies 0 <= #[trigger] indexes[m]
            < pairing.candidate.len() && pairing.candidate[indexes[m]] == pairing.query[m] by {
            if m < rest.len() {
                assert(indexes[m] == rest[m]);
            }
        }
        assert forall|m: int, n: int| 0 <= m < n < indexes.len() implies #[trigger] indexes[m]
            < #[trigger] indexes[n] by {
            assert(indexes[m] == rest[m]);
            if n < rest.len() {
                assert(indexes[n] == rest[n]);
            } else if m < rest.len() - 1 {
                assert(rest[m] < rest[rest.len() - 1]);
            }
        }
        indexes
    }
}

proof fn lemma_before_is_reached(pairing: Pairing, k: int, index: int, upto: int) -> (indexes: Seq<
    int,
>)
    requires
        0 <= k < pairing.query.len(),
        0 <= upto <= index < pairing.candidate.len(),
        best_before(pairing, k, index, upto) is Some,
    ensures
        places(pairing, indexes),
        indexes.len() == k + 1,
        indexes.last() < upto,
        placement_worth(pairing, indexes) + going_on(indexes.last(), index) == best_before(
            pairing,
            k,
            index,
            upto,
        )->0,
    decreases k + 1, 0int, upto,
{
    let below = best_before(pairing, k, index, upto - 1);
    let here = best_ending(pairing, k, upto - 1);
    if here is Some && (below is None || below->0 < here->0 + going_on(upto - 1, index)) {
        lemma_ending_is_reached(pairing, k, upto - 1)
    } else {
        lemma_before_is_reached(pairing, k, index, upto - 1)
    }
}

proof fn lemma_best_is_upper(pairing: Pairing, upto: int, index: int)
    requires
        0 <= index < upto,
        best_ending(pairing, pairing.query.len() - 1, index) is Some,
    ensures
        best_placement(pairing, upto) matches Some(best) && less_trailing(
            pairing,
            best_ending(pairing, pairing.query.len() - 1, index)->0,
            index,
        ) <= best,
    decreases upto,
{
    if index < upto - 1 {
        lemma_best_is_upper(pairing, upto - 1, index);
    }
}

proof fn lemma_best_is_reached(pairing: Pairing, upto: int) -> (indexes: Seq<int>)
    requires
        pairing.query.len() > 0,
        0 <= upto <= pairing.candidate.len(),
        best_placement(pairing, upto) is Some,
    ensures
        places(pairing, indexes),
        indexes.len() == pairing.query.len(),
        less_trailing(pairing, placement_worth(pairing, indexes), indexes.last())
            == best_placement(pairing, upto)->0,
    decreases upto,
{
    let below = best_placement(pairing, upto - 1);
    let here = best_ending(pairing, pairing.query.len() - 1, upto - 1);
    if here is Some && (below is None || below->0 < less_trailing(pairing, here->0, upto - 1)) {
        lemma_ending_is_reached(pairing, pairing.query.len() - 1, upto - 1)
    } else {
        lemma_best_is_reached(pairing, upto - 1)
    }
}

/// The best placement is the best of all placements of the query: some
/// placement has its worth, and none has more. There is none exactly where the
/// query cannot be placed in order.
pub proof fn law_best_placement_is_best(pairing: Pairing)
    requires
        pairing.query.len() > 0,
    ensures
        match best_placement(pairing, pairing.candidate.len() as int) {
            Some(best) => {
                &&& exists|indexes: Seq<int>| #[trigger]
                    places(pairing, indexes) && indexes.len() == pairing.query.len()
                        && less_trailing(
                        pairing,
                        placement_worth(pairing, indexes),
                        indexes.last(),
                    ) == best
                &&& forall|indexes: Seq<int>| #[trigger]
                    places(pairing, indexes) && indexes.len() == pairing.query.len()
                        ==> less_trailing(
                        pairing,
                        placement_worth(pairing, indexes),
                        indexes.last(),
                    ) <= best
            },
            None => forall|indexes: Seq<int>| #[trigger]
                places(pairing, indexes) ==> indexes.len() != pairing.query.len(),
        },
{
    let len = pairing.candidate.len() as int;
    assert forall|indexes: Seq<int>| #[trigger]
        places(pairing, indexes) && indexes.len() == pairing.query.len() implies best_placement(
        pairing,
        len,
    ) matches Some(best) && less_trailing(
        pairing,
        placement_worth(pairing, indexes),
        indexes.last(),
    ) <= best by {
        lemma_ending_is_upper(pairing, indexes);
        assert(0 <= indexes[indexes.len() - 1] < len);
        lemma_best_is_upper(pairing, len, indexes.last());
    }
    if best_placement(pairing, len) is Some {
        let indexes = lemma_best_is_reached(pairing, len);
        assert(places(pairing, indexes));
    }
}

/// The best worth of placing the query up to position `k` below `upto`, plus
/// the index at which that placement ends.
pub open spec fn best_gapped(pairing: Pairing, k: int, upto: int) -> Option<int>
    decreases upto,
{
    if upto <= 0 {
        None
    } else {
        best_of(
            best_gapped(pairing, k, upto - 1),
            match best_ending(pairing, k, upto - 1) {
                Some(worth) => Some(worth + (upto - 1)),
                None => None,
            },
        )
    }
}

proof fn lemma_gapped(pairing: Pairing, k: int, index: int, upto: int)
    requires
        0 <= k,
        0 <= upto < index,
    ensures
        best_before(pairing, k, index, upto) == (match best_gapped(pairing, k, upto) {
            Some(best) => Some(best + 1 - index),
            None => None,
        }),
    decreases upto,
{
    if upto > 0 {
        lemma_gapped(pairing, k, index, upto - 1);
    }
}

/// Going on from the best placement below an index is going on from the one
/// right before it, or skipping.
proof fn lemma_before(pairing: Pairing, k: int, index: int)
    requires
        0 <= k,
        0 < index,
    ensures
        best_before(pairing, k, index, index) == best_of(
            match best_gapped(pairing, k, index) {
                Some(best) => Some(best + 1 - index),
                None => None,
            },
            match best_ending(pairing, k, index - 1) {
                Some(worth) => Some(worth + 18),
                None => None,
            },
        ),
{
    lemma_gapped(pairing, k, index, index - 1);
}

/// Worths stay within bounds.
proof fn lemma_ending_bounds(pairing: Pairing, k: int, index: int)
    requires
        0 <= index,
    ensures
        best_ending(pairing, k, index) matches Some(worth) ==> k <= index && -40 - index <= worth
            <= 69 * (k + 1),
    decreases k, 1int, 0int,
{
    if k > 0 {
        lemma_before_bounds(pairing, k - 1, index, index);
    }
}

proof fn lemma_before_bounds(pairing: Pairing, k: int, index: int, upto: int)
    requires
        0 <= upto <= index,
    ensures
        best_before(pairing, k, index, upto) matches Some(worth) ==> k < upto && -40 - index <= worth
            <= 69 * (k + 1) + 18,
    decreases k + 1, 0int, upto,
{
    if upto > 0 && k >= 0 {
        lemma_before_bounds(pairing, k, index, upto - 1);
        lemma_ending_bounds(pairing, k, upto - 1);
    }
}

proof fn lemma_gapped_bounds(pairing: Pairing, k: int, upto: int)
    requires
        0 <= upto,
        0 <= k,
    ensures
        best_gapped(pairing, k, upto) matches Some(worth) ==> -40 <= worth <= 69 * (k + 1) + upto,
    decreases upto,
{
    if upto > 0 {
        lemma_gapped_bounds(pairing, k, upto - 1);
        lemma_ending_bounds(pairing, k, upto - 1);
    }
}

proof fn lemma_best_bounds(pairing: Pairing, upto: int)
    requires
        0 <= upto <= pairing.candidate.len(),
    ensures
        best_placement(pairing, upto) matches Some(worth) ==> pairing.query.len()
            <= pairing.candidate.len() && -41 - 2 * pairing.candidate.len() <= worth <= 69
            * pairing.query.len(),
    decreases upto,
{
    if upto > 0 {
        lemma_best_bounds(pairing, upto - 1);
        lemma_ending_bounds(pairing, pairing.query.len() - 1, upto - 1);
    }
}

/// Where the last component of a path starts.
pub open spec fn basename_begin(path: Seq<char>) -> int
    decreases path.len(),
{
    if path.len() == 0 {
        0
    } else if path.last() == '/' {
        path.len() as int
    } else {
        basename_begin(path.drop_last())
    }
}

/// Where the extension of a name starts: at its last dot, unless that is its
/// first character.
pub open spec fn stem_end(name: Seq<char>, upto: int) -> int
    decreases upto,
{
    if upto <= 1 {
        name.len() as int
    } else if name[upto - 1] == '.' {
        upto - 1
    } else {
        stem_end(name, upto - 1)
    }
}

/// A name without its extension.
pub open spec fn stem_of(name: Seq<char>) -> Seq<char> {
    name.take(stem_end(name, name.len() as int))
}

/// Whether a text ends with another.
pub open spec fn ends_with(text: Seq<char>, suffix: Seq<char>) -> bool {
    occurs(text, suffix, text.len() - suffix.len())
}

/// What whole parts of the path that equal or start with the query are worth.
pub open spec fn part_bonus(query: Seq<char>, path: Seq<char>) -> int {
    let name = path.skip(basename_begin(path));
    let stem = stem_of(name);
    if path == query {
        400
    } else if name == query {
        300
    } else if stem == query {
        260
    } else {
        (if ends_with(path, query) {
            150int
        } else {
            0
        }) + (if occurs(name, query, 0) {
            130int
        } else if occurs(stem, query, 0) {
            110
        } else {
            0
        }) + (if occurs(path, query, 0) {
            90int
        } else {
            0
        }) + (if next_occurrence(path, query, 0) is Some {
            70int
        } else {
            0
        })
    }
}

/// How many slashes a path holds.
pub open spec fn slashes(path: Seq<char>) -> nat
    decreases path.len(),
{
    if path.len() == 0 {
        0
    } else {
        slashes(path.drop_last()) + if path.last() == '/' {
            1nat
        } else {
            0nat
        }
    }
}

/// A number, or the nearest one that fits.
pub open spec fn fitted(n: int) -> i64 {
    if n > i64::MAX {
        i64::MAX
    } else if n < i64::MIN {
        i64::MIN
    } else {
        n as i64
    }
}

/// A query and a candidate path, ready to be matched.
pub open spec fn pairing_of(query: Seq<char>, candidate: Seq<char>) -> Pairing {
    let path = lowered(slashed(candidate));
    Pairing {
        query,
        candidate: path,
        original: slashed(candidate),
        basename_start: basename_begin(path),
    }
}

/// The score of a candidate for a query in lowercase.
pub open spec fn score_of(query: Seq<char>, candidate: Seq<char>) -> Option<i64> {
    let pairing = pairing_of(query, candidate);
    let path = pairing.candidate;
    if query.len() == 0 {
        Some(0)
    } else {
        match best_placement(pairing, path.len() as int) {
            Some(best) => Some(
                fitted(
                    best + part_bonus(query, path) - 2 * slashes(path) - path.len() as int / 20,
                ),
            ),
            None => None,
        }
    }
}

/// An optional number.
pub open spec fn wide(n: Option<i128>) -> Option<int> {
    match n {
        Some(v) => Some(v as int),
        None => None,
    }
}

fn larger(a: Option<i128>, b: Option<i128>) -> (best: Option<i128>)
    ensures
        wide(best) == best_of(wide(a), wide(b)),
{
    match (a, b) {
        (Some(x), Some(y)) => {
            if x < y {
                Some(y)
            } else {
                Some(x)
            }
        },
        (Some(x), None) => Some(x),
        (None, other) => other,
    }
}

fn character_score(index: usize, basename_start: usize, candidate: &[char], original: &[char]) -> (
score: i128)
    requires
        index < candidate@.len(),
    ensures
        score == character_worth(index as int, basename_start as int, candidate@, original@),
        10 <= score <= 51,
{
    let mut score: i128 = 10;
    if index >= basename_start {
        score = score + 5;
    }
    if index == 0 {
        return score + 24;
    }
    let previous = candidate[index - 1];
    if previous == '/' {
        score = score + 24;
    } else if previous == '_' || previous == '-' || previous == ' ' {
        score = score + 18;
    } else if previous == '.' {
        score = score + 10;
    }
    if index < original.len() && uppercase_letter(original[index]) && lowercase_letter(
        original[index - 1],
    ) {
        score = score + 12;
    }
    score
}

fn leading_penalty(index: usize) -> (penalty: i128)
    ensures
        penalty == late_start(index as int),
{
    if index < 30 {
        index as i128
    } else {
        30
    }
}

fn basename_start_of(path: &[char]) -> (start: usize)
    ensures
        start == basename_begin(path@),
        start <= path@.len(),
{
    let mut i: usize = path.len();
    assert(path@.take(i as int) =~= path@);
    while i > 0
        invariant
            i <= path@.len(),
            basename_begin(path@.take(i as int)) == basename_begin(path@),
        decreases i,
    {
        assert(path@.take(i as int).drop_last() =~= path@.take(i - 1));
        assert(path@.take(i as int).last() == path@[i - 1]);
        if path[i - 1] == '/' {
            return i;
        }
        i -= 1;
    }
    0
}

fn stem_end_of(name: &[char]) -> (end: usize)
    ensures
        end == stem_end(name@, name@.len() as int),
        end <= name@.len(),
{
    let mut i: usize = name.len();
    while i > 1
        invariant
            i <= name@.len(),
            stem_end(name@, i as int) == stem_end(name@, name@.len() as int),
        decreases i,
    {
        if name[i - 1] == '.' {
            return i - 1;
        }
        i -= 1;
    }
    name.len()
}

fn part(text: &[char], from: usize, to: usize) -> (out: Vec<char>)
    requires
        from <= to <= text@.len(),
    ensures
        out@ == text@.subrange(from as int, to as int),
{
    let mut out: Vec<char> = Vec::new();
    let mut i: usize = from;
    while i < to
        invariant
            from <= i <= to <= text@.len(),
            out@ == text@.subrange(from as int, i as int),
        decreases to - i,
    {
        out.push(text[i]);
        assert(text@.subrange(from as int, i + 1) =~= text@.subrange(from as int, i as int).push(
            text@[i as int],
        ));
        i += 1;
    }
    out
}

fn same_chars(a: &[char], b: &[char]) -> (same: bool)
    ensures
        same == (a@ == b@),
{
    if a.len() != b.len() {
        return false;
    }
    let mut i: usize = 0;
    while i < a.len()
        invariant
            i <= a@.len() == b@.len(),
            forall|k: int| 0 <= k < i ==> a@[k] == b@[k],
        decreases a@.len() - i,
    {
        if a[i] != b[i] {
            return false;
        }
        i += 1;
    }
    assert(a@ =~= b@);
    true
}

fn stands(text: &[char], needle: &[char], at: usize) -> (yes: bool)
    requires
        at <= text@.len(),
    ensures
        yes == occurs(text@, needle@, at as int),
{
    if needle.len() > text.len() - at {
        return false;
    }
    let end: usize = at + needle.len();
    let found = part(text, at, end);
    same_chars(found.as_slice(), needle)
}

fn bonus_of(query: &[char], path: &[char]) -> (bonus: i128)
    ensures
        bonus == part_bonus(query@, path@),
        0 <= bonus <= 440,
{
    let start = basename_start_of(path);
    let name = part(path, start, path.len());
    assert(name@ =~= path@.skip(start as int));
    let end = stem_end_of(name.as_slice());
    let stem = part(name.as_slice(), 0, end);
    assert(stem@ =~= stem_of(name@));
    if same_chars(path, query) {
        400
    } else if same_chars(name.as_slice(), query) {
        300
    } else if same_chars(stem.as_slice(), query) {
        260
    } else {
        let mut bonus: i128 = 0;
        if query.len() <= path.len() && stands(path, query, path.len() - query.len()) {
            bonus = bonus + 150;
        }
        if stands(name.as_slice(), query, 0) {
            bonus = bonus + 130;
        } else if stands(stem.as_slice(), query, 0) {
            bonus = bonus + 110;
        }
        if stands(path, query, 0) {
            bonus = bonus + 90;
        }
        if find_chars(path, query, 0).is_some() {
            bonus = bonus + 70;
        }
        bonus
    }
}

fn depth_of(path: &[char]) -> (depth: usize)
    ensures
        depth == slashes(path@),
        depth <= path@.len(),
{
    let mut depth: usize = 0;
    let mut i: usize = 0;
    assert(path@.take(0) =~= Seq::<char>::empty());
    while i < path.len()
        invariant
            i <= path@.len(),
            depth <= i,
            depth == slashes(path@.take(i as int)),
        decreases path@.len() - i,
    {
        assert(path@.take(i + 1).drop_last() =~= path@.take(i as int));
        assert(path@.take(i + 1).last() == path@[i as int]);
        if path[i] == '/' {
            depth += 1;
        }
        i += 1;
    }
    assert(path@.take(i as int) =~= path@);
    depth
}

/// Computes [`best_placement`]: one row of best worths for each position of the
/// query.
fn best_alignment(query: &[char], path: &[char], original: &[char], basename_start: usize) -> (best:
    Option<i128>)
    requires
        query@.len() > 0,
        query@.len() <= path@.len(),
    ensures
        ({
            let pairing = Pairing {
                query: query@,
                candidate: path@,
                original: original@,
                basename_start: basename_start as int,
            };
            wide(best) == best_placement(pairing, path@.len() as int)
        }),
{
    let ghost pairing = Pairing {
        query: query@,
        candidate: path@,
        original: original@,
        basename_start: basename_start as int,
    };
    let len: usize = path.len();
    let mut previous: Vec<Option<i128>> = Vec::new();
    let mut i: usize = 0;
    while i < len
        invariant
            i <= len == path@.len(),
            query@.len() > 0,
            previous@.len() == i,
            pairing == (Pairing {
                query: query@,
                candidate: path@,
                original: original@,
                basename_start: basename_start as int,
            }),
            forall|n: int|
                0 <= n < i ==> wide(#[trigger] previous@[n]) == best_ending(pairing, 0, n),
        decreases len - i,
    {
        if path[i] == query[0] {
            let score = character_score(i, basename_start, path, original);
            previous.push(Some(score - leading_penalty(i)));
        } else {
            previous.push(None);
        }
        i += 1;
    }
    let mut k: usize = 1;
    let rows: usize = query.len();
    while k < rows
        invariant
            1 <= k <= rows == query@.len(),
            rows <= len == path@.len(),
            previous@.len() == len,
            pairing == (Pairing {
                query: query@,
                candidate: path@,
                original: original@,
                basename_start: basename_start as int,
            }),
            forall|n: int|
                0 <= n < len ==> wide(#[trigger] previous@[n]) == best_ending(pairing, k - 1, n),
        decreases rows - k,
    {
        let wanted = query[k];
        let mut current: Vec<Option<i128>> = Vec::new();
        current.push(None);
        let mut gapped: Option<i128> = None;
        let mut j: usize = 1;
        assert(best_before(pairing, k - 1, 0, 0) is None);
        while j < len
            invariant
                1 <= j <= len == path@.len(),
                1 <= k < rows == query@.len(),
                rows <= len,
                wanted == query@[k as int],
                previous@.len() == len,
                current@.len() == j,
                pairing == (Pairing {
                    query: query@,
                    candidate: path@,
                    original: original@,
                    basename_start: basename_start as int,
                }),
                wide(gapped) == best_gapped(pairing, k - 1, j - 1),
                forall|n: int|
                    0 <= n < len ==> wide(#[trigger] previous@[n]) == best_ending(
                        pairing,
                        k - 1,
                        n,
                    ),
                forall|n: int|
                    0 <= n < j ==> wide(#[trigger] current@[n]) == best_ending(
                        pairing,
                        k as int,
                        n,
                    ),
            decreases len - j,
        {
            let predecessor = previous[j - 1];
            proof {
                lemma_ending_bounds(pairing, k - 1, j - 1);
                lemma_gapped_bounds(pairing, k - 1, j - 1);
                lemma_gapped_bounds(pairing, k - 1, j as int);
                lemma_before(pairing, k - 1, j as int);
                assert(wide(predecessor) == best_ending(pairing, k - 1, j - 1));
            }
            let reached: Option<i128> = match predecessor {
                Some(worth) => Some(worth + (j as i128 - 1)),
                None => None,
            };
            gapped = larger(gapped, reached);
            if path[j] == wanted {
                let skipping: Option<i128> = match gapped {
                    Some(best) => Some(best - j as i128 + 1),
                    None => None,
                };
                let adjacent: Option<i128> = match predecessor {
                    Some(worth) => Some(worth + 18),
                    None => None,
                };
                match larger(skipping, adjacent) {
                    Some(prior) => {
                        let score = character_score(j, basename_start, path, original);
                        current.push(Some(prior + score));
                    },
                    None => {
                        current.push(None);
                    },
                }
            } else {
                current.push(None);
            }
            j += 1;
        }
        previous = current;
        k += 1;
    }
    let mut best: Option<i128> = None;
    let mut last: usize = 0;
    while last < len
        invariant
            last <= len == path@.len(),
            previous@.len() == len,
            rows == query@.len(),
            rows <= len,
            pairing == (Pairing {
                query: query@,
                candidate: path@,
                original: original@,
                basename_start: basename_start as int,
            }),
            forall|n: int|
                0 <= n < len ==> wide(#[trigger] previous@[n]) == best_ending(
                    pairing,
                    rows - 1,
                    n,
                ),
            wide(best) == best_placement(pairing, last as int),
        decreases len - last,
    {
        proof {
            lemma_ending_bounds(pairing, rows - 1, last as int);
            assert(wide(previous@[last as int]) == best_ending(pairing, rows - 1, last as int));
        }
        let here: Option<i128> = match previous[last] {
            Some(worth) => {
                let trailing: usize = len - (last + 1);
                Some(worth - (trailing / 4) as i128)
            },
            None => None,
        };
        best = larger(best, here);
        last += 1;
    }
    best
}

/// Scores a path for a query in lowercase.
pub fn fuzzy_path_score_normalized(query: &[char], candidate: &str) -> (score: Option<i64>)
    ensures
        score == score_of(query@, candidate@),
{
    if query.len() == 0 {
        return Some(0);
    }
    let chars = chars_of(candidate);
    let original = normalize_path(chars.as_slice());
    let path = fold_chars(Folding::Lower, original.as_slice());
    let ghost pairing = pairing_of(query@, candidate@);
    proof {
        lemma_best_bounds(pairing, path@.len() as int);
    }
    if query.len() > path.len() {
        return None;
    }
    let basename_start = basename_start_of(path.as_slice());
    let best = best_alignment(query, path.as_slice(), original.as_slice(), basename_start);
    match best {
        None => None,
        Some(worth) => {
            let bonus = bonus_of(query, path.as_slice());
            let depth = depth_of(path.as_slice());
            let total: i128 = worth + bonus - 2 * depth as i128 - (path.len() / 20) as i128;
            if total > i64::MAX as i128 {
                Some(i64::MAX)
            } else if total < i64::MIN as i128 {
                Some(i64::MIN)
            } else {
                Some(total as i64)
            }
        },
    }
}

/// A query in the form in which it is matched.
pub open spec fn match_query(query: Seq<char>) -> Seq<char> {
    lowered(trimmed(query))
}

/// Scores `candidate` as a fuzzy, case-insensitive path match for `query`.
///
/// Matching is subsequence based. Consecutive characters, path/word
/// boundaries, basenames, filename stems, prefixes, and suffixes receive
/// bonuses; gaps, long paths, and late matches receive small penalties.
/// Returns `None` when every query character cannot be found in order.
pub fn fuzzy_path_score(query: &str, candidate: &str) -> (score: Option<i64>)
    ensures
        score == score_of(match_query(query@), candidate@),
{
    let chars = chars_of(query);
    let middle = trim(chars.as_slice());
    let normal = fold_chars(Folding::Lower, middle.as_slice());
    fuzzy_path_score_normalized(normal.as_slice(), candidate)
}

/// Slashes and backslashes count alike in a candidate.
pub proof fn law_separators_are_alike(query: Seq<char>, a: Seq<char>, b: Seq<char>)
    requires
        slashed(a) == slashed(b),
    ensures
        score_of(query, a) == score_of(query, b),
{
}

/// A candidate has a score exactly where the query can be placed in it in
/// order.
pub proof fn law_score_needs_order(query: Seq<char>, candidate: Seq<char>)
    requires
        query.len() > 0,
    ensures
        score_of(query, candidate) is Some <==> exists|indexes: Seq<int>| #[trigger]
            places(pairing_of(query, candidate), indexes) && indexes.len() == query.len(),
{
    law_best_placement_is_best(pairing_of(query, candidate));
}

} // verus!
