//! What ranking promises: which parts of a path count, what a score is made of,
//! and that the best paths come first.
use vstd::prelude::*;

use crate::find::{lemma_next_occurrence, next_occurrence, occurs};
use crate::fuzzy::{
    basename_begin, best_placement, fitted, is_lower, is_space, is_upper,
    law_best_placement_is_best, less_trailing, lowered, match_query, pairing_of, part_bonus,
    placement_worth, places, score_of, slashed, slashes, stem_end, stem_of, trimmed, trimmed_end,
    trimmed_start, Pairing,
};
use crate::paths::lossy_text;
use crate::quick_open::{
    best_ranked, bytes_before, law_bounded_ranking_is_exhaustive, law_results_are_ranked,
    lemma_slot, match_count, path_before, result_limit, search_results, slot, Ranked,
};
use crate::text::text_before;

verus! {

/// The last component of a path is what stands behind its last slash.
pub proof fn law_last_component_is_behind_the_last_slash(path: Seq<char>)
    ensures
        0 <= basename_begin(path) <= path.len(),
        forall|k: int| basename_begin(path) <= k < path.len() ==> #[trigger] path[k] != '/',
        basename_begin(path) == 0 || path[basename_begin(path) - 1] == '/',
    decreases path.len(),
{
    if path.len() > 0 && path.last() != '/' {
        let front = path.drop_last();
        law_last_component_is_behind_the_last_slash(front);
        assert forall|k: int| basename_begin(path) <= k < path.len() implies #[trigger] path[k]
            != '/' by {
            if k < front.len() {
                assert(front[k] == path[k]);
            }
        }
    }
}

proof fn lemma_stem_end(name: Seq<char>, upto: int)
    requires
        upto <= name.len(),
    ensures
        ({
            let end = stem_end(name, upto);
            ||| 0 < end < upto && name[end] == '.' && forall|k: int|
                end < k < upto ==> #[trigger] name[k] != '.'
            ||| end == name.len() && forall|k: int| 0 < k < upto ==> #[trigger] name[k] != '.'
        }),
    decreases upto,
{
    if upto > 1 && name[upto - 1] != '.' {
        lemma_stem_end(name, upto - 1);
    }
}

/// The stem of a name is what stands before its last dot, and the whole name
/// where it has none or only one at its start.
pub proof fn law_stem_is_before_the_last_dot(name: Seq<char>)
    ensures
        forall|k: int|
            0 < k < name.len() && #[trigger] name[k] == '.' && !name.skip(k + 1).contains('.')
                ==> stem_of(name) == name.take(k),
        (forall|k: int| 0 < k < name.len() ==> #[trigger] name[k] != '.') ==> stem_of(name) == name,
{
    lemma_stem_end(name, name.len() as int);
    let end = stem_end(name, name.len() as int);
    assert forall|k: int|
        0 < k < name.len() && #[trigger] name[k] == '.' && !name.skip(k + 1).contains('.') implies
        stem_of(name) == name.take(k) by {
        if end > k && end < name.len() {
            assert(name.skip(k + 1)[end - k - 1] == '.');
        }
        assert(end == k);
    }
    if forall|k: int| 0 < k < name.len() ==> #[trigger] name[k] != '.' {
        assert(name.take(name.len() as int) =~= name);
    }
}

/// What the parts of a path are worth that equal the query, or start, end or go
/// on with it. The path is given as a directory and a name.
pub proof fn law_parts_are_rewarded(query: Seq<char>, dir: Seq<char>, name: Seq<char>)
    requires
        query.len() > 0,
        dir.len() == 0 || dir.last() == '/',
        !name.contains('/'),
    ensures
        ({
            let path = dir + name;
            let stem = stem_of(name);
            let n = query.len() as int;
            part_bonus(query, path) == if path == query {
                400
            } else if name == query {
                300
            } else if stem == query {
                260
            } else {
                (if n <= path.len() && path.skip(path.len() - n) == query {
                    150int
                } else {
                    0
                }) + (if n <= name.len() && name.take(n) == query {
                    130int
                } else if n <= stem.len() && stem.take(n) == query {
                    110
                } else {
                    0
                }) + (if n <= path.len() && path.take(n) == query {
                    90int
                } else {
                    0
                }) + (if exists|k: int|
                    0 <= k && k + n <= path.len() && #[trigger] path.subrange(k, k + n) == query {
                    70int
                } else {
                    0
                })
            }
        }),
{
    let path = dir + name;
    let n = query.len() as int;
    lemma_split(dir, name);
    assert(path.skip(basename_begin(path)) =~= name);
    let stem = stem_of(name);
    if n <= path.len() {
        assert(path.subrange(path.len() - n, path.len() - n + n) =~= path.skip(path.len() - n));
        assert(path.subrange(0, 0 + n) =~= path.take(n));
    }
    if n <= name.len() {
        assert(name.subrange(0, 0 + n) =~= name.take(n));
    }
    if n <= stem.len() {
        assert(stem.subrange(0, 0 + n) =~= stem.take(n));
    }
    lemma_next_occurrence(path, query, 0);
    if exists|k: int| 0 <= k && k + n <= path.len() && #[trigger] path.subrange(k, k + n) == query {
        let k = choose|k: int|
            0 <= k && k + n <= path.len() && #[trigger] path.subrange(k, k + n) == query;
        assert(occurs(path, query, k));
    }
    if next_occurrence(path, query, 0) is Some {
        let k = next_occurrence(path, query, 0)->0;
        assert(occurs(path, query, k));
        assert(path.subrange(k, k + n) == query);
    }
}

proof fn lemma_split(dir: Seq<char>, name: Seq<char>)
    requires
        dir.len() == 0 || dir.last() == '/',
        !name.contains('/'),
    ensures
        basename_begin(dir + name) == dir.len(),
{
    let path = dir + name;
    law_last_component_is_behind_the_last_slash(path);
    let b = basename_begin(path);
    if b > dir.len() {
        assert(name[b - 1 - dir.len()] == '/');
    }
    if b < dir.len() {
        let k = dir.len() - 1;
        assert(path[k] == '/');
    }
}

/// A file whose name without its extension is the query is recognized in every
/// directory.
pub proof fn law_stem_is_recognized_in_every_directory(
    query: Seq<char>,
    dir: Seq<char>,
    ext: Seq<char>,
)
    requires
        query.len() > 0,
        !query.contains('/'),
        !ext.contains('/'),
        !ext.contains('.'),
    ensures
        part_bonus(query, dir + seq!['/'] + query + seq!['.'] + ext) == 260,
        part_bonus(query, query + seq!['.'] + ext) == 260,
        part_bonus(query, dir + seq!['/'] + query) == 300,
        part_bonus(query, query) == 400,
{
    let name = query + seq!['.'] + ext;
    let n = query.len() as int;
    assert forall|k: int| 0 <= k < name.len() implies name[k] != '/' by {
        if k < n {
            assert(name[k] == query[k]);
        } else if k > n {
            assert(name[k] == ext[k - n - 1]);
        }
    }
    assert(!name.contains('/'));
    assert(name.skip(n + 1) =~= ext);
    assert(name[n] == '.');
    law_stem_is_before_the_last_dot(name);
    assert(name.take(n) =~= query);
    let slash = dir + seq!['/'];
    assert(slash.last() == '/');
    law_parts_are_rewarded(query, slash, name);
    assert(slash + name =~= dir + seq!['/'] + query + seq!['.'] + ext);
    law_parts_are_rewarded(query, slash, query);
    let none = Seq::<char>::empty();
    law_parts_are_rewarded(query, none, name);
    assert(none + name =~= name);
    law_parts_are_rewarded(query, none, query);
    assert(none + query =~= query);
}

/// Separators of both kinds are slashes; nothing else changes.
pub proof fn law_both_separators_are_slashes(path: Seq<char>)
    ensures
        slashed(path).len() == path.len(),
        forall|i: int|
            0 <= i < path.len() ==> #[trigger] slashed(path)[i] == if path[i] == '\\' || path[i]
                == '/' {
                '/'
            } else {
                path[i]
            },
{
}

proof fn lemma_slashes(path: Seq<char>)
    ensures
        slashes(path) == path.filter(|c: char| c == '/').len(),
    decreases path.len(),
{
    reveal(Seq::filter);
    if path.len() > 0 {
        lemma_slashes(path.drop_last());
    }
}

spec fn worth(path: Seq<char>, original: Seq<char>, base: int, i: int) -> int {
    (if i >= base {
        15int
    } else {
        10
    }) + (if i == 0 || path[i - 1] == '/' {
        24int
    } else if path[i - 1] == '_' || path[i - 1] == '-' || path[i - 1] == ' ' {
        18
    } else if path[i - 1] == '.' {
        10
    } else {
        0
    }) + (if 0 < i < original.len() && is_upper(original[i]) && is_lower(original[i - 1]) {
        12int
    } else {
        0
    })
}

spec fn step(a: int, b: int) -> int {
    if b == a + 1 {
        18
    } else {
        -(b - a - 1)
    }
}

spec fn gains(path: Seq<char>, original: Seq<char>, base: int, indexes: Seq<int>) -> Seq<int> {
    Seq::new(
        indexes.len(),
        |k: int|
            worth(path, original, base, indexes[k]) + if k == 0 {
                -vstd::math::min(indexes[0], 30)
            } else {
                step(indexes[k - 1], indexes[k])
            },
    )
}

proof fn lemma_gains(pairing: Pairing, indexes: Seq<int>)
    requires
        places(pairing, indexes),
    ensures
        placement_worth(pairing, indexes) == gains(
            pairing.candidate,
            pairing.original,
            pairing.basename_start,
            indexes,
        ).fold_left(0int, |a: int, b: int| a + b),
    decreases indexes.len(),
{
    let list = gains(pairing.candidate, pairing.original, pairing.basename_start, indexes);
    let n = indexes.len();
    let add = |a: int, b: int| a + b;
    let rest = indexes.drop_last();
    assert(list.drop_last() =~= gains(
        pairing.candidate,
        pairing.original,
        pairing.basename_start,
        rest,
    ));
    assert(0 <= indexes[n - 1]);
    assert(list.fold_left(0int, add) == list.drop_last().fold_left(0int, add) + list.last());
    if n == 1 {
        assert(list.drop_last().fold_left(0int, add) == 0);
    } else {
        assert forall|m: int| 0 <= m < rest.len() implies 0 <= #[trigger] rest[m]
            < pairing.candidate.len() && pairing.candidate[rest[m]] == pairing.query[m] by {
            assert(rest[m] == indexes[m]);
        }
        assert forall|m: int, k: int| 0 <= m < k < rest.len() implies #[trigger] rest[m]
            < #[trigger] rest[k] by {
            assert(rest[m] == indexes[m] && rest[k] == indexes[k]);
        }
        lemma_gains(pairing, rest);
        assert(indexes[n - 2] < indexes[n - 1]);
    }
}

/// A score is that of the best way to find the query in the path in order: the
/// sum of what each found scalar value is worth and of what going on to it from
/// the one before is worth, less a late start and what is left behind, plus the
/// reward for whole parts, less the depth and the length of the path.
///
/// A scalar value is worth more in the last component, at the start of a
/// component or a word, and where a capital follows a small letter. Adjacent ones
/// are rewarded, and skipped ones cost a point each.
pub proof fn law_score_is_that_of_the_best_placement(
    query: Seq<char>,
    candidate: Seq<char>,
    base: int,
    indexes: Seq<int>,
)
    requires
        query.len() > 0,
        0 <= base <= lowered(slashed(candidate)).len(),
        base == 0 || lowered(slashed(candidate))[base - 1] == '/',
        forall|k: int|
            base <= k < lowered(slashed(candidate)).len() ==> #[trigger] lowered(
                slashed(candidate),
            )[k] != '/',
    ensures
        ({
            let original = slashed(candidate);
            let path = lowered(original);
            let len = path.len() as int;
            let value = |i: int|
                (if i >= base {
                    15int
                } else {
                    10
                }) + (if i == 0 || path[i - 1] == '/' {
                    24int
                } else if path[i - 1] == '_' || path[i - 1] == '-' || path[i - 1] == ' ' {
                    18
                } else if path[i - 1] == '.' {
                    10
                } else {
                    0
                }) + (if 0 < i < original.len() && is_upper(original[i]) && is_lower(
                    original[i - 1],
                ) {
                    12int
                } else {
                    0
                });
            let found = |ix: Seq<int>|
                {
                    &&& ix.len() == query.len()
                    &&& forall|k: int|
                        0 <= k < ix.len() ==> 0 <= #[trigger] ix[k] < len && path[ix[k]] == query[k]
                    &&& forall|k: int, m: int|
                        0 <= k < m < ix.len() ==> #[trigger] ix[k] < #[trigger] ix[m]
                };
            let total = |ix: Seq<int>|
                Seq::new(
                    ix.len(),
                    |k: int|
                        value(ix[k]) + if k == 0 {
                            -vstd::math::min(ix[0], 30)
                        } else if ix[k] == ix[k - 1] + 1 {
                            18
                        } else {
                            -(ix[k] - ix[k - 1] - 1)
                        },
                ).fold_left(0int, |a: int, b: int| a + b) - (len - ix.last() - 1) / 4 + part_bonus(
                    query,
                    path,
                ) - 2 * path.filter(|c: char| c == '/').len() - len / 20;
            &&& found(indexes) ==> (score_of(query, candidate) matches Some(score) && fitted(
                total(indexes),
            ) <= score)
            &&& score_of(query, candidate) matches Some(score) ==> exists|ix: Seq<int>|
                #![trigger found(ix)]
                found(ix) && score == fitted(total(ix))
        }),
{
    let original = slashed(candidate);
    let path = lowered(original);
    let len = path.len() as int;
    let pairing = pairing_of(query, candidate);
    law_last_component_is_behind_the_last_slash(path);
    let begin = basename_begin(path);
    if begin < base {
        let k = base - 1;
        assert(path[k] == '/');
    }
    if begin > base {
        let k = begin - 1;
        assert(path[k] == '/');
    }
    assert(pairing.basename_start == base);
    lemma_slashes(path);
    law_best_placement_is_best(pairing);
    let value = |i: int|
        (if i >= base {
            15int
        } else {
            10
        }) + (if i == 0 || path[i - 1] == '/' {
            24int
        } else if path[i - 1] == '_' || path[i - 1] == '-' || path[i - 1] == ' ' {
            18
        } else if path[i - 1] == '.' {
            10
        } else {
            0
        }) + (if 0 < i < original.len() && is_upper(original[i]) && is_lower(original[i - 1]) {
            12int
        } else {
            0
        });
    let found = |ix: Seq<int>|
        {
            &&& ix.len() == query.len()
            &&& forall|k: int|
                0 <= k < ix.len() ==> 0 <= #[trigger] ix[k] < len && path[ix[k]] == query[k]
            &&& forall|k: int, m: int|
                0 <= k < m < ix.len() ==> #[trigger] ix[k] < #[trigger] ix[m]
        };
    let total = |ix: Seq<int>|
        Seq::new(
            ix.len(),
            |k: int|
                value(ix[k]) + if k == 0 {
                    -vstd::math::min(ix[0], 30)
                } else if ix[k] == ix[k - 1] + 1 {
                    18
                } else {
                    -(ix[k] - ix[k - 1] - 1)
                },
        ).fold_left(0int, |a: int, b: int| a + b) - (len - ix.last() - 1) / 4 + part_bonus(
            query,
            path,
        ) - 2 * path.filter(|c: char| c == '/').len() - len / 20;
    assert forall|ix: Seq<int>| #[trigger] places(pairing, ix) && ix.len() == query.len() implies (
    found(ix) && total(ix) == less_trailing(pairing, placement_worth(pairing, ix), ix.last())
        + part_bonus(query, path) - 2 * slashes(path) - len / 20) by {
        lemma_gains(pairing, ix);
        assert(Seq::new(
            ix.len(),
            |k: int|
                value(ix[k]) + if k == 0 {
                    -vstd::math::min(ix[0], 30)
                } else if ix[k] == ix[k - 1] + 1 {
                    18
                } else {
                    -(ix[k] - ix[k - 1] - 1)
                },
        ) =~= gains(path, original, base, ix));
    }
    if found(indexes) {
        assert(places(pairing, indexes));
    }
    if score_of(query, candidate) is Some {
        let best = best_placement(pairing, len)->0;
        let ix = choose|ix: Seq<int>| #[trigger]
            places(pairing, ix) && ix.len() == query.len() && less_trailing(
                pairing,
                placement_worth(pairing, ix),
                ix.last(),
            ) == best;
        assert(found(ix));
    }
}

/// Without a query every path has the score zero.
pub proof fn law_empty_query_finds_everything(candidate: Seq<char>)
    ensures
        score_of(Seq::empty(), candidate) == Some(0i64),
{
}

proof fn lemma_trimmed_start(text: Seq<char>) -> (n: int)
    ensures
        0 <= n <= text.len(),
        trimmed_start(text) == text.skip(n),
        forall|k: int| 0 <= k < n ==> is_space(#[trigger] text[k]),
        n < text.len() ==> !is_space(text[n]),
    decreases text.len(),
{
    if text.len() > 0 && is_space(text[0]) {
        let rest = text.drop_first();
        let m = lemma_trimmed_start(rest);
        assert(rest.skip(m) =~= text.skip(m + 1));
        assert forall|k: int| 0 <= k < m + 1 implies is_space(#[trigger] text[k]) by {
            if k > 0 {
                assert(rest[k - 1] == text[k]);
            }
        }
        m + 1
    } else {
        assert(text.skip(0) =~= text);
        0
    }
}

proof fn lemma_trimmed_end(text: Seq<char>) -> (n: int)
    ensures
        0 <= n <= text.len(),
        trimmed_end(text) == text.take(n),
        forall|k: int| n <= k < text.len() ==> is_space(#[trigger] text[k]),
        n > 0 ==> !is_space(text[n - 1]),
    decreases text.len(),
{
    if text.len() > 0 && is_space(text.last()) {
        let front = text.drop_last();
        let n = lemma_trimmed_end(front);
        assert(front.take(n) =~= text.take(n));
        assert forall|k: int| n <= k < text.len() implies is_space(#[trigger] text[k]) by {
            if k < front.len() {
                assert(front[k] == text[k]);
            }
        }
        n
    } else {
        assert(text.take(text.len() as int) =~= text);
        text.len() as int
    }
}

/// Trimming takes white space off both ends and nothing else.
pub proof fn law_trimming_takes_white_space_off(text: Seq<char>) -> (ends: (int, int))
    ensures
        0 <= ends.0 <= ends.1 <= text.len(),
        trimmed(text) == text.subrange(ends.0, ends.1),
        forall|k: int| 0 <= k < ends.0 ==> is_space(#[trigger] text[k]),
        forall|k: int| ends.1 <= k < text.len() ==> is_space(#[trigger] text[k]),
        ends.0 < ends.1 ==> !is_space(text[ends.0]) && !is_space(text[ends.1 - 1]),
{
    let a = lemma_trimmed_start(text);
    let rest = text.skip(a);
    let n = lemma_trimmed_end(rest);
    assert(rest.take(n) =~= text.subrange(a, a + n));
    assert forall|k: int| a + n <= k < text.len() implies is_space(#[trigger] text[k]) by {
        assert(rest[k - a] == text[k]);
    }
    if n > 0 {
        assert(rest[n - 1] == text[a + n - 1]);
    }
    (a, a + n)
}

/// Texts are in the order of the first scalar values in which they differ, and a
/// text comes before what it is the start of.
pub proof fn law_text_order_is_lexicographic(a: Seq<char>, b: Seq<char>)
    ensures
        text_before(a, b) <==> exists|i: int|
            0 <= i < b.len() && i <= a.len() && #[trigger] a.take(i) == b.take(i) && (i == a.len()
                || a[i] < b[i]),
    decreases a.len(),
{
    if text_before(a, b) {
        if a.len() == 0 {
            assert(a.take(0) =~= b.take(0));
        } else if a[0] == b[0] {
            let (x, y) = (a.drop_first(), b.drop_first());
            law_text_order_is_lexicographic(x, y);
            let i = choose|i: int|
                0 <= i < y.len() && i <= x.len() && #[trigger] x.take(i) == y.take(i) && (i
                    == x.len() || x[i] < y[i]);
            assert(a.take(i + 1) =~= seq![a[0]] + x.take(i));
            assert(b.take(i + 1) =~= seq![b[0]] + y.take(i));
        } else {
            assert(a.take(0) =~= b.take(0));
        }
    }
    if exists|i: int|
        0 <= i < b.len() && i <= a.len() && #[trigger] a.take(i) == b.take(i) && (i == a.len()
            || a[i] < b[i]) {
        let i = choose|i: int|
            0 <= i < b.len() && i <= a.len() && #[trigger] a.take(i) == b.take(i) && (i == a.len()
                || a[i] < b[i]);
        if a.len() > 0 && i > 0 {
            let (x, y) = (a.drop_first(), b.drop_first());
            assert(a.take(i)[0] == b.take(i)[0]);
            assert(x.take(i - 1) =~= a.take(i).drop_first());
            assert(y.take(i - 1) =~= b.take(i).drop_first());
            law_text_order_is_lexicographic(x, y);
        }
    }
}

/// Byte strings are in the order of the first bytes in which they differ, and a
/// byte string comes before what it is the start of.
pub proof fn law_byte_order_is_lexicographic(a: Seq<u8>, b: Seq<u8>)
    ensures
        bytes_before(a, b) <==> exists|i: int|
            0 <= i < b.len() && i <= a.len() && #[trigger] a.take(i) == b.take(i) && (i == a.len()
                || a[i] < b[i]),
    decreases a.len(),
{
    if bytes_before(a, b) {
        if a.len() == 0 {
            assert(a.take(0) =~= b.take(0));
        } else if a[0] == b[0] {
            let (x, y) = (a.drop_first(), b.drop_first());
            law_byte_order_is_lexicographic(x, y);
            let i = choose|i: int|
                0 <= i < y.len() && i <= x.len() && #[trigger] x.take(i) == y.take(i) && (i
                    == x.len() || x[i] < y[i]);
            assert(a.take(i + 1) =~= seq![a[0]] + x.take(i));
            assert(b.take(i + 1) =~= seq![b[0]] + y.take(i));
        } else {
            assert(a.take(0) =~= b.take(0));
        }
    }
    if exists|i: int|
        0 <= i < b.len() && i <= a.len() && #[trigger] a.take(i) == b.take(i) && (i == a.len()
            || a[i] < b[i]) {
        let i = choose|i: int|
            0 <= i < b.len() && i <= a.len() && #[trigger] a.take(i) == b.take(i) && (i == a.len()
                || a[i] < b[i]);
        if a.len() > 0 && i > 0 {
            let (x, y) = (a.drop_first(), b.drop_first());
            assert(a.take(i)[0] == b.take(i)[0]);
            assert(x.take(i - 1) =~= a.take(i).drop_first());
            assert(y.take(i - 1) =~= b.take(i).drop_first());
            law_byte_order_is_lexicographic(x, y);
        }
    }
}

/// Paths are in the order of their lowercase texts with slashes; where these are
/// the same, of their texts; and where these are the same, of their bytes.
pub proof fn law_path_order(a: Seq<u8>, b: Seq<u8>)
    ensures
        ({
            let (x, y) = (slashed(lossy_text(a)), slashed(lossy_text(b)));
            path_before(a, b) == if lowered(x) != lowered(y) {
                text_before(lowered(x), lowered(y))
            } else if x != y {
                text_before(x, y)
            } else {
                bytes_before(a, b)
            }
        }),
{
    let (x, y) = (slashed(lossy_text(a)), slashed(lossy_text(b)));
    crate::text::lemma_text_order_total(lowered(x), lowered(y));
    crate::text::lemma_text_order_total(x, y);
}

/// Whether a result stems from a path.
spec fn ranks(paths: Seq<Seq<u8>>, query: Seq<char>, i: int, item: Ranked) -> bool {
    &&& 0 <= i < paths.len()
    &&& item.path == paths[i]
    &&& score_of(query, lossy_text(paths[i])) == Some(item.score)
}

proof fn lemma_ranked_members(paths: Seq<Seq<u8>>, query: Seq<char>, limit: int)
    requires
        paths.len() <= limit,
    ensures
        best_ranked(paths, query, limit).len() <= paths.len(),
        forall|item: Ranked| #[trigger]
            best_ranked(paths, query, limit).contains(item) <==> exists|i: int|
                ranks(paths, query, i, item),
    decreases paths.len(),
{
    let list = best_ranked(paths, query, limit);
    if paths.len() > 0 {
        let front = paths.drop_last();
        let before = best_ranked(front, query, limit);
        let last = paths.len() - 1;
        lemma_ranked_members(front, query, limit);
        assert forall|item: Ranked, i: int| #[trigger] ranks(front, query, i, item) implies ranks(
            paths,
            query,
            i,
            item,
        ) by {}
        let found = score_of(query, lossy_text(paths.last()));
        if let Some(score) = found {
            let new = Ranked { path: paths.last(), score };
            lemma_slot(before, new);
            let at = slot(before, new);
            assert(list == before.insert(at, new));
            assert(ranks(paths, query, last, new));
            assert(list[at] == new);
        }
        assert forall|item: Ranked| #[trigger] list.contains(item) <==> exists|i: int|
            ranks(paths, query, i, item) by {
            if list.contains(item) {
                if let Some(score) = found {
                    let new = Ranked { path: paths.last(), score };
                    let at = slot(before, new);
                    let k = choose|k: int| 0 <= k < list.len() && list[k] == item;
                    if k < at {
                        assert(before[k] == item);
                    } else if k > at {
                        assert(before[k - 1] == item);
                    }
                    if k != at {
                        assert(before.contains(item));
                        let i = choose|i: int| ranks(front, query, i, item);
                        assert(ranks(paths, query, i, item));
                    }
                } else {
                    let i = choose|i: int| ranks(front, query, i, item);
                    assert(ranks(paths, query, i, item));
                }
            }
            if exists|i: int| ranks(paths, query, i, item) {
                let i = choose|i: int| ranks(paths, query, i, item);
                if i < last {
                    assert(ranks(front, query, i, item));
                    assert(before.contains(item));
                    if let Some(score) = found {
                        let new = Ranked { path: paths.last(), score };
                        let at = slot(before, new);
                        let k = choose|k: int| 0 <= k < before.len() && before[k] == item;
                        if k < at {
                            assert(list[k] == item);
                        } else {
                            assert(list[k + 1] == item);
                        }
                    }
                } else {
                    assert(item == Ranked { path: paths.last(), score: found->0 });
                    assert(list.contains(item));
                }
            }
        }
    } else {
        assert forall|item: Ranked| #[trigger] list.contains(item) <==> exists|i: int|
            ranks(paths, query, i, item) by {}
    }
}

proof fn lemma_match_count(paths: Seq<Seq<u8>>, query: Seq<char>)
    ensures
        match_count(paths, query) == paths.filter(
            |path: Seq<u8>| score_of(query, lossy_text(path)) is Some,
        ).len(),
    decreases paths.len(),
{
    reveal(Seq::filter);
    if paths.len() > 0 {
        lemma_match_count(paths.drop_last(), query);
    }
}

/// A search gives the best of all paths that match: each result is a path with
/// its score, they are in the order of their scores and then of their paths, and
/// no path that is left out comes before a result. It tells whether one is left
/// out.
pub proof fn law_search_gives_the_best_paths(
    paths: Seq<Seq<u8>>,
    query: Seq<char>,
    limit: usize,
    i: int,
    j: int,
)
    requires
        trimmed(query).len() > 0,
    ensures
        ({
            let (results, more) = search_results(paths, query, limit);
            let wanted = lowered(trimmed(query));
            let all = paths.filter(|path: Seq<u8>| score_of(wanted, lossy_text(path)) is Some).len();
            &&& results.len() == vstd::math::min(
                all as int,
                vstd::math::min(limit as int, 100),
            )
            &&& more <==> results.len() < all
            &&& 0 <= i < results.len() ==> paths.contains(results[i].path) && score_of(
                wanted,
                lossy_text(results[i].path),
            ) == Some(results[i].score)
            &&& 0 <= i < j < results.len() ==> results[i].score > results[j].score || (
            results[i].score == results[j].score && !path_before(results[j].path, results[i].path))
            &&& 0 <= i < results.len() && 0 <= j < paths.len() ==> (score_of(
                wanted,
                lossy_text(paths[j]),
            ) matches Some(score) ==> results.contains(Ranked { path: paths[j], score })
                || results[i].score > score || (results[i].score == score && !path_before(
                paths[j],
                results[i].path,
            )))
        }),
{
    let (results, more) = search_results(paths, query, limit);
    let wanted = match_query(query);
    let most = result_limit(limit);
    let big = paths.len() as int + most;
    let full = best_ranked(paths, wanted, big);
    lemma_match_count(paths, wanted);
    law_bounded_ranking_is_exhaustive(paths, wanted, most, big);
    lemma_ranked_members(paths, wanted, big);
    assert(results == if full.len() > most {
        full.take(most)
    } else {
        full
    });
    if 0 <= i < results.len() {
        assert(full.contains(full[i]));
        let k = choose|k: int| ranks(paths, wanted, k, full[i]);
        assert(paths[k] == results[i].path);
    }
    if 0 <= i < j < results.len() {
        law_results_are_ranked(paths, wanted, most, i, j);
    }
    if 0 <= i < results.len() && 0 <= j < paths.len() {
        if let Some(score) = score_of(wanted, lossy_text(paths[j])) {
            let item = Ranked { path: paths[j], score };
            assert(ranks(paths, wanted, j, item));
            assert(full.contains(item));
            let k = choose|k: int| 0 <= k < full.len() && full[k] == item;
            if k < results.len() {
                assert(results[k] == item);
            } else {
                law_results_are_ranked(paths, wanted, big, i, k);
            }
        }
    }
}

/// Without a query the first paths are given as they come.
pub proof fn law_search_without_a_query(paths: Seq<Seq<u8>>, query: Seq<char>, limit: usize)
    requires
        forall|k: int| 0 <= k < query.len() ==> is_space(#[trigger] query[k]),
    ensures
        ({
            let (results, more) = search_results(paths, query, limit);
            &&& results.len() == vstd::math::min(
                paths.len() as int,
                vstd::math::min(limit as int, 100),
            )
            &&& more <==> results.len() < paths.len()
            &&& forall|i: int|
                0 <= i < results.len() ==> (#[trigger] results[i]).path == paths[i]
                    && results[i].score == 0
        }),
{
    let (a, b) = law_trimming_takes_white_space_off(query);
}

} // verus!
