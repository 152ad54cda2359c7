//! The order of project paths, and the best matches for a query among them.
use vstd::prelude::*;

use crate::find::{fold_chars, Folding};
use crate::fuzzy::{
    fuzzy_path_score_normalized, lowered, match_query, normalize_path, score_of, slashed, trim,
    trimmed,
};
use crate::order::Order;
use crate::paths::{copy_bytes, display_path, is_same_path, lossy_text, same_path};
use crate::text::{
    chars_of, lemma_text_order_total, lemma_text_order_transitive, text_before,
};

verus! {

/// The largest number of matches a single quick-open query may return.
pub const MAX_RESULTS: usize = 100;

/// The result limit used by a quick open.
pub const DEFAULT_RESULT_LIMIT: usize = 40;

/// Whether a byte string comes before another.
pub open spec fn bytes_before(a: Seq<u8>, b: Seq<u8>) -> bool
    decreases a.len(),
{
    if b.len() == 0 {
        false
    } else if a.len() == 0 {
        true
    } else if a[0] == b[0] {
        bytes_before(a.drop_first(), b.drop_first())
    } else {
        a[0] < b[0]
    }
}

/// The order of byte strings is strict and total.
pub proof fn lemma_bytes_order_total(a: Seq<u8>, b: Seq<u8>)
    ensures
        !bytes_before(a, a),
        a == b || bytes_before(a, b) || bytes_before(b, a),
        !(bytes_before(a, b) && bytes_before(b, a)),
    decreases a.len(),
{
    if a.len() > 0 && b.len() > 0 {
        lemma_bytes_order_total(a.drop_first(), b.drop_first());
        if a[0] == b[0] && a.drop_first() == b.drop_first() {
            assert(a =~= seq![a[0]] + a.drop_first());
            assert(b =~= seq![b[0]] + b.drop_first());
        }
    } else if a.len() > 0 {
        lemma_bytes_order_total(a.drop_first(), a.drop_first());
    } else if b.len() == 0 {
        assert(a =~= b);
    }
}

/// The order of byte strings is transitive.
pub proof fn lemma_bytes_order_transitive(a: Seq<u8>, b: Seq<u8>, c: Seq<u8>)
    requires
        bytes_before(a, b),
        bytes_before(b, c),
    ensures
        bytes_before(a, c),
    decreases a.len(),
{
    if a.len() > 0 && b.len() > 0 && c.len() > 0 {
        if a[0] == b[0] && b[0] == c[0] {
            lemma_bytes_order_transitive(a.drop_first(), b.drop_first(), c.drop_first());
        }
    }
}

/// Computes [`bytes_before`].
pub fn is_bytes_before(a: &[u8], b: &[u8]) -> (yes: bool)
    ensures
        yes == bytes_before(a@, b@),
{
    let mut i: usize = 0;
    proof {
        assert(a@.skip(0) =~= a@);
        assert(b@.skip(0) =~= b@);
    }
    while i < a.len() && i < b.len()
        invariant
            i <= a@.len(),
            i <= b@.len(),
            bytes_before(a@.skip(i as int), b@.skip(i as int)) == bytes_before(a@, b@),
        decreases a@.len() - i,
    {
        if a[i] != b[i] {
            return a[i] < b[i];
        }
        assert(a@.skip(i as int).drop_first() =~= a@.skip(i + 1));
        assert(b@.skip(i as int).drop_first() =~= b@.skip(i + 1));
        i += 1;
    }
    i < b.len()
}

/// Whether scalar values come before others.
fn is_chars_before(a: &[char], b: &[char]) -> (yes: bool)
    ensures
        yes == text_before(a@, b@),
{
    let mut i: usize = 0;
    proof {
        assert(a@.skip(0) =~= a@);
        assert(b@.skip(0) =~= b@);
    }
    while i < a.len() && i < b.len()
        invariant
            i <= a@.len(),
            i <= b@.len(),
            text_before(a@.skip(i as int), b@.skip(i as int)) == text_before(a@, b@),
        decreases a@.len() - i,
    {
        if a[i] != b[i] {
            return a[i] < b[i];
        }
        assert(a@.skip(i as int).drop_first() =~= a@.skip(i + 1));
        assert(b@.skip(i as int).drop_first() =~= b@.skip(i + 1));
        i += 1;
    }
    i < b.len()
}

/// A path as it is shown: decoded, with slashes.
pub open spec fn shown(path: Seq<u8>) -> Seq<char> {
    slashed(lossy_text(path))
}

/// Whether a path comes before another: by its lowercase form, then by its
/// form as shown, then by its bytes.
pub open spec fn path_before(a: Seq<u8>, b: Seq<u8>) -> bool {
    let (x, y) = (lowered(shown(a)), lowered(shown(b)));
    text_before(x, y) || (x == y && (text_before(shown(a), shown(b)) || (shown(a) == shown(b)
        && bytes_before(a, b))))
}

/// The order of paths tells any two paths apart.
pub proof fn lemma_path_order_total(a: Seq<u8>, b: Seq<u8>)
    ensures
        !path_before(a, a),
        a == b || path_before(a, b) || path_before(b, a),
        !(path_before(a, b) && path_before(b, a)),
{
    lemma_text_order_total(lowered(shown(a)), lowered(shown(b)));
    lemma_text_order_total(shown(a), shown(b));
    lemma_bytes_order_total(a, b);
}

/// The order of paths is transitive.
pub proof fn lemma_path_order_transitive(a: Seq<u8>, b: Seq<u8>, c: Seq<u8>)
    requires
        path_before(a, b),
        path_before(b, c),
    ensures
        path_before(a, c),
{
    let (x, y, z) = (lowered(shown(a)), lowered(shown(b)), lowered(shown(c)));
    if text_before(x, y) && text_before(y, z) {
        lemma_text_order_transitive(x, y, z);
    }
    if text_before(shown(a), shown(b)) && text_before(shown(b), shown(c)) {
        lemma_text_order_transitive(shown(a), shown(b), shown(c));
    }
    if bytes_before(a, b) && bytes_before(b, c) {
        lemma_bytes_order_transitive(a, b, c);
    }
}

/// How two paths compare: the first path before, at or behind the second.
#[derive(Clone, Copy, Debug, PartialEq, Eq, Structural)]
pub enum PathOrdering {
    Before,
    Same,
    Behind,
}

/// Computes [`path_before`] in both directions.
pub fn compare_paths(left: &[u8], right: &[u8]) -> (result: PathOrdering)
    ensures
        result == PathOrdering::Before <==> path_before(left@, right@),
        result == PathOrdering::Same <==> left@ == right@,
        result == PathOrdering::Behind <==> path_before(right@, left@),
{
    proof {
        lemma_path_order_total(left@, right@);
        lemma_text_order_total(lowered(shown(left@)), lowered(shown(right@)));
        lemma_text_order_total(shown(left@), shown(right@));
        lemma_bytes_order_total(left@, right@);
    }
    let left_text = display_path(left);
    let right_text = display_path(right);
    let a = normalize_path(chars_of(left_text.as_str()).as_slice());
    let b = normalize_path(chars_of(right_text.as_str()).as_slice());
    let x = fold_chars(Folding::Lower, a.as_slice());
    let y = fold_chars(Folding::Lower, b.as_slice());
    if is_chars_before(x.as_slice(), y.as_slice()) {
        PathOrdering::Before
    } else if is_chars_before(y.as_slice(), x.as_slice()) {
        PathOrdering::Behind
    } else if is_chars_before(a.as_slice(), b.as_slice()) {
        PathOrdering::Before
    } else if is_chars_before(b.as_slice(), a.as_slice()) {
        PathOrdering::Behind
    } else if is_bytes_before(left, right) {
        PathOrdering::Before
    } else if is_bytes_before(right, left) {
        PathOrdering::Behind
    } else {
        PathOrdering::Same
    }
}

/// The order of project paths.
pub struct PathOrder;

impl Order<Vec<u8>> for PathOrder {
    open spec fn before(a: Seq<u8>, b: Seq<u8>) -> bool {
        path_before(a, b)
    }

    fn is_before(a: &Vec<u8>, b: &Vec<u8>) -> (yes: bool) {
        match compare_paths(a.as_slice(), b.as_slice()) {
            PathOrdering::Before => true,
            _ => false,
        }
    }

    proof fn lemma_order(a: Seq<u8>, b: Seq<u8>, c: Seq<u8>) {
        lemma_path_order_total(a, b);
        lemma_path_order_total(b, c);
        lemma_path_order_total(a, c);
        if path_before(c, a) && path_before(a, b) {
            lemma_path_order_transitive(c, a, b);
        }
    }
}

/// One ranked quick-open result.
#[derive(Clone, Debug, Eq)]
pub struct QuickOpenMatch {
    /// Path relative to the project root.
    pub path: Vec<u8>,
    /// Higher scores are better. Scores should only be compared within a query.
    pub score: i64,
}

/// The content of a [`QuickOpenMatch`].
#[verifier::ext_equal]
pub struct Ranked {
    pub path: Seq<u8>,
    pub score: i64,
}

impl View for QuickOpenMatch {
    type V = Ranked;

    open spec fn view(&self) -> Ranked {
        Ranked { path: self.path@, score: self.score }
    }
}

impl PartialEq for QuickOpenMatch {
    fn eq(&self, other: &Self) -> (same: bool) {
        self.score == other.score && same_path(self.path.as_slice(), other.path.as_slice())
    }
}

impl vstd::std_specs::cmp::PartialEqSpecImpl for QuickOpenMatch {
    open spec fn obeys_eq_spec() -> bool {
        true
    }

    open spec fn eq_spec(&self, other: &Self) -> bool {
        is_same_path(self@.path, other@.path) && self@.score == other@.score
    }
}

/// The contents of results.
pub open spec fn ranked_of(matches: Seq<QuickOpenMatch>) -> Seq<Ranked> {
    matches.map_values(|found: QuickOpenMatch| found@)
}

/// A bounded ranked search together with whether additional matches existed.
#[derive(Clone, Debug, PartialEq, Eq)]
pub struct BoundedSearchResults {
    /// The retained top-ranked paths, never longer than [`MAX_RESULTS`].
    pub matches: Vec<QuickOpenMatch>,
    /// `true` when at least one matching path was omitted by the result limit.
    pub has_more: bool,
}

/// Whether a result ranks before another: by its score, then by its path.
pub open spec fn better(a: Ranked, b: Ranked) -> bool {
    a.score > b.score || (a.score == b.score && path_before(a.path, b.path))
}

/// The first index whose result ranks behind a new one.
pub open spec fn slot(list: Seq<Ranked>, item: Ranked) -> int
    decreases list.len(),
{
    if list.len() == 0 {
        0
    } else if better(item, list[0]) {
        0
    } else {
        1 + slot(list.drop_first(), item)
    }
}

/// A list with one more result at its place, cut to a limit.
pub open spec fn ranked_with(list: Seq<Ranked>, item: Ranked, limit: int) -> Seq<Ranked> {
    let longer = list.insert(slot(list, item), item);
    if longer.len() > limit {
        longer.take(limit)
    } else {
        longer
    }
}

/// The best results among paths, at most `limit` of them.
pub open spec fn best_ranked(paths: Seq<Seq<u8>>, query: Seq<char>, limit: int) -> Seq<Ranked>
    decreases paths.len(),
{
    if paths.len() == 0 {
        Seq::empty()
    } else {
        let before = best_ranked(paths.drop_last(), query, limit);
        match score_of(query, lossy_text(paths.last())) {
            Some(score) => ranked_with(before, Ranked { path: paths.last(), score }, limit),
            None => before,
        }
    }
}

/// How many paths match.
pub open spec fn match_count(paths: Seq<Seq<u8>>, query: Seq<char>) -> nat
    decreases paths.len(),
{
    if paths.len() == 0 {
        0
    } else {
        match_count(paths.drop_last(), query) + if score_of(query, lossy_text(paths.last())) is Some {
            1nat
        } else {
            0nat
        }
    }
}

/// A result limit within the absolute one.
pub open spec fn result_limit(limit: usize) -> int {
    if limit < MAX_RESULTS {
        limit as int
    } else {
        MAX_RESULTS as int
    }
}

/// What a search among paths gives: the results, and whether there are more.
/// Without a query these are the first paths.
pub open spec fn search_results(paths: Seq<Seq<u8>>, query: Seq<char>, limit: usize) -> (
    Seq<Ranked>,
    bool,
) {
    let most = result_limit(limit);
    if trimmed(query).len() == 0 {
        let count = if paths.len() < most {
            paths.len() as int
        } else {
            most
        };
        (Seq::new(count as nat, |i: int| Ranked { path: paths[i], score: 0 }), paths.len() > most)
    } else {
        (
            best_ranked(paths, match_query(query), most),
            match_count(paths, match_query(query)) > most,
        )
    }
}

pub proof fn lemma_slot(list: Seq<Ranked>, item: Ranked)
    ensures
        0 <= slot(list, item) <= list.len(),
        forall|k: int| 0 <= k < slot(list, item) ==> !better(item, #[trigger] list[k]),
        slot(list, item) < list.len() ==> better(item, list[slot(list, item)]),
    decreases list.len(),
{
    if list.len() > 0 && !better(item, list[0]) {
        let rest = list.drop_first();
        lemma_slot(rest, item);
        assert forall|k: int| 0 <= k < slot(list, item) implies !better(
            item,
            #[trigger] list[k],
        ) by {
            if k > 0 {
                assert(rest[k - 1] == list[k]);
            }
        }
    }
}

/// The slot is the first index with a worse result.
proof fn lemma_slot_is(list: Seq<Ranked>, item: Ranked, at: int)
    requires
        0 <= at <= list.len(),
        forall|k: int| 0 <= k < at ==> !better(item, #[trigger] list[k]),
        at < list.len() ==> better(item, list[at]),
    ensures
        slot(list, item) == at,
{
    lemma_slot(list, item);
    let found = slot(list, item);
    if found < at {
        assert(!better(item, list[found]));
    }
}

/// Keeping only the best so far gives the same as cutting the full ranking.
pub proof fn law_bounded_ranking_is_exhaustive(
    paths: Seq<Seq<u8>>,
    query: Seq<char>,
    limit: int,
    unlimited: int,
)
    requires
        0 <= limit <= unlimited,
        paths.len() <= unlimited,
    ensures
        ({
            let full = best_ranked(paths, query, unlimited);
            &&& best_ranked(paths, query, limit) == (if full.len() > limit {
                full.take(limit)
            } else {
                full
            })
            &&& full.len() == match_count(paths, query)
            &&& full.len() <= paths.len()
        }),
    decreases paths.len(),
{
    if paths.len() > 0 {
        let rest = paths.drop_last();
        law_bounded_ranking_is_exhaustive(rest, query, limit, unlimited);
        let full = best_ranked(rest, query, unlimited);
        let part = best_ranked(rest, query, limit);
        if let Some(score) = score_of(query, lossy_text(paths.last())) {
            let item = Ranked { path: paths.last(), score };
            lemma_slot(full, item);
            let at = slot(full, item);
            let cut = if full.len() > limit {
                full.take(limit)
            } else {
                full
            };
            if at < cut.len() {
                lemma_slot_is(cut, item, at);
            } else {
                lemma_slot_is(cut, item, cut.len() as int);
            }
            lemma_slot(part, item);
            let longer = full.insert(at, item);
            if longer.len() > limit {
                assert(ranked_with(part, item, limit) =~= longer.take(limit));
            } else {
                assert(ranked_with(part, item, limit) =~= longer);
            }
        }
    }
}

/// Results are ranked: none is better than one before it.
pub proof fn law_results_are_ranked(
    paths: Seq<Seq<u8>>,
    query: Seq<char>,
    limit: int,
    i: int,
    j: int,
)
    requires
        0 <= limit,
        0 <= i < j < best_ranked(paths, query, limit).len(),
    ensures
        !better(best_ranked(paths, query, limit)[j], best_ranked(paths, query, limit)[i]),
    decreases paths.len(),
{
    let list = best_ranked(paths, query, limit);
    if paths.len() > 0 {
        let rest = best_ranked(paths.drop_last(), query, limit);
        if let Some(score) = score_of(query, lossy_text(paths.last())) {
            let item = Ranked { path: paths.last(), score };
            lemma_slot(rest, item);
            let at = slot(rest, item);
            assert(list[i] == rest.insert(at, item)[i]);
            assert(list[j] == rest.insert(at, item)[j]);
            if i != at && j != at {
                let a = if i < at {
                    i
                } else {
                    i - 1
                };
                let b = if j < at {
                    j
                } else {
                    j - 1
                };
                law_results_are_ranked(paths.drop_last(), query, limit, a, b);
            } else if i == at {
                // What stands behind the new result is worse than it.
                let b = j - 1;
                lemma_better(item, rest[at], rest[b]);
                if at < b {
                    law_results_are_ranked(paths.drop_last(), query, limit, at, b);
                }
            }
        } else {
            law_results_are_ranked(paths.drop_last(), query, limit, i, j);
        }
    }
}

/// What is not better than something worse than a result is not better either.
proof fn lemma_better(a: Ranked, b: Ranked, c: Ranked)
    ensures
        better(a, b) && !better(c, b) ==> !better(c, a),
        better(a, b) ==> !better(b, a),
{
    lemma_path_order_total(a.path, b.path);
    lemma_path_order_total(b.path, c.path);
    lemma_path_order_total(a.path, c.path);
    if path_before(c.path, a.path) && path_before(a.path, b.path) {
        lemma_path_order_transitive(c.path, a.path, b.path);
    }
}

fn is_better(a: &QuickOpenMatch, b: &QuickOpenMatch) -> (yes: bool)
    ensures
        yes == better(a@, b@),
{
    a.score > b.score || (a.score == b.score && match compare_paths(
        a.path.as_slice(),
        b.path.as_slice(),
    ) {
        PathOrdering::Before => true,
        _ => false,
    })
}

/// A search among paths that are handed over one by one.
pub(crate) struct PathSearch {
    query: Vec<char>,
    ranked: bool,
    limit: usize,
    matches: Vec<QuickOpenMatch>,
    count: usize,
}

impl PathSearch {
    /// Whether this is the search after these paths.
    pub(crate) closed spec fn follows(&self, paths: Seq<Seq<u8>>, query: Seq<char>, limit: usize) -> bool {
        &&& self.limit == result_limit(limit)
        &&& self.ranked == (trimmed(query).len() > 0)
        &&& self.query@ == match_query(query)
        &&& self.count <= paths.len()
        &&& ranked_of(self.matches@) == search_results(paths, query, limit).0
        &&& self.ranked ==> self.count == match_count(paths, self.query@)
        &&& !self.ranked ==> self.count == paths.len()
    }

    /// Before the first path.
    pub(crate) fn new(query: &str, limit: usize) -> (search: Self)
        ensures
            search.follows(Seq::empty(), query@, limit),
    {
        let most: usize = if limit < MAX_RESULTS {
            limit
        } else {
            MAX_RESULTS
        };
        let chars = chars_of(query);
        let middle = trim(chars.as_slice());
        let normal = fold_chars(Folding::Lower, middle.as_slice());
        let matches: Vec<QuickOpenMatch> = Vec::new();
        assert(ranked_of(matches@) =~= Seq::<Ranked>::empty());
        assert(search_results(Seq::empty(), query@, limit).0 =~= Seq::<Ranked>::empty());
        PathSearch { query: normal, ranked: middle.len() > 0, limit: most, matches, count: 0 }
    }

    /// Takes one more path.
    pub(crate) fn consider(
        &mut self,
        path: &[u8],
        Ghost(paths): Ghost<Seq<Seq<u8>>>,
        Ghost(query): Ghost<Seq<char>>,
        Ghost(limit): Ghost<usize>,
    )
        requires
            old(self).follows(paths, query, limit),
            paths.len() < usize::MAX,
        ensures
            final(self).follows(paths.push(path@), query, limit),
    {
        let ghost all = paths.push(path@);
        assert(all.drop_last() =~= paths);
        let ghost before = self.matches@;
        assert(ranked_of(before).len() == before.len());
        if !self.ranked {
            if self.count < self.limit {
                let found = QuickOpenMatch { path: copy_bytes(path), score: 0 };
                self.matches.push(found);
                assert(ranked_of(self.matches@) =~= ranked_of(before).push(found@));
            }
            self.count = self.count + 1;
            assert(ranked_of(self.matches@) =~= search_results(all, query, limit).0);
            return;
        }
        let text = display_path(path);
        match fuzzy_path_score_normalized(self.query.as_slice(), text.as_str()) {
            None => {},
            Some(score) => {
                self.count = self.count + 1;
                let found = QuickOpenMatch { path: copy_bytes(path), score };
                let ghost list = ranked_of(before);
                let ghost most = result_limit(limit);
                proof {
                    lemma_ranked_len(paths, self.query@, most);
                    lemma_slot(list, found@);
                }
                let mut at: usize = 0;
                while at < self.matches.len() && !is_better(&found, &self.matches[at])
                    invariant
                        at <= self.matches@.len(),
                        self.matches@ == before,
                        list == ranked_of(before),
                        forall|k: int| 0 <= k < at ==> !better(found@, #[trigger] list[k]),
                    decreases self.matches@.len() - at,
                {
                    assert(list[at as int] == before[at as int]@);
                    at += 1;
                }
                proof {
                    if at < before.len() {
                        assert(list[at as int] == before[at as int]@);
                    }
                    lemma_slot_is(list, found@, at as int);
                }
                if at < self.limit {
                    self.matches.insert(at, found);
                    assert(ranked_of(self.matches@) =~= list.insert(at as int, found@));
                    if self.matches.len() > self.limit {
                        let ghost longer = self.matches@;
                        self.matches.truncate(self.limit);
                        assert(ranked_of(self.matches@) =~= ranked_of(longer).take(most));
                    }
                } else {
                    assert(list.insert(at as int, found@).take(most) =~= list);
                }
                assert(ranked_of(self.matches@) == ranked_with(list, found@, most));
            },
        }
    }

    /// The results.
    pub(crate) fn finish(
        self,
        Ghost(paths): Ghost<Seq<Seq<u8>>>,
        Ghost(query): Ghost<Seq<char>>,
        Ghost(limit): Ghost<usize>,
    ) -> (results: BoundedSearchResults)
        requires
            self.follows(paths, query, limit),
        ensures
            (ranked_of(results.matches@), results.has_more) == search_results(paths, query, limit),
    {
        BoundedSearchResults { has_more: self.count > self.limit, matches: self.matches }
    }
}

proof fn lemma_ranked_len(paths: Seq<Seq<u8>>, query: Seq<char>, limit: int)
    requires
        0 <= limit,
    ensures
        best_ranked(paths, query, limit).len() <= limit,
    decreases paths.len(),
{
    if paths.len() > 0 {
        lemma_ranked_len(paths.drop_last(), query, limit);
        if let Some(score) = score_of(query, lossy_text(paths.last())) {
            lemma_slot(
                best_ranked(paths.drop_last(), query, limit),
                Ranked { path: paths.last(), score },
            );
        }
    }
}

/// The contents of paths.
pub open spec fn path_views(paths: Seq<Vec<u8>>) -> Seq<Seq<u8>> {
    paths.map_values(|path: Vec<u8>| path@)
}

/// Searches paths, clamping `limit` to [`MAX_RESULTS`], and tells whether there
/// are more results.
///
/// An empty query returns the first paths in their order.
pub fn bounded_path_search_with_metadata(paths: &Vec<Vec<u8>>, query: &str, limit: usize) -> (results:
    BoundedSearchResults)
    ensures
        (ranked_of(results.matches@), results.has_more) == search_results(
            path_views(paths@),
            query@,
            limit,
        ),
{
    let ghost all = path_views(paths@);
    let mut search = PathSearch::new(query, limit);
    let mut i: usize = 0;
    assert(all.take(0) =~= Seq::<Seq<u8>>::empty());
    while i < paths.len()
        invariant
            i <= paths@.len(),
            all == path_views(paths@),
            search.follows(all.take(i as int), query@, limit),
        decreases paths@.len() - i,
    {
        assert(all.take(i + 1) =~= all.take(i as int).push(paths@[i as int]@));
        search.consider(
            paths[i].as_slice(),
            Ghost(all.take(i as int)),
            Ghost(query@),
            Ghost(limit),
        );
        i += 1;
    }
    assert(all.take(i as int) =~= all);
    search.finish(Ghost(all), Ghost(query@), Ghost(limit))
}

/// Searches paths, clamping `limit` to [`MAX_RESULTS`].
pub fn bounded_path_search(paths: &Vec<Vec<u8>>, query: &str, limit: usize) -> (matches: Vec<
    QuickOpenMatch,
>)
    ensures
        ranked_of(matches@) == search_results(path_views(paths@), query@, limit).0,
{
    bounded_path_search_with_metadata(paths, query, limit).matches
}

/// A search never gives more results than it may.
pub proof fn law_results_are_bounded(paths: Seq<Seq<u8>>, query: Seq<char>, limit: usize)
    ensures
        search_results(paths, query, limit).0.len() <= MAX_RESULTS,
        search_results(paths, query, limit).0.len() <= limit,
{
    lemma_ranked_len(paths, match_query(query), result_limit(limit));
}

} // verus!
