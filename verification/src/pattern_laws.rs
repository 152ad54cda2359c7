//! What patterns promise: which matches are found, in which order, and what
//! replacing them leaves of a text.
use vstd::prelude::*;
use vstd::utf8::*;

use crate::find::{
    fold_char, folded, index_at, last_occurrence, lemma_folded_add, lemma_index_at,
    lemma_next_occurrence, lemma_offset_ends, lemma_offsets_increase, lemma_owner_range,
    lemma_owners, lowercase, next_occurrence, occurs, uppercase, Folding,
};
use crate::pattern::{
    every_match, every_span, expansion, folded_span, found_at, found_before, grown, last_ending,
    matches_from, next_start, overrun, pieces_end, pieces_for, pieces_of, refusal, replaced_all,
    rule_for, spliced, starts_with, Expression, PatternFault, Piece, RegexOptions, Rule,
};
use crate::text::{byte_offset, lemma_utf8_len_add, utf8_len};

verus! {

/// The next match of a literal is its first occurrence from an index on, told
/// by its byte offsets.
pub proof fn law_next_literal_match_is_first(text: Seq<char>, needle: Seq<char>, from: int)
    requires
        0 <= from <= text.len(),
    ensures
        match found_at(Rule::Literal { text: needle, case_sensitive: true }, text, from) {
            Some(span) => exists|at: int|
                #![trigger text.take(at)]
                {
                    &&& from <= at && at + needle.len() <= text.len()
                    &&& span.0 == encode_utf8(text.take(at)).len()
                    &&& span.1 == encode_utf8(text.take(at + needle.len())).len()
                    &&& text.subrange(at, at + needle.len()) == needle
                    &&& forall|k: int|
                        from <= k < at ==> #[trigger] text.subrange(k, k + needle.len()) != needle
                },
            None => forall|k: int|
                from <= k && k + needle.len() <= text.len() ==> #[trigger] text.subrange(
                    k,
                    k + needle.len(),
                ) != needle,
        },
{
    lemma_next_occurrence(text, needle, from);
    match next_occurrence(text, needle, from) {
        Some(at) => {
            assert(text.take(at) == text.take(at));
            assert(occurs(text, needle, at));
            assert forall|k: int| from <= k < at implies #[trigger] text.subrange(
                k,
                k + needle.len(),
            ) != needle by {
                assert(!occurs(text, needle, k));
            }
        },
        None => {
            assert forall|k: int| from <= k && k + needle.len() <= text.len() implies
                #[trigger] text.subrange(k, k + needle.len()) != needle by {
                assert(!occurs(text, needle, k));
            }
        },
    }
}

/// Folding works on each scalar value by itself: by its lowercase mapping, or by
/// the lowercase mappings of its uppercase mapping.
pub proof fn law_folding_is_by_scalar_value(a: Seq<char>, b: Seq<char>, c: char)
    ensures
        folded(Folding::Lower, a + b) == folded(Folding::Lower, a) + folded(Folding::Lower, b),
        folded(Folding::Full, a + b) == folded(Folding::Full, a) + folded(Folding::Full, b),
        folded(Folding::Lower, seq![c]) == lowercase(c),
        folded(Folding::Full, seq![c]) == folded(Folding::Lower, uppercase(c)),
{
    lemma_folded_add(Folding::Lower, a, b);
    lemma_folded_add(Folding::Full, a, b);
    let none = Seq::<char>::empty();
    assert(seq![c].drop_last() =~= none);
    assert(folded(Folding::Lower, seq![c].drop_last()) =~= none);
    assert(folded(Folding::Full, seq![c].drop_last()) =~= none);
    assert(folded(Folding::Lower, seq![c]) =~= lowercase(c));
    lemma_lowercase_all(uppercase(c));
    assert(folded(Folding::Full, seq![c]) =~= fold_char(Folding::Full, c));
}

proof fn lemma_lowercase_all(text: Seq<char>)
    ensures
        crate::find::lowercase_all(text) == folded(Folding::Lower, text),
    decreases text.len(),
{
    if text.len() > 0 {
        lemma_lowercase_all(text.drop_last());
    }
}

/// A match without regard to case is the first one: the folded needle stands in
/// the folded rest of the text for the first time in the fold of the scalar
/// values that the match encloses, and not without the first or the last one.
pub proof fn law_next_folded_match_is_first(text: Seq<char>, needle: Seq<char>, from: int)
    requires
        0 <= from <= text.len(),
        folded(Folding::Lower, needle).len() > 0,
    ensures
        ({
            let fold = folded(Folding::Lower, text.skip(from));
            let wanted = folded(Folding::Lower, needle);
            match found_at(Rule::Literal { text: needle, case_sensitive: false }, text, from) {
                Some(span) => exists|at: int, start: int, end: int|
                    #![trigger fold.subrange(at, at + wanted.len()), text.subrange(start, end)]
                    {
                        &&& from <= start < end <= text.len()
                        &&& span.0 == encode_utf8(text.take(start)).len()
                        &&& span.1 == encode_utf8(text.take(end)).len()
                        &&& 0 <= at && at + wanted.len() <= fold.len()
                        &&& fold.subrange(at, at + wanted.len()) == wanted
                        &&& forall|k: int|
                            0 <= k < at ==> #[trigger] fold.subrange(k, k + wanted.len()) != wanted
                        &&& folded(Folding::Lower, text.subrange(from, start)).len() <= at < folded(
                            Folding::Lower,
                            text.subrange(from, start + 1),
                        ).len()
                        &&& folded(Folding::Lower, text.subrange(from, end - 1)).len() < at
                            + wanted.len() <= folded(
                            Folding::Lower,
                            text.subrange(from, end),
                        ).len()
                    },
                None => forall|k: int|
                    0 <= k && k + wanted.len() <= fold.len() ==> #[trigger] fold.subrange(
                        k,
                        k + wanted.len(),
                    ) != wanted,
            }
        }),
{
    let rest = text.skip(from);
    let fold = folded(Folding::Lower, rest);
    let wanted = folded(Folding::Lower, needle);
    lemma_next_occurrence(fold, wanted, 0);
    match next_occurrence(fold, wanted, 0) {
        Some(at) => {
            assert(occurs(fold, wanted, at));
            lemma_owners(Folding::Lower, rest);
            let last = at + wanted.len() - 1;
            lemma_owner_range(Folding::Lower, rest, at);
            lemma_owner_range(Folding::Lower, rest, last);
            let (first, stop) = folded_span(Folding::Lower, rest, wanted)->0;
            let start = from + first;
            let end = from + stop;
            assert(rest.take(first) =~= text.subrange(from, start));
            assert(rest.take(first + 1) =~= text.subrange(from, start + 1));
            assert(rest.take(stop - 1) =~= text.subrange(from, end - 1));
            assert(rest.take(stop) =~= text.subrange(from, end));
            assert(text.subrange(start, end) == text.subrange(start, end));
            assert forall|k: int| 0 <= k < at implies #[trigger] fold.subrange(
                k,
                k + wanted.len(),
            ) != wanted by {
                assert(!occurs(fold, wanted, k));
            }
        },
        None => {
            assert forall|k: int| 0 <= k && k + wanted.len() <= fold.len() implies
                #[trigger] fold.subrange(k, k + wanted.len()) != wanted by {
                assert(!occurs(fold, wanted, k));
            }
        },
    }
}

/// A limit only cuts: fewer matches are the first ones of more.
pub proof fn law_limit_only_cuts(rule: Rule, text: Seq<char>, from: int, few: nat, more: nat)
    requires
        few <= more,
    ensures
        matches_from(rule, text, from, more).len() <= more,
        matches_from(rule, text, from, few) == matches_from(rule, text, from, more).take(
            vstd::math::min(few as int, matches_from(rule, text, from, more).len() as int),
        ),
    decreases more,
{
    let all = matches_from(rule, text, from, more);
    if more > 0 && few == 0 {
        law_limit_only_cuts(rule, text, from, 0, 0);
        if let Some(span) = found_at(rule, text, from) {
            if next_start(text, span) > from {
                law_limit_only_cuts(rule, text, next_start(text, span), 0, (more - 1) as nat);
            }
        }
        assert(all.take(0) =~= Seq::<(int, int)>::empty());
    } else if more > 0 {
        if let Some(span) = found_at(rule, text, from) {
            let next = next_start(text, span);
            if next > from {
                law_limit_only_cuts(rule, text, next, (few - 1) as nat, (more - 1) as nat);
                let rest = matches_from(rule, text, next, (more - 1) as nat);
                let cut = vstd::math::min(few as int, all.len() as int);
                assert(all.take(cut) =~= seq![span] + rest.take(cut - 1));
            } else {
                assert(all.take(1) =~= all);
            }
        } else {
            assert(all.take(0) =~= all);
        }
    } else {
        assert(all.take(0) =~= all);
    }
}

/// Whether each match of a rule lies between scalar values, and not before the
/// index from which it is sought.
spec fn looks_ahead(rule: Rule, text: Seq<char>) -> bool {
    forall|k: int|
        0 <= k <= text.len() ==> (#[trigger] found_at(rule, text, k) matches Some(span)
            ==> byte_offset(text, k) <= span.0 <= span.1 && exists|e: int|
            0 <= e <= text.len() && #[trigger] byte_offset(text, e) == span.1)
}

/// Where the match that follows one is sought.
spec fn sought(text: Seq<char>, span: (int, int), behind: int) -> int {
    if span.0 < span.1 || behind == text.len() {
        behind
    } else {
        behind + 1
    }
}

proof fn lemma_sought(rule: Rule, text: Seq<char>, from: int)
    requires
        0 <= from <= text.len(),
        looks_ahead(rule, text),
    ensures
        found_at(rule, text, from) matches Some(span) ==> {
            let behind = index_at(text, span.1);
            &&& from <= behind <= text.len()
            &&& byte_offset(text, behind) == span.1
            &&& next_start(text, span) == sought(text, span, behind)
            &&& next_start(text, span) <= text.len()
            &&& next_start(text, span) > from || behind == text.len()
        },
{
    if let Some(span) = found_at(rule, text, from) {
        let e = choose|e: int| 0 <= e <= text.len() && #[trigger] byte_offset(text, e) == span.1;
        lemma_index_at(text, e);
        if e < from {
            lemma_offsets_increase(text, e, from);
        }
    }
}

proof fn lemma_matches_follow(rule: Rule, text: Seq<char>, from: int, limit: nat, i: int, behind: int)
    requires
        0 <= from <= text.len(),
        looks_ahead(rule, text),
        0 <= i < matches_from(rule, text, from, limit).len(),
        0 <= behind <= text.len(),
        matches_from(rule, text, from, limit)[i].1 == byte_offset(text, behind),
    ensures
        ({
            let spans = matches_from(rule, text, from, limit);
            let next = sought(text, spans[i], behind);
            &&& i + 1 < spans.len() ==> Some(spans[i + 1]) == found_at(rule, text, next)
            &&& i + 1 == spans.len() ==> spans.len() == limit || behind == text.len() || found_at(
                rule,
                text,
                next,
            ) is None
        }),
    decreases limit,
{
    let spans = matches_from(rule, text, from, limit);
    if limit > 0 {
        lemma_sought(rule, text, from);
        let span = found_at(rule, text, from)->0;
        let next = next_start(text, span);
        lemma_index_at(text, behind);
        if next > from {
            let rest = matches_from(rule, text, next, (limit - 1) as nat);
            assert(spans == seq![span] + rest);
            if i == 0 {
                assert(behind == index_at(text, span.1));
                if rest.len() > 0 {
                    assert(spans[1] == rest[0]);
                }
            } else {
                assert(spans[i] == rest[i - 1]);
                if i + 1 < spans.len() {
                    assert(spans[i + 1] == rest[i]);
                }
                lemma_matches_follow(rule, text, next, (limit - 1) as nat, i - 1, behind);
            }
        }
    }
}

/// Matches are found one after the other: the first one from the start of the
/// search on, and each further one from the end of the match before it on, or
/// from one scalar value further where that match is empty. They end where no
/// match follows, at the end of the text, or at the limit.
pub proof fn law_matches_follow_each_other(
    rule: Rule,
    text: Seq<char>,
    from: int,
    limit: nat,
    i: int,
    behind: int,
)
    requires
        0 <= from <= text.len(),
        limit > 0,
        forall|k: int|
            0 <= k <= text.len() ==> (#[trigger] found_at(rule, text, k) matches Some(span)
                ==> encode_utf8(text.take(k)).len() <= span.0 <= span.1 && exists|e: int|
                0 <= e <= text.len() && encode_utf8(#[trigger] text.take(e)).len() == span.1),
    ensures
        ({
            let spans = matches_from(rule, text, from, limit);
            &&& spans.len() == 0 <==> found_at(rule, text, from) is None
            &&& spans.len() > 0 ==> Some(spans[0]) == found_at(rule, text, from)
            &&& 0 <= i < spans.len() && 0 <= behind <= text.len() && spans[i].1 == encode_utf8(
                text.take(behind),
            ).len() ==> {
                let next = if spans[i].0 < spans[i].1 || behind == text.len() {
                    behind
                } else {
                    behind + 1
                };
                if i + 1 < spans.len() {
                    Some(spans[i + 1]) == found_at(rule, text, next)
                } else {
                    spans.len() == limit || behind == text.len() || found_at(rule, text, next)
                        is None
                }
            }
        }),
{
    assert forall|k: int| 0 <= k <= text.len() implies (#[trigger] found_at(
        rule,
        text,
        k,
    ) matches Some(span) ==> byte_offset(text, k) <= span.0 <= span.1 && exists|e: int|
        0 <= e <= text.len() && #[trigger] byte_offset(text, e) == span.1) by {
        if let Some(span) = found_at(rule, text, k) {
            let e = choose|e: int|
                0 <= e <= text.len() && encode_utf8(#[trigger] text.take(e)).len() == span.1;
            assert(byte_offset(text, e) == span.1);
        }
    }
    let spans = matches_from(rule, text, from, limit);
    if 0 <= i < spans.len() && 0 <= behind <= text.len() && spans[i].1 == encode_utf8(
        text.take(behind),
    ).len() {
        lemma_matches_follow(rule, text, from, limit, i, behind);
    }
}

/// No occurrence of a literal is passed over: each one from the start of the
/// search on begins in one of the matches, unless the limit was reached.
pub proof fn law_no_occurrence_is_passed_over(
    text: Seq<char>,
    needle: Seq<char>,
    from: int,
    limit: nat,
    at: int,
)
    requires
        needle.len() > 0,
        0 <= from <= at,
        at + needle.len() <= text.len(),
        text.subrange(at, at + needle.len()) == needle,
    ensures
        ({
            let rule = Rule::Literal { text: needle, case_sensitive: true };
            let spans = matches_from(rule, text, from, limit);
            spans.len() < limit ==> exists|i: int|
                0 <= i < spans.len() && (#[trigger] spans[i]).0 <= encode_utf8(text.take(at)).len()
                    < spans[i].1
        }),
    decreases limit,
{
    let rule = Rule::Literal { text: needle, case_sensitive: true };
    let spans = matches_from(rule, text, from, limit);
    if spans.len() < limit {
        lemma_next_occurrence(text, needle, from);
        assert(occurs(text, needle, at));
        let first = next_occurrence(text, needle, from)->0;
        let end = first + needle.len();
        lemma_index_at(text, end);
        lemma_offsets_increase(text, first, end);
        let rest = matches_from(rule, text, end, (limit - 1) as nat);
        let span = (byte_offset(text, first) as int, byte_offset(text, end) as int);
        assert(spans == seq![span] + rest);
        if at < end {
            if first < at {
                lemma_offsets_increase(text, first, at);
            }
            lemma_offsets_increase(text, at, end);
            assert(spans[0] == span);
            assert(byte_offset(text, at) == encode_utf8(text.take(at)).len());
        } else {
            law_no_occurrence_is_passed_over(text, needle, end, (limit - 1) as nat, at);
            let i = choose|i: int|
                0 <= i < rest.len() && (#[trigger] rest[i]).0 <= encode_utf8(text.take(at)).len()
                    < rest[i].1;
            assert(spans[i + 1] == rest[i]);
        }
    }
}

/// The previous match of a literal is its last occurrence that ends at an index
/// or before.
pub proof fn law_previous_literal_match_is_last(text: Seq<char>, needle: Seq<char>, upto: int)
    requires
        0 <= upto <= text.len(),
    ensures
        match found_before(Rule::Literal { text: needle, case_sensitive: true }, text, upto) {
            Some(span) => exists|at: int|
                #![trigger text.take(at)]
                {
                    &&& 0 <= at && at + needle.len() <= upto
                    &&& span.0 == encode_utf8(text.take(at)).len()
                    &&& span.1 == encode_utf8(text.take(at + needle.len())).len()
                    &&& text.subrange(at, at + needle.len()) == needle
                    &&& forall|k: int|
                        at < k && k + needle.len() <= upto ==> #[trigger] text.subrange(
                            k,
                            k + needle.len(),
                        ) != needle
                },
            None => forall|k: int|
                0 <= k && k + needle.len() <= upto ==> #[trigger] text.subrange(
                    k,
                    k + needle.len(),
                ) != needle,
        },
{
    let part = text.take(upto);
    let size = needle.len() as int;
    lemma_last_occurrence_is_last(part, needle, upto - size);
    assert forall|k: int| 0 <= k && k + size <= upto implies #[trigger] text.subrange(k, k + size)
        == part.subrange(k, k + size) by {
        assert(text.subrange(k, k + size) =~= part.subrange(k, k + size));
    }
    match last_occurrence(part, needle, upto - size) {
        Some(at) => {
            assert(part.take(at) =~= text.take(at));
            assert(part.take(at + size) =~= text.take(at + size));
            assert(text.subrange(at, at + size) == needle);
            assert forall|k: int| at < k && k + size <= upto implies #[trigger] text.subrange(
                k,
                k + size,
            ) != needle by {
                assert(!occurs(part, needle, k));
            }
        },
        None => {
            assert forall|k: int| 0 <= k && k + size <= upto implies #[trigger] text.subrange(
                k,
                k + size,
            ) != needle by {
                assert(!occurs(part, needle, k));
            }
        },
    }
}

proof fn lemma_last_occurrence_is_last(text: Seq<char>, needle: Seq<char>, upto: int)
    ensures
        match last_occurrence(text, needle, upto) {
            Some(at) => 0 <= at <= upto && occurs(text, needle, at) && forall|k: int|
                at < k <= upto ==> !occurs(text, needle, k),
            None => forall|k: int| 0 <= k <= upto ==> !occurs(text, needle, k),
        },
    decreases upto + 1,
{
    if upto >= 0 && !occurs(text, needle, upto) {
        lemma_last_occurrence_is_last(text, needle, upto - 1);
    }
}

/// The previous match of an expression is the last of its matches in the whole
/// text that ends at an index or before.
pub proof fn law_previous_expression_match_is_last(
    expression: Expression,
    text: Seq<char>,
    upto: int,
)
    requires
        0 <= upto <= text.len(),
    ensures
        ({
            let spans = every_match(expression, text);
            let offset = encode_utf8(text.take(upto)).len();
            match found_before(Rule::Regex(expression), text, upto) {
                Some(span) => exists|i: int|
                    0 <= i < spans.len() && span == #[trigger] spans[i] && span.1 <= offset && (
                    forall|j: int| i < j < spans.len() ==> (#[trigger] spans[j]).1 > offset),
                None => forall|j: int| 0 <= j < spans.len() ==> (#[trigger] spans[j]).1 > offset,
            }
        }),
{
    lemma_last_ending(every_match(expression, text), byte_offset(text, upto) as int);
}

proof fn lemma_last_ending(spans: Seq<(int, int)>, offset: int)
    ensures
        match last_ending(spans, offset) {
            Some(span) => exists|i: int|
                0 <= i < spans.len() && span == #[trigger] spans[i] && span.1 <= offset && (forall|
                    j: int,
                |
                    i < j < spans.len() ==> (#[trigger] spans[j]).1 > offset),
            None => forall|j: int| 0 <= j < spans.len() ==> (#[trigger] spans[j]).1 > offset,
        },
    decreases spans.len(),
{
    if spans.len() > 0 {
        let front = spans.drop_last();
        let last = spans.len() - 1;
        if spans.last().1 <= offset {
            assert(spans[last] == spans.last());
        } else {
            lemma_last_ending(front, offset);
            match last_ending(front, offset) {
                Some(span) => {
                    let i = choose|i: int|
                        0 <= i < front.len() && span == #[trigger] front[i] && span.1 <= offset && (
                        forall|j: int| i < j < front.len() ==> (#[trigger] front[j]).1 > offset);
                    assert(spans[i] == span);
                    assert forall|j: int| i < j < spans.len() implies (#[trigger] spans[j]).1
                        > offset by {
                        if j < last {
                            assert(front[j] == spans[j]);
                        }
                    }
                },
                None => {
                    assert forall|j: int| 0 <= j < spans.len() implies (#[trigger] spans[j]).1
                        > offset by {
                        if j < last {
                            assert(front[j] == spans[j]);
                        }
                    }
                },
            }
        }
    }
}

/// What `re:` and `re:i:` stand for: the rest is the source of an expression
/// that is multi-line, with or without regard to case, whatever the default for
/// literals is. Everything else is a literal as it stands.
pub proof fn law_pattern_prefixes(source: Seq<char>, default_case_sensitive: bool)
    requires
        source.len() > 0,
        encode_utf8("re:i:"@ + source).len() <= 4096,
    ensures
        ({
            let options = RegexOptions {
                case_insensitive: true,
                size_limit: 1_048_576,
                dfa_size_limit: 1_048_576,
                unicode: true,
                multi_line: true,
            };
            let blind = Expression { source, options };
            let exact = Expression {
                source,
                options: RegexOptions { case_insensitive: false, ..options },
            };
            &&& rule_for("re:i:"@ + source, default_case_sensitive) == match refusal(blind) {
                None => Ok::<Rule, PatternFault>(Rule::Regex(blind)),
                Some(message) => Err(PatternFault::InvalidRegex { message }),
            }
            &&& !(source.len() >= 2 && source[0] == 'i' && source[1] == ':') ==> rule_for(
                "re:"@ + source,
                default_case_sensitive,
            ) == match refusal(exact) {
                None => Ok::<Rule, PatternFault>(Rule::Regex(exact)),
                Some(message) => Err(PatternFault::InvalidRegex { message }),
            }
            &&& !(source.len() >= 3 && source[0] == 'r' && source[1] == 'e' && source[2] == ':')
                ==> rule_for(source, default_case_sensitive) == Ok::<Rule, PatternFault>(
                Rule::Literal { text: source, case_sensitive: default_case_sensitive },
            )
        }),
{
    reveal_strlit("re:i:");
    reveal_strlit("re:");
    let long = "re:i:"@ + source;
    let short = "re:"@ + source;
    lemma_utf8_len_add("re:i:"@, source);
    lemma_utf8_len_add("re:"@, source);
    lemma_utf8_len_add("re:"@, "i:"@);
    reveal_strlit("i:");
    assert("re:i:"@ =~= "re:"@ + "i:"@);
    assert(long.subrange(0, 5) =~= "re:i:"@);
    assert(long.skip(5) =~= source);
    assert(short.subrange(0, 3) =~= "re:"@);
    assert(short.skip(3) =~= source);
    assert(starts_with(long, "re:i:"@));
    assert(starts_with(short, "re:"@));
    if starts_with(short, "re:i:"@) {
        assert(short.subrange(0, 5)[3] == 'i' && short.subrange(0, 5)[4] == ':');
    }
    if starts_with(source, "re:"@) {
        assert(source.subrange(0, 3)[0] == 'r');
        assert(source.subrange(0, 3)[1] == 'e');
        assert(source.subrange(0, 3)[2] == ':');
    }
    if starts_with(source, "re:i:"@) {
        assert(source.subrange(0, 5)[0] == 'r');
        assert(source.subrange(0, 5)[1] == 'e');
        assert(source.subrange(0, 5)[2] == ':');
    }
}

/// A pattern without a source is refused as empty, and one of more than 4096
/// bytes as too large.
pub proof fn law_unusable_patterns(input: Seq<char>, default_case_sensitive: bool)
    ensures
        (input.len() == 0 || input == "re:"@ || input == "re:i:"@) ==> rule_for(
            input,
            default_case_sensitive,
        ) == Err::<Rule, PatternFault>(PatternFault::Empty),
        encode_utf8(input).len() > 4096 ==> rule_for(input, default_case_sensitive) is Err,
        encode_utf8(input).len() > 4096 && encode_utf8(input).len() <= usize::MAX ==> rule_for(
            input,
            default_case_sensitive,
        ) == Err::<Rule, PatternFault>(
            PatternFault::TooLarge { bytes: encode_utf8(input).len() as usize, limit: 4096 },
        ),
{
    reveal_strlit("re:i:");
    reveal_strlit("re:");
    crate::text::lemma_utf8_len_bounds(input);
    if input.len() == 0 {
        assert(input =~= Seq::<char>::empty());
        assert(encode_utf8(input).len() == 0);
    }
    if input == "re:"@ {
        assert(input.subrange(0, 3) =~= "re:"@);
        assert(!starts_with(input, "re:i:"@));
    }
    if input == "re:i:"@ {
        assert(input.subrange(0, 5) =~= "re:i:"@);
    }
}

/// The parts of a text with its matches replaced: what stands before the first
/// match, its words, what stands between it and the second one, and so on.
spec fn parts(text: Seq<char>, starts: Seq<int>, ends: Seq<int>, words: Seq<Seq<char>>, n: int) -> Seq<
    Seq<char>,
> {
    Seq::new(
        (2 * n) as nat,
        |k: int|
            if k % 2 == 0 {
                text.subrange(
                    if k == 0 {
                        0
                    } else {
                        ends[k / 2 - 1]
                    },
                    starts[k / 2],
                )
            } else {
                words[k / 2]
            },
    )
}

spec fn pieces_are(
    text: Seq<char>,
    pieces: Seq<Piece>,
    starts: Seq<int>,
    ends: Seq<int>,
    words: Seq<Seq<char>>,
) -> bool {
    &&& starts.len() == pieces.len() == ends.len() == words.len()
    &&& forall|i: int|
        0 <= i < pieces.len() ==> {
            &&& (#[trigger] pieces[i]).start == byte_offset(text, starts[i])
            &&& pieces[i].end == byte_offset(text, ends[i])
            &&& pieces[i].words == words[i]
            &&& 0 <= starts[i] <= ends[i] <= text.len()
            &&& i > 0 ==> ends[i - 1] <= starts[i]
        }
}

proof fn lemma_grown_parts(
    text: Seq<char>,
    pieces: Seq<Piece>,
    starts: Seq<int>,
    ends: Seq<int>,
    words: Seq<Seq<char>>,
    n: int,
)
    requires
        pieces_are(text, pieces, starts, ends, words),
        0 <= n <= pieces.len(),
    ensures
        grown(text, pieces.take(n)) == parts(text, starts, ends, words, n).flatten(),
        index_at(text, pieces_end(pieces.take(n))) == if n == 0 {
            0
        } else {
            ends[n - 1]
        },
    decreases n,
{
    broadcast use Seq::lemma_flatten_push;

    lemma_offset_ends(text);
    lemma_index_at(text, 0);
    if n == 0 {
        assert(parts(text, starts, ends, words, 0) =~= Seq::<Seq<char>>::empty());
    } else {
        let m = n - 1;
        lemma_grown_parts(text, pieces, starts, ends, words, m);
        assert(pieces.take(n).drop_last() =~= pieces.take(m));
        assert(pieces.take(n).last() == pieces[m]);
        lemma_index_at(text, starts[m]);
        lemma_index_at(text, ends[m]);
        let from = if m == 0 {
            0
        } else {
            ends[m - 1]
        };
        let gap = text.subrange(from, starts[m]);
        let before = parts(text, starts, ends, words, m);
        assert((2 * m) % 2 == 0 && (2 * m) / 2 == m && (2 * m + 1) % 2 == 1 && (2 * m + 1) / 2
            == m);
        assert(parts(text, starts, ends, words, n) =~= before.push(gap).push(words[m]));
    }
}

proof fn lemma_grown_sizes(
    text: Seq<char>,
    pieces: Seq<Piece>,
    starts: Seq<int>,
    ends: Seq<int>,
    words: Seq<Seq<char>>,
    limit: usize,
    n: int,
)
    requires
        pieces_are(text, pieces, starts, ends, words),
        0 <= n <= pieces.len(),
    ensures
        overrun(text, pieces.take(n), limit) is Some ==> utf8_len(grown(text, pieces.take(n)))
            > limit,
    decreases n,
{
    if n > 0 {
        let m = n - 1;
        lemma_grown_sizes(text, pieces, starts, ends, words, limit, m);
        assert(pieces.take(n).drop_last() =~= pieces.take(m));
        let before = grown(text, pieces.take(m));
        let gap = text.subrange(
            index_at(text, pieces_end(pieces.take(m))),
            index_at(text, pieces.take(n).last().start),
        );
        lemma_utf8_len_add(before, gap);
        lemma_utf8_len_add(before + gap, pieces.take(n).last().words);
    }
}

/// Replacing keeps everything outside of the matches: the new text is what
/// stands before the first match, the words for it, what stands between it and
/// the second match, and so on, up to what stands behind the last match. It is
/// given unless it is larger than the limit, together with the number of
/// matches.
pub proof fn law_replacing_keeps_the_rest(
    rule: Rule,
    text: Seq<char>,
    replacement_text: Seq<char>,
    limit: usize,
    starts: Seq<int>,
    ends: Seq<int>,
)
    requires
        ({
            let spans = every_span(rule, text);
            &&& starts.len() == spans.len() == ends.len()
            &&& forall|i: int|
                #![trigger spans[i]]
                #![trigger starts[i]]
                #![trigger ends[i]]
                0 <= i < spans.len() ==> {
                    &&& 0 <= starts[i] <= ends[i] <= text.len()
                    &&& i > 0 ==> ends[i - 1] <= starts[i]
                    &&& spans[i].0 == encode_utf8(text.take(starts[i])).len()
                    &&& spans[i].1 == encode_utf8(text.take(ends[i])).len()
                }
        }),
    ensures
        ({
            let n = starts.len() as int;
            let whole = Seq::new(
                (2 * n + 1) as nat,
                |k: int|
                    if k % 2 == 1 {
                        match rule {
                            Rule::Literal { .. } => replacement_text,
                            Rule::Regex(expression) => expansion(
                                expression,
                                text,
                                k / 2,
                                replacement_text,
                            ),
                        }
                    } else {
                        text.subrange(
                            if k == 0 {
                                0
                            } else {
                                ends[k / 2 - 1]
                            },
                            if k == 2 * n {
                                text.len() as int
                            } else {
                                starts[k / 2]
                            },
                        )
                    },
            ).flatten();
            &&& replaced_all(rule, text, replacement_text, limit) is Ok <==> n == 0 || encode_utf8(
                whole,
            ).len() <= limit
            &&& replaced_all(rule, text, replacement_text, limit) matches Ok(result) ==> result == (
                whole,
                n as nat,
            )
        }),
{
    broadcast use Seq::lemma_flatten_push;

    let n = starts.len() as int;
    let spans = every_span(rule, text);
    let words = Seq::new(
        n as nat,
        |i: int|
            match rule {
                Rule::Literal { .. } => replacement_text,
                Rule::Regex(expression) => expansion(expression, text, i, replacement_text),
            },
    );
    let pieces = match rule {
        Rule::Literal { .. } => pieces_for(spans, replacement_text),
        Rule::Regex(expression) => pieces_of(expression, text, replacement_text),
    };
    assert forall|i: int| 0 <= i < pieces.len() implies {
        &&& (#[trigger] pieces[i]).start == byte_offset(text, starts[i])
        &&& pieces[i].end == byte_offset(text, ends[i])
        &&& pieces[i].words == words[i]
        &&& 0 <= starts[i] <= ends[i] <= text.len()
        &&& i > 0 ==> ends[i - 1] <= starts[i]
    } by {
        assert(spans[i].0 == encode_utf8(text.take(starts[i])).len());
    }
    assert(pieces_are(text, pieces, starts, ends, words));
    lemma_grown_parts(text, pieces, starts, ends, words, n);
    lemma_grown_sizes(text, pieces, starts, ends, words, limit, n);
    assert(pieces.take(n) =~= pieces);
    let done = if n == 0 {
        0
    } else {
        ends[n - 1]
    };
    let tail = text.subrange(done, text.len() as int);
    assert(text.skip(done) =~= tail);
    let list = parts(text, starts, ends, words, n).push(tail);
    assert((2 * n) % 2 == 0 && (2 * n) / 2 == n);
    let whole = Seq::new(
        (2 * n + 1) as nat,
        |k: int|
            if k % 2 == 1 {
                match rule {
                    Rule::Literal { .. } => replacement_text,
                    Rule::Regex(expression) => expansion(expression, text, k / 2, replacement_text),
                }
            } else {
                text.subrange(
                    if k == 0 {
                        0
                    } else {
                        ends[k / 2 - 1]
                    },
                    if k == 2 * n {
                        text.len() as int
                    } else {
                        starts[k / 2]
                    },
                )
            },
    );
    assert(whole =~= list);
    assert(whole.flatten() == grown(text, pieces) + tail);
    assert(whole.flatten() == spliced(text, pieces));
    lemma_utf8_len_add(grown(text, pieces), tail);
    if n == 0 {
        assert(grown(text, pieces) =~= Seq::<char>::empty());
        assert(whole.flatten() =~= text);
    }
}

} // verus!
