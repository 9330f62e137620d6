//! Quotation helpers for span post-processing, and reading a boolean.
use vstd::prelude::*;
use crate::text::{
    bytes_len_capped, chars_to_string, contains_chars, contains_seq, chars_eq, lowercase_chars, lowercase_of,
    str_chars, trim, trim_chars,
};
use crate::proximity::values::{find_quoted, quote_scan, quoted_candidates, text_views, TextCand, TextCandidate};
use crate::proximity::laws::{is_quotation, lemma_quoted_candidates_as_written};

verus! {

/// `a` and `b` are the same quote character.
pub open spec fn is_quote_pair(a: char, b: char) -> bool {
    (a == '\'' && b == '\'') || (a == '"' && b == '"') || (a == '`' && b == '`')
}

/// The span `chars[s..e]` sits between quotes, or begins and ends with
/// the same quote.
pub open spec fn span_quoted(chars: Seq<char>, s: int, e: int) -> bool {
    (s > 0 && e < chars.len() && is_quote_pair(chars[s - 1], chars[e])) || (e > s && e <= chars.len()
        && e - s >= 2 && is_quote_pair(chars[s], chars[e - 1]))
}

/// The character before the span exists whenever the span's end is
/// inside the text, so the quote check reads no character past the end.
pub open spec fn span_quoted_defined(chars: Seq<char>, s: int, e: int) -> bool {
    s > 0 && e < chars.len() ==> s <= chars.len()
}

/// Whether the span `[span_start, span_end)` (character indices of
/// `input`) is quoted.
pub fn is_span_quoted(input: &str, span_start: usize, span_end: usize) -> (r: bool)
    requires
        span_quoted_defined(input@, span_start as int, span_end as int),
    ensures
        r == span_quoted(input@, span_start as int, span_end as int),
{
    let chars = str_chars(input);
    if span_start > 0 && span_end < chars.len() {
        let prev = chars[span_start - 1];
        let next = chars[span_end];
        if (prev == '\'' && next == '\'') || (prev == '"' && next == '"') || (prev == '`' && next
            == '`') {
            return true;
        }
    }
    if span_end > span_start && span_end <= chars.len() {
        if span_end - span_start >= 2 {
            let first = chars[span_start];
            let last = chars[span_end - 1];
            if (first == '\'' && last == '\'') || (first == '"' && last == '"') || (first == '`'
                && last == '`') {
                return true;
            }
        }
    }
    false
}

/// The quotation overlaps the span `[s, e]`: the span's start or end lies
/// between its quotes (inclusive), or it lies inside the span.
pub open spec fn overlaps_span(c: TextCandidate, s: int, e: int) -> bool {
    let open = c.start;
    let close = c.start + c.value.len() + 1;
    (s >= open && s <= close) || (e >= open && e <= close) || (open >= s && close <= e)
}

/// The trimmed text of the first quotation in `cs` that overlaps the span
/// and is not blank.
pub open spec fn first_expansion(cs: Seq<TextCandidate>, s: int, e: int) -> Option<Seq<char>>
    decreases cs.len(),
{
    if cs.len() == 0 {
        None
    } else if overlaps_span(cs[0], s, e) && trim(cs[0].value).len() > 0 {
        Some(trim(cs[0].value))
    } else {
        first_expansion(cs.drop_first(), s, e)
    }
}

/// The quotation a span should be widened to: the first non-blank one
/// (single quotes first, then double, then backticks) that overlaps it.
pub open spec fn quote_expansion(chars: Seq<char>, s: int, e: int) -> Option<Seq<char>> {
    first_expansion(quoted_candidates(chars), s, e)
}

/// The quoted text a span should be widened to, if any.
pub fn expand_to_quote(input: &str, span_start: usize, span_end: usize) -> (r: Option<String>)
    ensures
        match r {
            Some(s) => quote_expansion(input@, span_start as int, span_end as int) == Some(s@),
            None => quote_expansion(input@, span_start as int, span_end as int) is None,
        },
        r matches Some(s) ==> s@.len() > 0 && trim(s@) == s@,
{
    let chars = str_chars(input);
    let mut cs = find_quoted(&chars, '\'');
    let mut more = find_quoted(&chars, '"');
    let ghost a = cs@;
    let ghost b = more@;
    cs.append(&mut more);
    let mut more = find_quoted(&chars, '`');
    let ghost c = more@;
    cs.append(&mut more);
    assert(text_views(cs@) =~= quoted_candidates(chars@)) by {
        assert(cs@ =~= a + b + c);
    }
    let ghost all = text_views(cs@);
    assert(all.skip(0) =~= all);
    let cl = chars.len();
    let mut i: usize = 0;
    while i < cs.len()
        invariant
            i <= cs@.len(),
            all == text_views(cs@),
            all == quoted_candidates(input@),
            chars@ == input@,
            cl == chars@.len(),
            forall|j: int| 0 <= j < cs@.len() ==> #[trigger] cs@[j].start + cs@[j].value@.len() + 1 < chars@.len(),
            first_expansion(all, span_start as int, span_end as int) == first_expansion(
                all.skip(i as int),
                span_start as int,
                span_end as int,
            ),
        decreases cs@.len() - i,
    {
        let cand = &cs[i];
        assert(all.skip(i as int)[0] == cand@);
        assert(all.skip(i as int).drop_first() =~= all.skip(i + 1));
        assert(cand.start + cand.value@.len() + 1 < cl);
        let open = cand.start as usize;
        assert(open as int == cand.start as int);
        let close = open + cand.value.len() + 1;
        let s = span_start;
        let e = span_end;
        let overlaps = (s >= open && s <= close) || (e >= open && e <= close) || (open >= s && close
            <= e);
        assert(overlaps == overlaps_span(cand@, span_start as int, span_end as int));
        if overlaps {
            let t = trim_chars(&cand.value);
            if t.len() > 0 {
                assert(all.skip(i as int).len() > 0);
                assert(first_expansion(all.skip(i as int), span_start as int, span_end as int)
                    == Some(trim(cand@.value)));
                proof {
                    crate::text::lemma_trim_idempotent(cand@.value);
                }
                return Some(chars_to_string(&t));
            }
        }
        i = i + 1;
    }
    None
}

/// What `parse_bool` reads from a span's text: in its lowercase form,
/// `true`, `yes` or exactly `1` mean true; otherwise `false`, `no` or
/// exactly `0` mean false.
pub open spec fn bool_reading(t: Seq<char>) -> Option<bool> {
    let l = lowercase_of(t);
    if contains_seq(l, "true"@) || contains_seq(l, "yes"@) || l == "1"@ {
        Some(true)
    } else if contains_seq(l, "false"@) || contains_seq(l, "no"@) || l == "0"@ {
        Some(false)
    } else {
        None
    }
}

/// Reads a boolean from a span's text.
pub fn parse_bool(text: &str) -> (r: Option<bool>)
    ensures
        r == bool_reading(text@),
{
    let l = lowercase_chars(text);
    if contains_chars(&l, &str_chars("true")) || contains_chars(&l, &str_chars("yes")) || chars_eq(
        &l,
        &str_chars("1"),
    ) {
        Some(true)
    } else if contains_chars(&l, &str_chars("false")) || contains_chars(&l, &str_chars("no"))
        || chars_eq(&l, &str_chars("0")) {
        Some(false)
    } else {
        None
    }
}

proof fn lemma_first_expansion_from(cs: Seq<TextCandidate>, s: int, e: int)
    ensures
        first_expansion(cs, s, e) matches Some(t) ==> exists|k: int|
            #![trigger cs[k]]
            0 <= k < cs.len() && overlaps_span(cs[k], s, e) && t == trim(cs[k].value)
                && t.len() > 0,
    decreases cs.len(),
{
    if cs.len() > 0 && !(overlaps_span(cs[0], s, e) && trim(cs[0].value).len() > 0) {
        lemma_first_expansion_from(cs.drop_first(), s, e);
        if first_expansion(cs, s, e) is Some {
            let t = first_expansion(cs, s, e)->0;
            let k = choose|k: int|
                #![trigger cs.drop_first()[k]]
                0 <= k < cs.drop_first().len() && overlaps_span(
                    cs.drop_first()[k],
                    s,
                    e,
                ) && t == trim(cs.drop_first()[k].value) && t.len() > 0;
            assert(cs[k + 1] == cs.drop_first()[k]);
        }
    }
}

proof fn lemma_quote_scan_none(s: Seq<char>, qt: char, i: int)
    requires
        0 <= i <= s.len(),
        forall|k: int| 0 <= k < s.len() ==> #[trigger] s[k] != qt,
    ensures
        quote_scan(s, qt, i).0.len() == 0,
        quote_scan(s, qt, i).1 is None,
    decreases i,
{
    if i > 0 {
        lemma_quote_scan_none(s, qt, i - 1);
    }
}

/// A quote expansion is the trimmed, non-empty text between two equal
/// quote characters of the input (as written there) whose quotation
/// overlaps the span; an input without quote characters has none.
pub proof fn lemma_quote_expansion_between_quotes(input: Seq<char>, s: int, e: int)
    ensures
        quote_expansion(input, s, e) matches Some(t) ==> exists|k: int|
            0 <= k < quoted_candidates(input).len() && #[trigger] is_quotation(input, quoted_candidates(input)[k])
                && overlaps_span(quoted_candidates(input)[k], s, e) && t == trim(quoted_candidates(input)[k].value)
                && t.len() > 0,
        (forall|k: int| 0 <= k < input.len() ==> #[trigger] input[k] != '\'' && input[k] != '"' && input[k] != '`')
            ==> quote_expansion(input, s, e) is None,
{
    let cs = quoted_candidates(input);
    lemma_first_expansion_from(cs, s, e);
    lemma_quoted_candidates_as_written(input);
    if quote_expansion(input, s, e) is Some {
        let t = quote_expansion(input, s, e)->0;
        let k = choose|k: int|
            #![trigger cs[k]]
            0 <= k < cs.len() && overlaps_span(cs[k], s, e) && t == trim(cs[k].value)
                && t.len() > 0;
        assert(is_quotation(input, cs[k]));
    }
    if forall|k: int| 0 <= k < input.len() ==> #[trigger] input[k] != '\'' && input[k] != '"' && input[k] != '`' {
        lemma_quote_scan_none(input, '\'', input.len() as int);
        lemma_quote_scan_none(input, '"', input.len() as int);
        lemma_quote_scan_none(input, '`', input.len() as int);
        assert(cs.len() == 0);
    }
}

} // verus!
