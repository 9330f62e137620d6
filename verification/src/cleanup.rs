//! Cleaning a model's raw output before it is parsed as JSON.
use vstd::prelude::*;
use crate::text::{is_whitespace_char, lemma_trimmed_ends, lemma_trim_idempotent, trim_end, trim_start, chars_to_string, ends_with, ends_with_chars, starts_with, starts_with_chars, str_chars, sub_chars, trim, trim_chars};

verus! {

/// `s` without every leading repetition of `p` (`str::trim_start_matches`).
pub open spec fn strip_prefix_all(s: Seq<char>, p: Seq<char>) -> Seq<char>
    decreases s.len(),
{
    if p.len() > 0 && starts_with(s, p) {
        strip_prefix_all(s.subrange(p.len() as int, s.len() as int), p)
    } else {
        s
    }
}

/// `s` without every trailing repetition of `p` (`str::trim_end_matches`).
pub open spec fn strip_suffix_all(s: Seq<char>, p: Seq<char>) -> Seq<char>
    decreases s.len(),
{
    if p.len() > 0 && ends_with(s, p) {
        strip_suffix_all(s.subrange(0, s.len() - p.len()), p)
    } else {
        s
    }
}

/// Model output with its Markdown code fence removed: trimmed, then
/// without leading "```json" (or, failing that, "```") and trailing "```"
/// repetitions, then trimmed again.
pub open spec fn clean_json(raw: Seq<char>) -> Seq<char> {
    let c = trim(raw);
    let c1 = if starts_with(c, "```json"@) {
        strip_prefix_all(c, "```json"@)
    } else if starts_with(c, "```"@) {
        strip_prefix_all(c, "```"@)
    } else {
        c
    };
    let c2 = if ends_with(c1, "```"@) {
        strip_suffix_all(c1, "```"@)
    } else {
        c1
    };
    trim(c2)
}

/// `str::trim_start_matches` on characters.
pub fn strip_prefixes(s: &Vec<char>, p: &Vec<char>) -> (out: Vec<char>)
    ensures
        out@ == strip_prefix_all(s@, p@),
{
    if p.len() == 0 {
        return sub_chars(s, 0, s.len());
    }
    let sl = s.len();
    let mut lo: usize = 0;
    let mut rest = sub_chars(s, 0, s.len());
    assert(rest@ =~= s@);
    while starts_with_chars(&rest, p)
        invariant
            sl == s@.len(),
            p@.len() > 0,
            lo <= s@.len(),
            rest@ == s@.subrange(lo as int, s@.len() as int),
            strip_prefix_all(s@, p@) == strip_prefix_all(rest@, p@),
        decreases rest@.len(),
    {
        lo = lo + p.len();
        let next = sub_chars(s, lo, s.len());
        assert(next@ =~= rest@.subrange(p@.len() as int, rest@.len() as int));
        rest = next;
    }
    rest
}

/// `str::trim_end_matches` on characters.
pub fn strip_suffixes(s: &Vec<char>, p: &Vec<char>) -> (out: Vec<char>)
    ensures
        out@ == strip_suffix_all(s@, p@),
{
    if p.len() == 0 {
        return sub_chars(s, 0, s.len());
    }
    let mut hi: usize = s.len();
    let mut rest = sub_chars(s, 0, s.len());
    assert(rest@ =~= s@);
    while ends_with_chars(&rest, p)
        invariant
            p@.len() > 0,
            hi <= s@.len(),
            rest@ == s@.subrange(0, hi as int),
            strip_suffix_all(s@, p@) == strip_suffix_all(rest@, p@),
        decreases rest@.len(),
    {
        hi = hi - p.len();
        let next = sub_chars(s, 0, hi);
        assert(next@ =~= rest@.subrange(0, rest@.len() - p@.len()));
        rest = next;
    }
    rest
}

/// Removes a Markdown code fence around model output.
pub fn clean_json_blocks(raw: &str) -> (out: String)
    ensures
        out@ == clean_json(raw@),
{
    let c = trim_chars(&str_chars(raw));
    let json_fence = str_chars("```json");
    let fence = str_chars("```");
    let c1 = if starts_with_chars(&c, &json_fence) {
        strip_prefixes(&c, &json_fence)
    } else if starts_with_chars(&c, &fence) {
        strip_prefixes(&c, &fence)
    } else {
        c
    };
    let c2 = if ends_with_chars(&c1, &fence) {
        strip_suffixes(&c1, &fence)
    } else {
        c1
    };
    chars_to_string(&trim_chars(&c2))
}

/// Text without a code fence is only trimmed: when the trimmed reply
/// neither begins nor ends with "```", cleaning it gives the trimmed reply.
pub proof fn lemma_unfenced_is_trimmed(raw: Seq<char>)
    requires
        !starts_with(trim(raw), "```"@),
        !ends_with(trim(raw), "```"@),
    ensures
        clean_json(raw) == trim(raw),
{
    reveal_strlit("```json");
    reveal_strlit("```");
    let c = trim(raw);
    if starts_with(c, "```json"@) {
        assert(c.subrange(0, 3) =~= c.subrange(0, 7).subrange(0, 3));
        assert("```json"@.subrange(0, 3) =~= "```"@);
        assert(starts_with(c, "```"@));
    }
    lemma_trim_idempotent(raw);
}

/// After the opening fence: a line break, the content, a line break and
/// the closing fence clean down to the content, when it is trimmed.
proof fn lemma_fence_tail(j: Seq<char>)
    requires
        trim(j) == j,
    ensures
        ({
            let r1 = "\n"@ + j + "\n```"@;
            &&& r1.len() > 0 && r1[0] == '\n'
            &&& !starts_with(r1, "```json"@)
            &&& !starts_with(r1, "```"@)
            &&& ends_with(r1, "```"@)
            &&& trim(strip_suffix_all(r1, "```"@)) == j
        }),
{
    reveal_strlit("\n");
    reveal_strlit("\n```");
    reveal_strlit("```json");
    reveal_strlit("```");
    let r1 = "\n"@ + j + "\n```"@;
    assert(r1[0] == '\n');
    assert(!starts_with(r1, "```json"@)) by {
        if starts_with(r1, "```json"@) {
            assert(r1.subrange(0, 7)[0] == r1[0]);
        }
    }
    assert(!starts_with(r1, "```"@)) by {
        if starts_with(r1, "```"@) {
            assert(r1.subrange(0, 3)[0] == r1[0]);
        }
    }
    assert(r1.subrange(r1.len() - 3, r1.len() as int) =~= "```"@);
    let mid = r1.subrange(0, r1.len() - 3);
    assert(mid =~= "\n"@ + j + "\n"@);
    assert(mid.last() == '\n');
    assert(!ends_with(mid, "```"@)) by {
        if ends_with(mid, "```"@) {
            assert(mid.subrange(mid.len() - 3, mid.len() as int)[2] == mid.last());
        }
    }
    assert(strip_suffix_all(mid, "```"@) == mid);
    assert(strip_suffix_all(r1, "```"@) == mid);
    let m2 = j + "\n"@;
    assert(mid.drop_first() =~= m2);
    assert(is_whitespace_char(mid[0]));
    assert(trim_start(mid) == trim_start(m2));
    assert(m2.last() == '\n');
    assert(m2.drop_last() =~= j);
    if j.len() > 0 {
        lemma_trimmed_ends(j);
        assert(m2[0] == j[0]);
        assert(trim_start(m2) == m2);
        assert(trim_end(j) == j);
        assert(trim_end(m2) == j);
    } else {
        assert(m2.drop_first().len() == 0);
        assert(m2[0] == '\n');
        assert(is_whitespace_char(m2[0]));
        assert(trim_start(m2.drop_first()) == m2.drop_first());
        assert(trim_start(m2) == m2.drop_first());
        assert(trim_end(m2.drop_first()) =~= j);
    }
}

/// A fenced reply is cleaned back to its content: "```json" or "```", a
/// line break, the content, a line break and "```" give the content, for
/// any content that is already trimmed.
pub proof fn lemma_fence_removed(j: Seq<char>)
    requires
        trim(j) == j,
    ensures
        clean_json("```json\n"@ + j + "\n```"@) == j,
        clean_json("```\n"@ + j + "\n```"@) == j,
{
    reveal_strlit("```json\n");
    reveal_strlit("```\n");
    reveal_strlit("\n");
    reveal_strlit("\n```");
    reveal_strlit("```json");
    reveal_strlit("```");
    lemma_fence_tail(j);
    let r1 = "\n"@ + j + "\n```"@;
    let a = "```json\n"@ + j + "\n```"@;
    assert(a =~= "```json"@ + r1);
    assert(a[0] == '`' && a.last() == '`');
    assert(trim_start(a) == a);
    assert(trim_end(a) == a);
    assert(a.subrange(0, 7) =~= "```json"@);
    assert(a.subrange(7, a.len() as int) =~= r1);
    assert(strip_prefix_all(r1, "```json"@) == r1);
    assert(strip_prefix_all(a, "```json"@) == r1);
    let b = "```\n"@ + j + "\n```"@;
    assert(b =~= "```"@ + r1);
    assert(b[0] == '`' && b.last() == '`');
    assert(trim_start(b) == b);
    assert(trim_end(b) == b);
    assert(!starts_with(b, "```json"@)) by {
        if starts_with(b, "```json"@) {
            assert(b.subrange(0, 7)[3] == b[3]);
        }
    }
    assert(b.subrange(0, 3) =~= "```"@);
    assert(b.subrange(3, b.len() as int) =~= r1);
    assert(strip_prefix_all(r1, "```"@) == r1);
    assert(strip_prefix_all(b, "```"@) == r1);
}

} // verus!
