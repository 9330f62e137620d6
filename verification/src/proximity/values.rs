//! Boolean and string candidates found in a text.
use vstd::prelude::*;
use crate::text::{
    byte_offset, bytes_len, bytes_len_capped, char_is_alphabetic, char_is_alphanumeric, chars_eq,
    is_alphabetic_char, is_alphanumeric_char, occurrence_positions, occurrences, str_chars,
    sub_chars,
};
use crate::proximity::words::{spans_of, word_text, NumberCand, NumberCandidate, number_views, Word};

verus! {

// ---------------------------------------------------------------------
// Boolean candidates

/// A boolean value found in the text, at a byte offset.
pub struct BoolCandidate {
    pub value: bool,
    pub start: int,
}

/// Candidates of one value at the given character positions.
pub open spec fn flag_candidates(l: Seq<char>, ks: Seq<int>, value: bool) -> Seq<BoolCandidate> {
    ks.map_values(|k: int| BoolCandidate { value, start: byte_offset(l, k) as int })
}

/// Whether the `no` found at character `k` stands as a word. The check
/// reads the characters around it at the character indices `p - 1` and
/// `p + 2`, where `p` is the match's byte offset.
pub open spec fn no_is_word(l: Seq<char>, k: int) -> bool {
    let p = byte_offset(l, k) as int;
    (p == 0 || !is_alphanumeric_char(l[p - 1])) && (p + 2 >= bytes_len(l) || !is_alphanumeric_char(
        l[p + 2],
    ))
}

/// Whether the word check of the `no` at character `k` reads only
/// characters that exist.
pub open spec fn no_check_defined(l: Seq<char>, k: int) -> bool {
    let p = byte_offset(l, k) as int;
    &&& p == 0 || p - 1 < l.len()
    &&& (p == 0 || !is_alphanumeric_char(l[p - 1])) ==> (p + 2 >= bytes_len(l) || p + 2 < l.len())
}

/// The word check is defined for every `no` of the text.
pub open spec fn no_checks_defined(l: Seq<char>) -> bool {
    forall|i: int|
        0 <= i < occurrences(l, "no"@).len() ==> no_check_defined(
            l,
            #[trigger] occurrences(l, "no"@)[i],
        )
}

/// The `false` candidates of the `no`s at positions `ks` that stand as words.
pub open spec fn no_candidates(l: Seq<char>, ks: Seq<int>) -> Seq<BoolCandidate>
    decreases ks.len(),
{
    if ks.len() == 0 {
        seq![]
    } else {
        let prev = no_candidates(l, ks.drop_last());
        if no_is_word(l, ks.last()) {
            prev.push(BoolCandidate { value: false, start: byte_offset(l, ks.last()) as int })
        } else {
            prev
        }
    }
}

/// The boolean candidates of a (lowercased) text: every `true`, then every
/// `false`, every `yes`, and every `no` that stands as a word.
pub open spec fn bool_candidates(l: Seq<char>) -> Seq<BoolCandidate> {
    flag_candidates(l, occurrences(l, "true"@), true) + flag_candidates(
        l,
        occurrences(l, "false"@),
        false,
    ) + flag_candidates(l, occurrences(l, "yes"@), true) + no_candidates(l, occurrences(l, "no"@))
}

/// A boolean candidate.
#[derive(Debug, Clone, Copy)]
pub struct BoolCand {
    pub value: bool,
    pub start: u64,
}

impl View for BoolCand {
    type V = BoolCandidate;

    open spec fn view(&self) -> BoolCandidate {
        BoolCandidate { value: self.value, start: self.start as int }
    }
}

/// The views of a sequence of boolean candidates.
pub open spec fn bool_views(v: Seq<BoolCand>) -> Seq<BoolCandidate> {
    v.map_values(|c: BoolCand| c@)
}

/// The table of byte offsets of `l`.
pub open spec fn offsets_table(l: Seq<char>, offs: Seq<u64>) -> bool {
    &&& offs.len() == l.len() + 1
    &&& forall|k: int| 0 <= k <= l.len() ==> #[trigger] offs[k] == byte_offset(l, k)
}

fn push_flags(l: &Vec<char>, offs: &Vec<u64>, out: &mut Vec<BoolCand>, word: &Vec<char>, value: bool)
    requires
        word@.len() > 0,
        offsets_table(l@, offs@),
        forall|k: int| 0 <= k < offs@.len() ==> #[trigger] offs@[k] <= crate::text::MAX_TEXT_LEN,
        forall|j: int| 0 <= j < old(out)@.len() ==> #[trigger] old(out)@[j].start <= crate::text::MAX_TEXT_LEN,
    ensures
        forall|j: int| 0 <= j < final(out)@.len() ==> #[trigger] final(out)@[j].start <= crate::text::MAX_TEXT_LEN,
        bool_views(final(out)@) == bool_views(old(out)@) + flag_candidates(
            l@,
            occurrences(l@, word@),
            value,
        ),
{
    let ks = occurrence_positions(l, word);
    let ghost base = bool_views(out@);
    let ghost occ = occurrences(l@, word@);
    assert(occ.len() == ks@.len());
    let mut i: usize = 0;
    while i < ks.len()
        invariant
            i <= ks@.len(),
            offsets_table(l@, offs@),
            ks@.map_values(|x: usize| x as int) == occ,
            forall|j: int| 0 <= j < ks@.len() ==> ks@[j] + word@.len() <= l@.len(),
            bool_views(out@) == base + flag_candidates(l@, occ.take(i as int), value),
            forall|k: int| 0 <= k < offs@.len() ==> #[trigger] offs@[k] <= crate::text::MAX_TEXT_LEN,
            forall|j: int| 0 <= j < out@.len() ==> #[trigger] out@[j].start <= crate::text::MAX_TEXT_LEN,
        decreases ks@.len() - i,
    {
        let k = ks[i];
        assert(occ[i as int] == k as int);
        let ghost before = bool_views(out@);
        let ghost prev = out@;
        out.push(BoolCand { value, start: offs[k] });
        assert(forall|j: int| 0 <= j < prev.len() ==> out@[j] == prev[j]);
        assert(occ.take(i + 1) =~= occ.take(i as int).push(k as int));
        assert(bool_views(out@) =~= before.push(BoolCandidate { value, start: byte_offset(l@, k as int) as int }));
        assert(flag_candidates(l@, occ.take(i + 1), value) =~= flag_candidates(l@, occ.take(i as int), value).push(BoolCandidate { value, start: byte_offset(l@, k as int) as int }));
        i = i + 1;
    }
    assert(occ.take(ks@.len() as int) =~= occ);
}

/// The boolean candidates of a lowercased text.
pub fn find_bool_candidates(l: &Vec<char>, offs: &Vec<u64>, total: u64) -> (out: Vec<BoolCand>)
    requires
        offsets_table(l@, offs@),
        total == bytes_len(l@),
        total <= crate::text::MAX_TEXT_LEN,
        forall|k: int| 0 <= k < offs@.len() ==> #[trigger] offs@[k] <= crate::text::MAX_TEXT_LEN,
        no_checks_defined(l@),
    ensures
        bool_views(out@) == bool_candidates(l@),
        forall|j: int| 0 <= j < out@.len() ==> #[trigger] out@[j].start <= crate::text::MAX_TEXT_LEN,
{
    let mut out: Vec<BoolCand> = Vec::new();
    let t = str_chars("true");
    let f = str_chars("false");
    let y = str_chars("yes");
    let n = str_chars("no");
    proof {
        reveal_strlit("true");
        reveal_strlit("false");
        reveal_strlit("yes");
        reveal_strlit("no");
    }
    assert(bool_views(out@) =~= Seq::<BoolCandidate>::empty());
    push_flags(l, offs, &mut out, &t, true);
    push_flags(l, offs, &mut out, &f, false);
    push_flags(l, offs, &mut out, &y, true);
    let ks = occurrence_positions(l, &n);
    let ghost base = bool_views(out@);
    let ghost occ = occurrences(l@, n@);
    assert(occ.len() == ks@.len());
    let mut i: usize = 0;
    while i < ks.len()
        invariant
            i <= ks@.len(),
            offsets_table(l@, offs@),
            total == bytes_len(l@),
            total <= crate::text::MAX_TEXT_LEN,
            forall|k: int| 0 <= k < offs@.len() ==> #[trigger] offs@[k] <= crate::text::MAX_TEXT_LEN,
            n@ == "no"@,
            no_checks_defined(l@),
            occ == occurrences(l@, n@),
            ks@.map_values(|x: usize| x as int) == occ,
            forall|j: int| 0 <= j < ks@.len() ==> ks@[j] + n@.len() <= l@.len(),
            bool_views(out@) == base + no_candidates(l@, occ.take(i as int)),
            forall|j: int| 0 <= j < out@.len() ==> #[trigger] out@[j].start <= crate::text::MAX_TEXT_LEN,
        decreases ks@.len() - i,
    {
        let k = ks[i];
        assert(occ[i as int] == k as int);
        assert(no_check_defined(l@, occ[i as int]));
        let p = offs[k];
        assert(p as int == byte_offset(l@, k as int));
        proof {
            crate::text::lemma_byte_offset_monotone(l@, k as int, l@.len() as int);
            assert(l@.take(l@.len() as int) =~= l@);
        }
        let ghost pi = p as int;
        let ll = l.len();
        let before_ok = if p == 0 {
            true
        } else {
            assert(pi - 1 < ll);
            let idx = (p - 1) as usize;
            assert(idx as int == pi - 1);
            !char_is_alphanumeric(l[idx])
        };
        assert(before_ok == (pi == 0 || !is_alphanumeric_char(l@[pi - 1])));
        let is_word = if before_ok {
            if p + 2 >= total {
                true
            } else {
                assert(pi + 2 < ll);
                let idx = (p + 2) as usize;
                assert(idx as int == pi + 2);
                !char_is_alphanumeric(l[idx])
            }
        } else {
            false
        };
        assert(is_word == no_is_word(l@, k as int));
        assert(occ.take(i + 1).drop_last() =~= occ.take(i as int));
        if is_word {
            let ghost before = bool_views(out@);
            let ghost prev = out@;
            out.push(BoolCand { value: false, start: p });
            assert(forall|j: int| 0 <= j < prev.len() ==> out@[j] == prev[j]);
            assert(bool_views(out@) =~= before.push(BoolCandidate { value: false, start: p as int }));
        }
        i = i + 1;
    }
    assert(occ.take(ks@.len() as int) =~= occ);
    out
}


// ---------------------------------------------------------------------
// String candidates

/// A string value found in the text, with the position it is measured
/// from.
pub struct TextCandidate {
    pub value: Seq<char>,
    pub start: int,
}

/// The quote character at `idx` is an apostrophe inside a word (a letter
/// on each side), which does not open or close a quotation.
pub open spec fn apostrophe_in_word(s: Seq<char>, qt: char, idx: int) -> bool {
    qt == '\'' && idx > 0 && idx + 1 < s.len() && is_alphabetic_char(s[idx - 1])
        && is_alphabetic_char(s[idx + 1])
}

/// The quotations by `qt` closed in `s[..i]`, and the position of the
/// quote still open at `i`. A quotation yields its inner text and the
/// character index of its opening quote.
pub open spec fn quote_scan(s: Seq<char>, qt: char, i: int) -> (Seq<TextCandidate>, Option<int>)
    decreases i,
{
    if i <= 0 {
        (seq![], None)
    } else {
        let (cs, open) = quote_scan(s, qt, i - 1);
        let idx = i - 1;
        if s[idx] != qt || apostrophe_in_word(s, qt, idx) {
            (cs, open)
        } else {
            match open {
                Some(st) => (
                    cs.push(TextCandidate { value: s.subrange(st + 1, idx), start: st }),
                    None,
                ),
                None => (cs, Some(idx)),
            }
        }
    }
}

/// The quotations of `s` by `qt`, left to right.
pub open spec fn quoted_in(s: Seq<char>, qt: char) -> Seq<TextCandidate> {
    quote_scan(s, qt, s.len() as int).0
}

/// All quotations of `s`: those by `'`, then by `"`, then by `` ` ``.
pub open spec fn quoted_candidates(s: Seq<char>) -> Seq<TextCandidate> {
    quoted_in(s, '\'') + quoted_in(s, '"') + quoted_in(s, '`')
}

/// Byte offset `p` lies inside the word of some number candidate.
pub open spec fn inside_number(p: int, nums: Seq<NumberCandidate>) -> bool {
    exists|j: int| 0 <= j < nums.len() && nums[j].start <= p < #[trigger] nums[j].end
}

/// `w` is one of the boolean words.
pub open spec fn is_bool_word(w: Seq<char>) -> bool {
    w == "true"@ || w == "false"@ || w == "yes"@ || w == "no"@
}

/// The bare words among the first `n` that can be string values: not a
/// number's word, not a boolean word, and longer than one byte.
pub open spec fn word_text_candidates_upto(
    l: Seq<char>,
    spans: Seq<(int, int)>,
    nums: Seq<NumberCandidate>,
    n: int,
) -> Seq<TextCandidate>
    decreases n,
{
    if n <= 0 {
        seq![]
    } else {
        let prev = word_text_candidates_upto(l, spans, nums, n - 1);
        let w = word_text(l, spans[n - 1]);
        let p = byte_offset(l, spans[n - 1].0) as int;
        if !inside_number(p, nums) && !is_bool_word(w) && bytes_len(w) > 1 {
            prev.push(TextCandidate { value: w, start: p })
        } else {
            prev
        }
    }
}

/// A string candidate.
pub struct TextCand {
    pub value: Vec<char>,
    pub start: u64,
}

impl View for TextCand {
    type V = TextCandidate;

    open spec fn view(&self) -> TextCandidate {
        TextCandidate { value: self.value@, start: self.start as int }
    }
}

/// The views of a sequence of string candidates.
pub open spec fn text_views(v: Seq<TextCand>) -> Seq<TextCandidate> {
    v.map_values(|c: TextCand| c@)
}

/// The quotations of `s` by `qt`.
pub fn find_quoted(s: &Vec<char>, qt: char) -> (out: Vec<TextCand>)
    ensures
        text_views(out@) == quoted_in(s@, qt),
        forall|j: int| 0 <= j < out@.len() ==> #[trigger] out@[j].start < s@.len(),
        forall|j: int| 0 <= j < out@.len() ==> #[trigger] out@[j].start + out@[j].value@.len() + 1 < s@.len(),
{
    let mut out: Vec<TextCand> = Vec::new();
    let mut open: Option<usize> = None;
    let mut idx: usize = 0;
    while idx < s.len()
        invariant
            idx <= s@.len(),
            (text_views(out@), crate::proximity::words::opt_int(open)) == quote_scan(s@, qt, idx as int),
            open matches Some(st) ==> st < idx,
            forall|j: int| 0 <= j < out@.len() ==> #[trigger] out@[j].start < s@.len(),
            forall|j: int| 0 <= j < out@.len() ==> #[trigger] out@[j].start + out@[j].value@.len() + 1 < s@.len(),
        decreases s@.len() - idx,
    {
        let c = s[idx];
        let skip = c != qt || (qt == '\'' && idx > 0 && s.len() - idx > 1 && char_is_alphabetic(
            s[idx - 1],
        ) && char_is_alphabetic(s[idx + 1]));
        assert(skip == (s@[idx as int] != qt || apostrophe_in_word(s@, qt, idx as int)));
        if !skip {
            match open {
                Some(st) => {
                    let value = sub_chars(s, st + 1, idx);
                    let ghost before = text_views(out@);
                    let ghost prev = out@;
                    out.push(TextCand { value, start: st as u64 });
                    assert(text_views(out@) =~= before.push(
                        TextCandidate { value: s@.subrange(st + 1, idx as int), start: st as int },
                    ));
                    assert(forall|j: int| 0 <= j < prev.len() ==> out@[j] == prev[j]);
                    open = None;
                },
                None => {
                    open = Some(idx);
                },
            }
        }
        idx = idx + 1;
    }
    out
}

/// Whether a word is one of the boolean words.
pub fn bool_word(w: &Vec<char>, t: &Vec<char>, f: &Vec<char>, y: &Vec<char>, n: &Vec<char>) -> (r: bool)
    requires
        t@ == "true"@,
        f@ == "false"@,
        y@ == "yes"@,
        n@ == "no"@,
    ensures
        r == is_bool_word(w@),
{
    chars_eq(w, t) || chars_eq(w, f) || chars_eq(w, y) || chars_eq(w, n)
}

/// Whether byte offset `p` lies inside the word of some number candidate.
pub fn within_number(p: u64, nums: &Vec<NumberCand>) -> (r: bool)
    ensures
        r == inside_number(p as int, number_views(nums@)),
{
    let mut j: usize = 0;
    while j < nums.len()
        invariant
            j <= nums@.len(),
            forall|k: int| 0 <= k < j ==> !(nums@[k].start <= p < #[trigger] nums@[k].end),
        decreases nums@.len() - j,
    {
        if nums[j].start <= p && p < nums[j].end {
            assert(number_views(nums@)[j as int].end == nums@[j as int].end as int);
            return true;
        }
        j = j + 1;
    }
    assert forall|k: int| 0 <= k < nums@.len() implies !(number_views(nums@)[k].start <= p
        < #[trigger] number_views(nums@)[k].end) by {
        assert(number_views(nums@)[k] == nums@[k]@);
    }
    false
}

/// The bare words that can be string values.
pub fn find_word_texts(
    l: &Vec<char>,
    offs: &Vec<u64>,
    words: &Vec<Word>,
    nums: &Vec<NumberCand>,
) -> (out: Vec<TextCand>)
    requires
        offsets_table(l@, offs@),
        forall|k: int| 0 <= k < offs@.len() ==> #[trigger] offs@[k] <= crate::text::MAX_TEXT_LEN,
        forall|j: int| 0 <= j < words@.len() ==> #[trigger] words@[j].start < words@[j].end <= l@.len(),
    ensures
        forall|j: int| 0 <= j < out@.len() ==> #[trigger] out@[j].start <= crate::text::MAX_TEXT_LEN,
        text_views(out@) == word_text_candidates_upto(
            l@,
            spans_of(words@),
            number_views(nums@),
            words@.len() as int,
        ),
{
    let t = str_chars("true");
    let f = str_chars("false");
    let y = str_chars("yes");
    let n = str_chars("no");
    let mut out: Vec<TextCand> = Vec::new();
    let mut i: usize = 0;
    while i < words.len()
        invariant
            i <= words@.len(),
            offsets_table(l@, offs@),
            forall|k: int| 0 <= k < offs@.len() ==> #[trigger] offs@[k] <= crate::text::MAX_TEXT_LEN,
            forall|j: int| 0 <= j < out@.len() ==> #[trigger] out@[j].start <= crate::text::MAX_TEXT_LEN,
            forall|j: int|
                0 <= j < words@.len() ==> #[trigger] words@[j].start < words@[j].end <= l@.len(),
            t@ == "true"@,
            f@ == "false"@,
            y@ == "yes"@,
            n@ == "no"@,
            text_views(out@) == word_text_candidates_upto(
                l@,
                spans_of(words@),
                number_views(nums@),
                i as int,
            ),
        decreases words@.len() - i,
    {
        let wd = words[i];
        let w = sub_chars(l, wd.start, wd.end);
        assert(w@ == word_text(l@, spans_of(words@)[i as int]));
        let p = offs[wd.start];
        let long = bytes_len_capped(&w, 1).is_none();
        if !within_number(p, nums) && !bool_word(&w, &t, &f, &y, &n) && long {
            let ghost before = text_views(out@);
            let ghost prev = out@;
            out.push(TextCand { value: w, start: p });
            assert(forall|j: int| 0 <= j < prev.len() ==> out@[j] == prev[j]);
            assert(text_views(out@) =~= before.push(TextCandidate { value: w@, start: p as int }));
        }
        i = i + 1;
    }
    out
}

/// Every `false` candidate read from a `no` stands as a word: the
/// character read after it (at character index `p + 2`, with `p` its byte
/// offset) is not alphanumeric, or the text ends there; so a `no` that
/// begins a longer word such as `now` or `note` gives no candidate.
pub proof fn lemma_no_candidates_are_words(l: Seq<char>, ks: Seq<int>)
    ensures
        forall|j: int| 0 <= j < no_candidates(l, ks).len() ==> !(#[trigger] no_candidates(l, ks)[j]).value && (
        no_candidates(l, ks)[j].start + 2 >= bytes_len(l) || !is_alphanumeric_char(
            l[no_candidates(l, ks)[j].start + 2],
        )) && (no_candidates(l, ks)[j].start == 0 || !is_alphanumeric_char(
            l[no_candidates(l, ks)[j].start - 1],
        )),
    decreases ks.len(),
{
    if ks.len() > 0 {
        lemma_no_candidates_are_words(l, ks.drop_last());
        let prev = no_candidates(l, ks.drop_last());
        let r = no_candidates(l, ks);
        assert forall|j: int| 0 <= j < r.len() implies !(#[trigger] r[j]).value && (r[j].start + 2 >= bytes_len(l)
            || !is_alphanumeric_char(l[r[j].start + 2])) && (r[j].start == 0 || !is_alphanumeric_char(
            l[r[j].start - 1],
        )) by {
            if j < prev.len() {
                assert(r[j] == prev[j]);
            }
        }
    }
}

/// In an ASCII text the `false` candidates of `no` are the whole words
/// `no`: each sits at a `no` with no letter or digit right before or right
/// after it.
pub proof fn lemma_ascii_no_candidates_whole_words(l: Seq<char>)
    requires
        crate::text::is_ascii_text(l),
    ensures
        forall|j: int|
            0 <= j < no_candidates(l, occurrences(l, "no"@)).len() ==> {
                let p = (#[trigger] no_candidates(l, occurrences(l, "no"@))[j]).start;
                &&& 0 <= p && p + 2 <= l.len()
                &&& l[p] == 'n' && l[p + 1] == 'o'
                &&& p + 2 == l.len() || !is_alphanumeric_char(l[p + 2])
                &&& p == 0 || !is_alphanumeric_char(l[p - 1])
            },
{
    reveal_strlit("no");
    let occ = occurrences(l, "no"@);
    crate::text::lemma_occurrences_match(l, "no"@, 0);
    crate::text::lemma_occurrences_inside(l, "no"@, 0);
    crate::text::lemma_ascii_bytes_len(l);
    lemma_no_candidates_are_words(l, occ);
    lemma_no_candidates_from(l, occ);
    assert forall|j: int| 0 <= j < no_candidates(l, occ).len() implies {
        let p = (#[trigger] no_candidates(l, occ)[j]).start;
        &&& 0 <= p && p + 2 <= l.len()
        &&& l[p] == 'n' && l[p + 1] == 'o'
        &&& p + 2 == l.len() || !is_alphanumeric_char(l[p + 2])
        &&& p == 0 || !is_alphanumeric_char(l[p - 1])
    } by {
        let c = no_candidates(l, occ)[j];
        let i = choose|i: int| 0 <= i < occ.len() && c.start == byte_offset(l, #[trigger] occ[i]);
        let k = occ[i];
        crate::text::lemma_ascii_byte_offset(l, k);
        assert(crate::text::matches_at(l, "no"@, k));
        assert(l.subrange(k, k + 2)[0] == l[k]);
        assert(l.subrange(k, k + 2)[1] == l[k + 1]);
    }
}

/// Each candidate of `no_candidates` sits at the byte offset of one of the
/// given positions.
proof fn lemma_no_candidates_from(l: Seq<char>, ks: Seq<int>)
    ensures
        forall|j: int| 0 <= j < no_candidates(l, ks).len() ==> exists|i: int|
            0 <= i < ks.len() && (#[trigger] no_candidates(l, ks)[j]).start == byte_offset(l, #[trigger] ks[i]),
    decreases ks.len(),
{
    if ks.len() > 0 {
        lemma_no_candidates_from(l, ks.drop_last());
        let prev = no_candidates(l, ks.drop_last());
        let r = no_candidates(l, ks);
        assert forall|j: int| 0 <= j < r.len() implies exists|i: int|
            0 <= i < ks.len() && (#[trigger] r[j]).start == byte_offset(l, #[trigger] ks[i]) by {
            if j < prev.len() {
                assert(r[j] == prev[j]);
                let i = choose|i: int| 0 <= i < ks.drop_last().len() && prev[j].start == byte_offset(l, #[trigger] ks.drop_last()[i]);
                assert(ks.drop_last()[i] == ks[i]);
            } else {
                assert(r[j].start == byte_offset(l, ks[ks.len() - 1]));
            }
        }
    }
}

} // verus!
