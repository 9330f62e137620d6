//! Words of a text and the number and boolean candidates found in it.
use vstd::prelude::*;
use crate::text::{
    byte_offset, bytes_len, char_is_alphabetic, char_is_alphanumeric, is_alphabetic_char, char_is_numeric, char_is_whitespace,
    contains_char, is_alphanumeric_char, is_numeric_char, is_whitespace_char, occurrence_positions,
    occurrences, starts_with, starts_with_chars, sub_chars, MAX_TEXT_LEN,
};

verus! {

/// The maximal runs of non-whitespace characters in `s[..i]` that have
/// ended, and the start of the run still open at `i`.
pub open spec fn scan_words(s: Seq<char>, i: int) -> (Seq<(int, int)>, Option<int>)
    decreases i,
{
    if i <= 0 {
        (seq![], None)
    } else {
        let (ws, open) = scan_words(s, i - 1);
        if is_whitespace_char(s[i - 1]) {
            match open {
                Some(st) => (ws.push((st, i - 1)), None),
                None => (ws, None),
            }
        } else {
            match open {
                Some(st) => (ws, Some(st)),
                None => (ws, Some(i - 1)),
            }
        }
    }
}

/// The words of `s`: the maximal runs of non-whitespace characters, as
/// `(start, end)` character spans, left to right.
pub open spec fn word_spans(s: Seq<char>) -> Seq<(int, int)> {
    let (ws, open) = scan_words(s, s.len() as int);
    match open {
        Some(st) => ws.push((st, s.len() as int)),
        None => ws,
    }
}

/// A word of a text: characters `start..end`.
#[derive(Debug, Clone, Copy)]
pub struct Word {
    pub start: usize,
    pub end: usize,
}

/// The spans of a sequence of words.
pub open spec fn spans_of(ws: Seq<Word>) -> Seq<(int, int)> {
    ws.map_values(|w: Word| (w.start as int, w.end as int))
}

/// An optional index as an integer.
pub open spec fn opt_int(o: Option<usize>) -> Option<int> {
    match o {
        Some(x) => Some(x as int),
        None => None,
    }
}

/// The words of `l` (`split_whitespace`-style segmentation with spans).
pub fn segment_words(l: &Vec<char>) -> (out: Vec<Word>)
    ensures
        spans_of(out@) == word_spans(l@),
        forall|i: int| 0 <= i < out@.len() ==> #[trigger] out@[i].start < out@[i].end <= l@.len(),
{
    let mut out: Vec<Word> = Vec::new();
    let mut open: Option<usize> = None;
    let mut i: usize = 0;
    while i < l.len()
        invariant
            i <= l@.len(),
            (spans_of(out@), opt_int(open)) == scan_words(l@, i as int),
            forall|j: int| 0 <= j < out@.len() ==> #[trigger] out@[j].start < out@[j].end <= i,
            open matches Some(st) ==> st < i,
        decreases l@.len() - i,
    {
        let ghost before = spans_of(out@);
        if char_is_whitespace(l[i]) {
            if let Some(st) = open {
                let ghost prev = out@;
                out.push(Word { start: st, end: i });
                assert(forall|j: int| 0 <= j < prev.len() ==> out@[j] == prev[j]);
                assert(spans_of(out@) =~= before.push((st as int, i as int)));
                assert forall|j: int| 0 <= j < out@.len() implies #[trigger] out@[j].start
                    < out@[j].end <= i + 1 by {
                    if j < prev.len() {
                        assert(out@[j] == prev[j]);
                    }
                }
                open = None;
            }
        } else {
            if open.is_none() {
                open = Some(i);
            }
        }
        i = i + 1;
    }
    if let Some(st) = open {
        let ghost before = spans_of(out@);
        out.push(Word { start: st, end: l.len() });
        assert(spans_of(out@) =~= before.push((st as int, l@.len() as int)));
    }
    out
}


// ---------------------------------------------------------------------
// Number candidates

/// A number found in a word of the text: its digits (as the text reads
/// them), the byte span of the word, whether the word or the next word
/// marks a percentage, and whether it has no decimal point.
pub struct NumberCandidate {
    pub text: Seq<char>,
    pub start: int,
    pub end: int,
    pub has_percent: bool,
    pub is_integer: bool,
}

/// The characters of a word kept as its number, scanning `w[..i]`: numeric
/// characters, the first `.` (a second `.` ends the scan), and a `-` when
/// nothing is kept yet. Also whether a `.` was kept and whether the scan
/// has ended.
pub open spec fn clean_scan(w: Seq<char>, i: int) -> (Seq<char>, bool, bool)
    decreases i,
{
    if i <= 0 {
        (seq![], false, false)
    } else {
        let (c, dot, stop) = clean_scan(w, i - 1);
        let ch = w[i - 1];
        if stop {
            (c, dot, true)
        } else if is_numeric_char(ch) {
            (c.push(ch), dot, false)
        } else if ch == '.' {
            if !dot {
                (c.push(ch), true, false)
            } else {
                (c, dot, true)
            }
        } else if ch == '-' && c.len() == 0 {
            (c.push(ch), dot, false)
        } else {
            (c, dot, false)
        }
    }
}

/// The number characters kept from a word.
pub open spec fn cleaned_number(w: Seq<char>) -> Seq<char> {
    clean_scan(w, w.len() as int).0
}

/// `c` is one of `0` to `9`.
pub open spec fn is_ascii_digit(c: char) -> bool {
    '0' <= c <= '9'
}

/// A number text without its leading `-`.
pub open spec fn decimal_body(t: Seq<char>) -> Seq<char> {
    if t.len() > 0 && t[0] == '-' {
        t.drop_first()
    } else {
        t
    }
}

/// Every character of `b` is an ASCII digit or a dot.
pub open spec fn digits_and_dots(b: Seq<char>) -> bool {
    forall|i: int| 0 <= i < b.len() ==> is_ascii_digit(#[trigger] b[i]) || b[i] == '.'
}

/// `b` holds at most one dot.
pub open spec fn at_most_one_dot(b: Seq<char>) -> bool {
    forall|i: int, j: int| 0 <= i < j < b.len() && #[trigger] b[i] == '.' ==> #[trigger] b[j] != '.'
}

/// `b` holds an ASCII digit.
pub open spec fn has_digit(b: Seq<char>) -> bool {
    exists|i: int| 0 <= i < b.len() && is_ascii_digit(#[trigger] b[i])
}

/// For a text made of an optional leading `-`, numeric characters and
/// dots, whether `f64::from_str` accepts it: every numeric character is an
/// ASCII digit, there is at most one dot, and there is at least one digit.
pub open spec fn decimal_parses(t: Seq<char>) -> bool {
    digits_and_dots(decimal_body(t)) && at_most_one_dot(decimal_body(t)) && has_digit(
        decimal_body(t),
    )
}

/// The characters of a word span.
pub open spec fn word_text(l: Seq<char>, span: (int, int)) -> Seq<char> {
    l.subrange(span.0, span.1)
}

/// The word holds a letter (an alphabetic character).
pub open spec fn has_letter(w: Seq<char>) -> bool {
    exists|k: int| 0 <= k < w.len() && is_alphabetic_char(#[trigger] w[k])
}

/// The number candidate of word `i`, if it gives one: words holding `-`
/// or `/` give none, and so do words holding a letter (model numbers such
/// as `x200`, dates such as `21st`, quantities with units such as `5kg`); the kept characters must not be empty, `.` or `-`;
/// a trailing `.` is dropped; and the rest must parse as a decimal.
pub open spec fn number_candidate_at(l: Seq<char>, spans: Seq<(int, int)>, i: int) -> Option<
    NumberCandidate,
> {
    let w = word_text(l, spans[i]);
    if w.contains('-') || w.contains('/') || has_letter(w) {
        None
    } else {
        let has_percent = w.contains('%') || (i + 1 < spans.len() && (starts_with(
            word_text(l, spans[i + 1]),
            "percent"@,
        ) || starts_with(word_text(l, spans[i + 1]), seq!['%'])));
        let c = cleaned_number(w);
        if c.len() == 0 || c == seq!['.'] || c == seq!['-'] {
            None
        } else {
            let t = if c.last() == '.' {
                c.drop_last()
            } else {
                c
            };
            if decimal_parses(t) {
                Some(
                    NumberCandidate {
                        text: t,
                        start: byte_offset(l, spans[i].0) as int,
                        end: byte_offset(l, spans[i].1) as int,
                        has_percent,
                        is_integer: !t.contains('.'),
                    },
                )
            } else {
                None
            }
        }
    }
}

/// The number candidates of the first `n` words, in word order.
pub open spec fn number_candidates_upto(l: Seq<char>, spans: Seq<(int, int)>, n: int) -> Seq<
    NumberCandidate,
>
    decreases n,
{
    if n <= 0 {
        seq![]
    } else {
        let prev = number_candidates_upto(l, spans, n - 1);
        match number_candidate_at(l, spans, n - 1) {
            Some(c) => prev.push(c),
            None => prev,
        }
    }
}

/// The number candidates of a text, in word order.
pub open spec fn number_candidates(l: Seq<char>) -> Seq<NumberCandidate> {
    number_candidates_upto(l, word_spans(l), word_spans(l).len() as int)
}

/// A number candidate.
pub struct NumberCand {
    pub text: Vec<char>,
    pub start: u64,
    pub end: u64,
    pub has_percent: bool,
    pub is_integer: bool,
}

impl View for NumberCand {
    type V = NumberCandidate;

    open spec fn view(&self) -> NumberCandidate {
        NumberCandidate {
            text: self.text@,
            start: self.start as int,
            end: self.end as int,
            has_percent: self.has_percent,
            is_integer: self.is_integer,
        }
    }
}

/// The views of a sequence of number candidates.
pub open spec fn number_views(v: Seq<NumberCand>) -> Seq<NumberCandidate> {
    v.map_values(|c: NumberCand| c@)
}

/// Whether `c` is one of `0` to `9`.
pub fn ascii_digit(c: char) -> (r: bool)
    ensures
        r == is_ascii_digit(c),
{
    '0' <= c && c <= '9'
}

/// Whether a word holds a letter.
pub fn contains_letter(w: &Vec<char>) -> (r: bool)
    ensures
        r == has_letter(w@),
{
    let mut i: usize = 0;
    while i < w.len()
        invariant
            i <= w@.len(),
            forall|k: int| 0 <= k < i ==> !is_alphabetic_char(#[trigger] w@[k]),
        decreases w@.len() - i,
    {
        if char_is_alphabetic(w[i]) {
            return true;
        }
        i = i + 1;
    }
    false
}

/// The number characters kept from a word.
pub fn clean_number(w: &Vec<char>) -> (c: Vec<char>)
    ensures
        c@ == cleaned_number(w@),
{
    let mut c: Vec<char> = Vec::new();
    let mut dot = false;
    let mut stop = false;
    let mut i: usize = 0;
    while i < w.len()
        invariant
            i <= w@.len(),
            (c@, dot, stop) == clean_scan(w@, i as int),
        decreases w@.len() - i,
    {
        let ch = w[i];
        if stop {
        } else if char_is_numeric(ch) {
            c.push(ch);
        } else if ch == '.' {
            if !dot {
                c.push(ch);
                dot = true;
            } else {
                stop = true;
            }
        } else if ch == '-' && c.len() == 0 {
            c.push(ch);
        }
        i = i + 1;
    }
    c
}

/// Whether a kept number text parses as a decimal.
pub fn parses_as_decimal(t: &Vec<char>) -> (r: bool)
    ensures
        r == decimal_parses(t@),
{
    let ghost body = decimal_body(t@);
    let start: usize = if t.len() > 0 && t[0] == '-' {
        1
    } else {
        0
    };
    assert(body.len() == t@.len() - start);
    assert(forall|k: int| 0 <= k < body.len() ==> body[k] == t@[k + start]);
    let mut seen_dot = false;
    let mut seen_digit = false;
    let mut i: usize = start;
    while i < t.len()
        invariant
            start <= i <= t@.len(),
            body == decimal_body(t@),
            body.len() == t@.len() - start,
            forall|k: int| 0 <= k < body.len() ==> body[k] == t@[k + start],
            digits_and_dots(body.take(i - start)),
            at_most_one_dot(body.take(i - start)),
            seen_dot == body.take(i - start).contains('.'),
            seen_digit == has_digit(body.take(i - start)),
        decreases t@.len() - i,
    {
        let ch = t[i];
        let ghost j = i - start;
        assert(body[j] == ch);
        let ghost pre = body.take(j);
        let ghost cur = body.take(j + 1);
        assert(cur =~= pre.push(ch));
        if ascii_digit(ch) {
            assert(ch != '.');
            seen_digit = true;
            assert(has_digit(body.take(j + 1))) by {
                assert(body.take(j + 1)[j] == ch);
            }
            assert(!pre.contains('.') ==> !body.take(j + 1).contains('.')) by {
                if body.take(j + 1).contains('.') {
                    let k = choose|k: int| 0 <= k < j + 1 && cur[k] == '.';
                    if k < j {
                        assert(pre[k] == '.');
                    }
                }
            }
            assert(pre.contains('.') ==> body.take(j + 1).contains('.')) by {
                if pre.contains('.') {
                    let k = choose|k: int| 0 <= k < j && pre[k] == '.';
                    assert(body.take(j + 1)[k] == '.');
                }
            }
        } else if ch == '.' {
            if seen_dot {
                proof {
                    let k = choose|k: int| 0 <= k < j && pre[k] == '.';
                    assert(body[k] == '.' && body[j] == '.');
                    assert(!at_most_one_dot(body));
                }
                return false;
            }
            seen_dot = true;
            assert(body.take(j + 1)[j] == '.');
            assert(has_digit(body.take(j + 1)) == has_digit(pre)) by {
                if has_digit(body.take(j + 1)) {
                    let k = choose|k: int| 0 <= k < j + 1 && is_ascii_digit(cur[k]);
                    assert(k < j);
                    assert(pre[k] == cur[k]);
                }
                if has_digit(pre) {
                    let k = choose|k: int| 0 <= k < j && is_ascii_digit(pre[k]);
                    assert(body.take(j + 1)[k] == pre[k]);
                }
            }
        } else {
            assert(!(is_ascii_digit(body[j]) || body[j] == '.'));
            assert(!digits_and_dots(body));
            return false;
        }
        i = i + 1;
    }
    assert(body.take(body.len() as int) =~= body);
    seen_digit
}

/// The number candidate of word `i`.
pub fn number_candidate(
    l: &Vec<char>,
    offs: &Vec<u64>,
    words: &Vec<Word>,
    i: usize,
    percent: &Vec<char>,
) -> (r: Option<NumberCand>)
    requires
        i < words@.len(),
        percent@ == "percent"@,
        offs@.len() == l@.len() + 1,
        forall|k: int| 0 <= k <= l@.len() ==> #[trigger] offs@[k] == byte_offset(l@, k),
        forall|j: int| 0 <= j < words@.len() ==> #[trigger] words@[j].start < words@[j].end <= l@.len(),
    ensures
        r matches Some(c) ==> c.start == offs@[words@[i as int].start as int],
        match r {
            Some(c) => number_candidate_at(l@, spans_of(words@), i as int) == Some(c@),
            None => number_candidate_at(l@, spans_of(words@), i as int) is None,
        },
{
    let ghost spans = spans_of(words@);
    let wd = words[i];
    let w = sub_chars(l, wd.start, wd.end);
    assert(w@ == word_text(l@, spans[i as int]));
    if contains_char(&w, '-') || contains_char(&w, '/') || contains_letter(&w) {
        return None;
    }
    let mut has_percent = contains_char(&w, '%');
    if !has_percent && words.len() - i > 1 {
        let nx = words[i + 1];
        let next = sub_chars(l, nx.start, nx.end);
        assert(next@ == word_text(l@, spans[i + 1]));
        let pct: Vec<char> = vec!['%'];
        assert(pct@ =~= seq!['%']);
        if starts_with_chars(&next, percent) || starts_with_chars(&next, &pct) {
            has_percent = true;
        }
    }
    let mut c = clean_number(&w);
    if c.len() == 0 || (c.len() == 1 && (c[0] == '.' || c[0] == '-')) {
        proof {
            if c@.len() == 1 {
                if c@[0] == '.' {
                    assert(c@ =~= seq!['.']);
                } else {
                    assert(c@ =~= seq!['-']);
                }
            }
        }
        return None;
    }
    assert(c@ != seq!['.'] && c@ != seq!['-']) by {
        if c@.len() == 1 {
            assert(seq!['.'][0] == '.');
            assert(seq!['-'][0] == '-');
        }
    }
    if c[c.len() - 1] == '.' {
        c.pop();
    }
    if !parses_as_decimal(&c) {
        return None;
    }
    let is_integer = !contains_char(&c, '.');
    Some(
        NumberCand {
            text: c,
            start: offs[wd.start],
            end: offs[wd.end],
            has_percent,
            is_integer,
        },
    )
}

/// The number candidates of the words, in word order.
pub fn find_number_candidates(l: &Vec<char>, offs: &Vec<u64>, words: &Vec<Word>) -> (out: Vec<
    NumberCand,
>)
    requires
        forall|k: int| 0 <= k < offs@.len() ==> #[trigger] offs@[k] <= MAX_TEXT_LEN,
        offs@.len() == l@.len() + 1,
        forall|k: int| 0 <= k <= l@.len() ==> #[trigger] offs@[k] == byte_offset(l@, k),
        forall|j: int| 0 <= j < words@.len() ==> #[trigger] words@[j].start < words@[j].end <= l@.len(),
    ensures
        number_views(out@) == number_candidates_upto(l@, spans_of(words@), words@.len() as int),
        forall|j: int| 0 <= j < out@.len() ==> #[trigger] out@[j].start <= MAX_TEXT_LEN,
{
    let percent = crate::text::str_chars("percent");
    let mut out: Vec<NumberCand> = Vec::new();
    let mut i: usize = 0;
    while i < words.len()
        invariant
            i <= words@.len(),
            percent@ == "percent"@,
            offs@.len() == l@.len() + 1,
            forall|k: int| 0 <= k <= l@.len() ==> #[trigger] offs@[k] == byte_offset(l@, k),
            forall|j: int|
                0 <= j < words@.len() ==> #[trigger] words@[j].start < words@[j].end <= l@.len(),
            number_views(out@) == number_candidates_upto(l@, spans_of(words@), i as int),
            forall|k: int| 0 <= k < offs@.len() ==> #[trigger] offs@[k] <= MAX_TEXT_LEN,
            forall|j: int| 0 <= j < out@.len() ==> #[trigger] out@[j].start <= MAX_TEXT_LEN,
        decreases words@.len() - i,
    {
        let ghost before = number_views(out@);
        match number_candidate(l, offs, words, i, &percent) {
            Some(c) => {
                let ghost prev = out@;
                out.push(c);
                assert(number_views(out@) =~= before.push(c@));
                assert(forall|j: int| 0 <= j < prev.len() ==> out@[j] == prev[j]);
            },
            None => {},
        }
        i = i + 1;
    }
    out
}

/// A number word followed by a word that begins with `percent` or `%` is
/// a percentage: its candidate, if it gives one, is marked so.
pub proof fn lemma_percent_word_marks_number(l: Seq<char>, spans: Seq<(int, int)>, i: int)
    requires
        0 <= i,
        i + 1 < spans.len(),
        l.subrange(spans[i + 1].0, spans[i + 1].1).len() >= 1,
        ({
            let next = l.subrange(spans[i + 1].0, spans[i + 1].1);
            (next.len() >= 7 && next.subrange(0, 7) == "percent"@) || next[0] == '%'
        }),
    ensures
        number_candidate_at(l, spans, i) matches Some(c) ==> c.has_percent,
{
    let next = l.subrange(spans[i + 1].0, spans[i + 1].1);
    reveal_strlit("percent");
    if next[0] == '%' {
        assert(next.subrange(0, 1) =~= seq!['%']);
        assert(starts_with(word_text(l, spans[i + 1]), seq!['%']));
    } else {
        assert(starts_with(word_text(l, spans[i + 1]), "percent"@));
    }
}

/// A word holding a `%` gives, if anything, a percentage candidate.
pub proof fn lemma_percent_sign_marks_number(l: Seq<char>, spans: Seq<(int, int)>, i: int, k: int)
    requires
        0 <= i < spans.len(),
        spans[i].0 <= k < spans[i].1,
        l[k] == '%',
        0 <= spans[i].0 <= spans[i].1 <= l.len(),
    ensures
        number_candidate_at(l, spans, i) matches Some(c) ==> c.has_percent,
{
    let w = word_text(l, spans[i]);
    assert(w[k - spans[i].0] == '%');
    assert(w.contains('%'));
}

} // verus!
