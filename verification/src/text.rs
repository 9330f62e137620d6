//! Character-level text utilities over `Seq<char>`.
//!
//! Positions are character indices unless a name says otherwise; byte
//! offsets (as `str` reports them) are derived from the UTF-8 width of
//! each character.
use vstd::prelude::*;

verus! {

broadcast use vstd::string::group_string_axioms;

/// What `char::is_whitespace` answers for a non-ASCII character (the
/// Unicode `White_Space` property).
pub uninterp spec fn unicode_whitespace(c: char) -> bool;

/// What `char::is_alphanumeric` answers for a non-ASCII character.
pub uninterp spec fn unicode_alphanumeric(c: char) -> bool;

/// What `char::is_alphabetic` answers for a non-ASCII character.
pub uninterp spec fn unicode_alphabetic(c: char) -> bool;

/// What `char::is_numeric` answers for a non-ASCII character.
pub uninterp spec fn unicode_numeric(c: char) -> bool;

/// What `str::to_lowercase` returns for a text that is not all ASCII.
pub uninterp spec fn unicode_lowercase(s: Seq<char>) -> Seq<char>;

/// What `char::is_whitespace` answers: among ASCII characters the space
/// and U+0009 to U+000D.
pub open spec fn is_whitespace_char(c: char) -> bool {
    if is_ascii_char(c) {
        is_ascii_ws(c)
    } else {
        unicode_whitespace(c)
    }
}

/// What `char::is_alphanumeric` answers: among ASCII characters the
/// letters and digits.
pub open spec fn is_alphanumeric_char(c: char) -> bool {
    if is_ascii_char(c) {
        is_ascii_letter(c) || ('0' <= c && c <= '9')
    } else {
        unicode_alphanumeric(c)
    }
}

/// What `char::is_alphabetic` answers: among ASCII characters the letters.
pub open spec fn is_alphabetic_char(c: char) -> bool {
    if is_ascii_char(c) {
        is_ascii_letter(c)
    } else {
        unicode_alphabetic(c)
    }
}

/// What `char::is_numeric` answers: among ASCII characters `0` to `9`.
pub open spec fn is_numeric_char(c: char) -> bool {
    if is_ascii_char(c) {
        '0' <= c && c <= '9'
    } else {
        unicode_numeric(c)
    }
}

/// What `str::to_lowercase` returns for a string's characters: on ASCII
/// text, `A` to `Z` become `a` to `z` and every other character stays.
pub open spec fn lowercase_of(s: Seq<char>) -> Seq<char> {
    if is_ascii_text(s) {
        ascii_lowercase(s)
    } else {
        unicode_lowercase(s)
    }
}

/// An ASCII character.
pub open spec fn is_ascii_char(c: char) -> bool {
    (c as u32) < 128
}

/// Every character of `s` is ASCII.
pub open spec fn is_ascii_text(s: Seq<char>) -> bool {
    forall|i: int| 0 <= i < s.len() ==> is_ascii_char(#[trigger] s[i])
}

/// An ASCII letter.
pub open spec fn is_ascii_letter(c: char) -> bool {
    ('a' <= c && c <= 'z') || ('A' <= c && c <= 'Z')
}

/// The lowercase of an ASCII character: `A` to `Z` become `a` to `z`,
/// every other character stays.
pub open spec fn ascii_lower_char(c: char) -> char {
    if 'A' <= c && c <= 'Z' {
        ((c as u32) + 32) as char
    } else {
        c
    }
}

/// The lowercase of an ASCII text, character by character.
pub open spec fn ascii_lowercase(s: Seq<char>) -> Seq<char> {
    s.map_values(|c: char| ascii_lower_char(c))
}

/// Calls `char::is_whitespace`: on ASCII characters the answer is
/// stated, on others it is the name `unicode_whitespace`.
#[verifier::external_body]
pub(crate) fn char_is_whitespace(c: char) -> (r: bool)
    ensures
        r == is_whitespace_char(c),
        !is_ascii_char(c) ==> r == unicode_whitespace(c),
{
    c.is_whitespace()
}

/// Calls `char::is_alphanumeric`: on ASCII characters the answer is
/// stated, on others it is the name `unicode_alphanumeric`.
#[verifier::external_body]
pub(crate) fn char_is_alphanumeric(c: char) -> (r: bool)
    ensures
        r == is_alphanumeric_char(c),
        !is_ascii_char(c) ==> r == unicode_alphanumeric(c),
{
    c.is_alphanumeric()
}

/// Calls `char::is_alphabetic`: on ASCII characters the answer is stated,
/// on others it is the name `unicode_alphabetic`.
#[verifier::external_body]
pub(crate) fn char_is_alphabetic(c: char) -> (r: bool)
    ensures
        r == is_alphabetic_char(c),
        !is_ascii_char(c) ==> r == unicode_alphabetic(c),
{
    c.is_alphabetic()
}

/// Calls `char::is_numeric`: on ASCII characters the answer is stated, on
/// others it is the name `unicode_numeric`.
#[verifier::external_body]
pub(crate) fn char_is_numeric(c: char) -> (r: bool)
    ensures
        r == is_numeric_char(c),
        !is_ascii_char(c) ==> r == unicode_numeric(c),
{
    c.is_numeric()
}

/// Calls `str::to_lowercase`: on ASCII text the result is stated, on other
/// text it is the name `unicode_lowercase`. Every character lowercases to
/// one or more characters, so a non-empty text stays non-empty.
#[verifier::external_body]
pub(crate) fn to_lowercase(s: &str) -> (r: String)
    ensures
        r@ == lowercase_of(s@),
        !is_ascii_text(s@) ==> r@ == unicode_lowercase(s@),
        s@.len() > 0 ==> r@.len() > 0,
{
    s.to_lowercase()
}

/// Collects characters into a `String` (`FromIterator<&char>`), which
/// holds exactly those characters.
#[verifier::external_body]
pub(crate) fn chars_to_string(v: &Vec<char>) -> (r: String)
    ensures
        r@ == v@,
{
    v.iter().collect()
}

/// The characters of a string slice, in order.
pub fn str_chars(s: &str) -> (out: Vec<char>)
    ensures
        out@ == s@,
{
    let mut out: Vec<char> = Vec::new();
    for c in it: s.chars()
        invariant
            out@ == it.seq().take(it.index() as int),
            it.seq() == s@,
    {
        out.push(c);
    }
    out
}

/// The lowercase form of a string, as characters.
pub fn lowercase_chars(s: &str) -> (out: Vec<char>)
    ensures
        out@ == lowercase_of(s@),
        is_ascii_text(s@) ==> out@ == ascii_lowercase(s@),
        s@.len() > 0 ==> out@.len() > 0,
{
    let l = to_lowercase(s);
    str_chars(l.as_str())
}

/// A copy of `v[lo..hi]`.
pub fn sub_chars(v: &Vec<char>, lo: usize, hi: usize) -> (out: Vec<char>)
    requires
        lo <= hi <= v@.len(),
    ensures
        out@ == v@.subrange(lo as int, hi as int),
{
    let mut out: Vec<char> = Vec::new();
    let mut i = lo;
    while i < hi
        invariant
            lo <= i <= hi <= v@.len(),
            out@ == v@.subrange(lo as int, i as int),
        decreases hi - i,
    {
        out.push(v[i]);
        i = i + 1;
    }
    out
}

/// Whether two character sequences are equal.
pub fn chars_eq(a: &Vec<char>, b: &Vec<char>) -> (r: bool)
    ensures
        r == (a@ == b@),
{
    if a.len() != b.len() {
        return false;
    }
    let mut i: usize = 0;
    while i < a.len()
        invariant
            a@.len() == b@.len(),
            i <= a@.len(),
            forall|j: int| 0 <= j < i ==> a@[j] == b@[j],
        decreases a@.len() - i,
    {
        if a[i] != b[i] {
            return false;
        }
        i = i + 1;
    }
    assert(a@ =~= b@);
    true
}

// ---------------------------------------------------------------------
// Substring search

/// `n` occurs in `h` starting at character `k`.
pub open spec fn matches_at(h: Seq<char>, n: Seq<char>, k: int) -> bool {
    0 <= k && k + n.len() <= h.len() && h.subrange(k, k + n.len()) == n
}

/// The first position at or after `from` where `n` occurs in `h`.
pub open spec fn first_match_from(h: Seq<char>, n: Seq<char>, from: int) -> Option<int>
    decreases h.len() - from,
{
    if from < 0 || from + n.len() > h.len() {
        None
    } else if n.len() == 0 || matches_at(h, n, from) {
        Some(from)
    } else {
        first_match_from(h, n, from + 1)
    }
}

/// `h` contains `n` as a contiguous substring.
pub open spec fn contains_seq(h: Seq<char>, n: Seq<char>) -> bool {
    exists|k: int| matches_at(h, n, k)
}

/// `h` begins with `n`.
pub open spec fn starts_with(h: Seq<char>, n: Seq<char>) -> bool {
    n.len() <= h.len() && h.subrange(0, n.len() as int) == n
}

/// `h` ends with `n`.
pub open spec fn ends_with(h: Seq<char>, n: Seq<char>) -> bool {
    n.len() <= h.len() && h.subrange(h.len() - n.len(), h.len() as int) == n
}

/// The positions of the non-overlapping occurrences of `n` in `h` found
/// scanning left to right from `from`: after a match at `k` the search
/// resumes at `k + n.len()`.
pub open spec fn occurrences_from(h: Seq<char>, n: Seq<char>, from: int) -> Seq<int>
    decreases h.len() - from,
{
    if n.len() == 0 || from < 0 || from > h.len() {
        seq![]
    } else {
        match first_match_from(h, n, from) {
            Some(k) => if from <= k && k + n.len() <= h.len() {
                seq![k] + occurrences_from(h, n, k + n.len())
            } else {
                seq![]
            },
            None => seq![],
        }
    }
}

/// All non-overlapping occurrences of `n` in `h`, left to right.
pub open spec fn occurrences(h: Seq<char>, n: Seq<char>) -> Seq<int> {
    occurrences_from(h, n, 0)
}

/// Every occurrence found from `from` is a match of `n` in `h`.
pub proof fn lemma_occurrences_match(h: Seq<char>, n: Seq<char>, from: int)
    ensures
        forall|i: int| 0 <= i < occurrences_from(h, n, from).len() ==> matches_at(h, n, #[trigger] occurrences_from(h, n, from)[i]),
    decreases h.len() - from,
{
    if n.len() == 0 || from < 0 || from > h.len() {
    } else {
        lemma_first_match_bounds(h, n, from);
        match first_match_from(h, n, from) {
            Some(k) => if from <= k && k + n.len() <= h.len() {
                lemma_occurrences_match(h, n, k + n.len());
                let rest = occurrences_from(h, n, k + n.len());
                assert(occurrences_from(h, n, from) == seq![k] + rest);
                assert forall|i: int| 0 <= i < occurrences_from(h, n, from).len() implies matches_at(h, n, #[trigger] occurrences_from(h, n, from)[i]) by {
                    if i > 0 {
                        assert(occurrences_from(h, n, from)[i] == rest[i - 1]);
                    }
                }
            },
            None => {},
        }
    }
}

/// Every occurrence found from `from` lies at or after `from`, inside `h`.
pub proof fn lemma_occurrences_inside(h: Seq<char>, n: Seq<char>, from: int)
    ensures
        forall|i: int| 0 <= i < occurrences_from(h, n, from).len() ==> from <= #[trigger] occurrences_from(h, n, from)[i]
            && occurrences_from(h, n, from)[i] + n.len() <= h.len(),
    decreases h.len() - from,
{
    if n.len() == 0 || from < 0 || from > h.len() {
    } else {
        lemma_first_match_bounds(h, n, from);
        match first_match_from(h, n, from) {
            Some(k) => if from <= k && k + n.len() <= h.len() {
                lemma_occurrences_inside(h, n, k + n.len());
                let rest = occurrences_from(h, n, k + n.len());
                assert(occurrences_from(h, n, from) == seq![k] + rest);
                assert forall|i: int| 0 <= i < occurrences_from(h, n, from).len() implies from
                    <= #[trigger] occurrences_from(h, n, from)[i] && occurrences_from(h, n, from)[i] + n.len() <= h.len() by {
                    if i > 0 {
                        assert(occurrences_from(h, n, from)[i] == rest[i - 1]);
                    }
                }
            },
            None => {},
        }
    }
}

/// A found match lies at or after `from` and inside `h`.
pub proof fn lemma_first_match_bounds(h: Seq<char>, n: Seq<char>, from: int)
    ensures
        first_match_from(h, n, from) matches Some(k) ==> from <= k && k + n.len() <= h.len()
            && matches_at(h, n, k),
        first_match_from(h, n, from) is None && 0 <= from ==> forall|k: int|
            from <= k ==> !#[trigger] matches_at(h, n, k),
    decreases h.len() - from,
{
    if from < 0 || from + n.len() > h.len() {
    } else if n.len() == 0 || matches_at(h, n, from) {
        if n.len() == 0 {
            assert(h.subrange(from, from + n.len()) =~= n);
        }
    } else {
        lemma_first_match_bounds(h, n, from + 1);
    }
}

/// Whether `n` occurs in `h` at `k`.
pub fn match_at(h: &Vec<char>, n: &Vec<char>, k: usize) -> (r: bool)
    ensures
        r == matches_at(h@, n@, k as int),
{
    if n.len() > h.len() || k > h.len() - n.len() {
        return false;
    }
    let hl = h.len();
    let mut j: usize = 0;
    while j < n.len()
        invariant
            hl == h@.len(),
            k + n@.len() <= h@.len(),
            j <= n@.len(),
            forall|i: int| 0 <= i < j ==> h@[k + i] == n@[i],
        decreases n@.len() - j,
    {
        if h[k + j] != n[j] {
            assert(h@.subrange(k as int, k + n@.len())[j as int] != n@[j as int]);
            return false;
        }
        j = j + 1;
    }
    assert(h@.subrange(k as int, k + n@.len()) =~= n@);
    true
}

/// The first occurrence of `n` in `h` at or after `from`.
pub fn find_from(h: &Vec<char>, n: &Vec<char>, from: usize) -> (r: Option<usize>)
    ensures
        r matches Some(k) ==> first_match_from(h@, n@, from as int) == Some(k as int),
        r is None ==> first_match_from(h@, n@, from as int) is None,
{
    if n.len() > h.len() || from > h.len() - n.len() {
        return None;
    }
    let mut k = from;
    while k <= h.len() - n.len()
        invariant
            n@.len() <= h@.len(),
            from <= k,
            first_match_from(h@, n@, from as int) == first_match_from(h@, n@, k as int),
        decreases h@.len() - k,
    {
        if n.len() == 0 || match_at(h, n, k) {
            return Some(k);
        }
        k = k + 1;
    }
    None
}

/// Whether `n` occurs anywhere in `h`.
pub fn contains_chars(h: &Vec<char>, n: &Vec<char>) -> (r: bool)
    ensures
        r == contains_seq(h@, n@),
{
    let r = find_from(h, n, 0);
    proof {
        lemma_first_match_bounds(h@, n@, 0);
    }
    match r {
        Some(_) => true,
        None => {
            assert forall|k: int| !matches_at(h@, n@, k) by {
                if 0 <= k {
                    assert(!matches_at(h@, n@, k));
                }
            }
            false
        },
    }
}

/// Whether `h` begins with `n`.
pub fn starts_with_chars(h: &Vec<char>, n: &Vec<char>) -> (r: bool)
    ensures
        r == starts_with(h@, n@),
{
    let r = match_at(h, n, 0);
    proof {
        if n@.len() <= h@.len() {
            assert(h@.subrange(0, n@.len() as int) == h@.subrange(0int, 0int + n@.len()));
        }
    }
    r
}

/// Whether `h` ends with `n`.
pub fn ends_with_chars(h: &Vec<char>, n: &Vec<char>) -> (r: bool)
    ensures
        r == ends_with(h@, n@),
{
    if n.len() > h.len() {
        return false;
    }
    let k = h.len() - n.len();
    let r = match_at(h, n, k);
    assert(h@.subrange(k as int, k + n@.len()) == h@.subrange(h@.len() - n@.len(), h@.len() as int));
    r
}

/// Whether character `c` occurs in `h`.
pub fn contains_char(h: &Vec<char>, c: char) -> (r: bool)
    ensures
        r == h@.contains(c),
{
    let mut i: usize = 0;
    while i < h.len()
        invariant
            i <= h@.len(),
            forall|j: int| 0 <= j < i ==> h@[j] != c,
        decreases h@.len() - i,
    {
        if h[i] == c {
            return true;
        }
        i = i + 1;
    }
    false
}

/// The positions of all non-overlapping occurrences of `n` in `h`.
pub fn occurrence_positions(h: &Vec<char>, n: &Vec<char>) -> (out: Vec<usize>)
    requires
        n@.len() > 0,
    ensures
        out@.map_values(|x: usize| x as int) == occurrences(h@, n@),
        forall|i: int| 0 <= i < out@.len() ==> out@[i] + n@.len() <= h@.len(),
{
    let hl = h.len();
    let mut out: Vec<usize> = Vec::new();
    let mut start: usize = 0;
    loop
        invariant
            hl == h@.len(),
            n@.len() > 0,
            start <= h@.len(),
            forall|i: int| 0 <= i < out@.len() ==> out@[i] + n@.len() <= h@.len(),
            out@.map_values(|x: usize| x as int) + occurrences_from(h@, n@, start as int)
                == occurrences(h@, n@),
        decreases h@.len() - start,
    {
        let r = find_from(h, n, start);
        proof {
            lemma_first_match_bounds(h@, n@, start as int);
        }
        match r {
            Some(k) => {
                let ghost before = out@.map_values(|x: usize| x as int);
                out.push(k);
                assert(out@.map_values(|x: usize| x as int) =~= before.push(k as int));
                assert(occurrences_from(h@, n@, start as int) == seq![k as int]
                    + occurrences_from(h@, n@, k + n@.len()));
                assert(before + occurrences_from(h@, n@, start as int) =~= before.push(k as int)
                    + occurrences_from(h@, n@, k + n@.len()));
                start = k + n.len();
            },
            None => {
                assert(occurrences_from(h@, n@, start as int) =~= Seq::<int>::empty());
                assert(out@.map_values(|x: usize| x as int) + Seq::<int>::empty()
                    =~= out@.map_values(|x: usize| x as int));
                return out;
            },
        }
    }
}


// ---------------------------------------------------------------------
// Trimming and splitting

/// `s` without its leading whitespace.
pub open spec fn trim_start(s: Seq<char>) -> Seq<char>
    decreases s.len(),
{
    if s.len() > 0 && is_whitespace_char(s[0]) {
        trim_start(s.drop_first())
    } else {
        s
    }
}

/// `s` without its trailing whitespace.
pub open spec fn trim_end(s: Seq<char>) -> Seq<char>
    decreases s.len(),
{
    if s.len() > 0 && is_whitespace_char(s.last()) {
        trim_end(s.drop_last())
    } else {
        s
    }
}

/// `s` without leading and trailing whitespace (`str::trim`).
pub open spec fn trim(s: Seq<char>) -> Seq<char> {
    trim_end(trim_start(s))
}

proof fn lemma_trim_start_first(s: Seq<char>)
    ensures
        trim_start(s).len() > 0 ==> !is_whitespace_char(trim_start(s)[0]),
    decreases s.len(),
{
    if s.len() > 0 && is_whitespace_char(s[0]) {
        lemma_trim_start_first(s.drop_first());
    }
}

proof fn lemma_trim_end_prefix(s: Seq<char>)
    ensures
        trim_end(s).len() <= s.len(),
        trim_end(s) == s.subrange(0, trim_end(s).len() as int),
        trim_end(s).len() > 0 ==> !is_whitespace_char(trim_end(s).last()),
    decreases s.len(),
{
    if s.len() > 0 && is_whitespace_char(s.last()) {
        lemma_trim_end_prefix(s.drop_last());
        assert(s.drop_last().subrange(0, trim_end(s).len() as int) =~= s.subrange(0, trim_end(s).len() as int));
    } else {
        assert(s.subrange(0, s.len() as int) =~= s);
    }
}

/// What trimming the start leaves is a suffix.
proof fn lemma_trim_start_suffix(s: Seq<char>)
    ensures
        trim_start(s).len() <= s.len(),
        trim_start(s) == s.subrange(s.len() - trim_start(s).len(), s.len() as int),
    decreases s.len(),
{
    if s.len() > 0 && is_whitespace_char(s[0]) {
        lemma_trim_start_suffix(s.drop_first());
        assert(s.drop_first().subrange(s.drop_first().len() - trim_start(s).len(), s.drop_first().len() as int)
            =~= s.subrange(s.len() - trim_start(s).len(), s.len() as int));
    } else {
        assert(s.subrange(0, s.len() as int) =~= s);
    }
}

/// A trimmed non-empty text begins and ends with non-whitespace.
pub proof fn lemma_trimmed_ends(s: Seq<char>)
    requires
        trim(s) == s,
        s.len() > 0,
    ensures
        !is_whitespace_char(s[0]),
        !is_whitespace_char(s.last()),
{
    let t = trim_start(s);
    lemma_trim_start_suffix(s);
    lemma_trim_end_prefix(t);
    lemma_trim_start_first(s);
    assert(t.len() == s.len());
    assert(t =~= s);
}

/// Trimming a trimmed text changes nothing.
pub proof fn lemma_trim_idempotent(s: Seq<char>)
    ensures
        trim(trim(s)) == trim(s),
{
    let t = trim_start(s);
    let u = trim_end(t);
    lemma_trim_start_first(s);
    lemma_trim_end_prefix(t);
    if u.len() > 0 {
        assert(u[0] == t[0]);
    }
    assert(trim_start(u) == u);
    assert(trim_end(u) == u);
}

proof fn lemma_trim_start_skip(s: Seq<char>, i: int)
    requires
        0 <= i <= s.len(),
        forall|j: int| 0 <= j < i ==> is_whitespace_char(#[trigger] s[j]),
    ensures
        trim_start(s) == trim_start(s.subrange(i, s.len() as int)),
    decreases i,
{
    if i > 0 {
        assert(s.drop_first().subrange(i - 1, s.drop_first().len() as int) =~= s.subrange(
            i,
            s.len() as int,
        ));
        lemma_trim_start_skip(s.drop_first(), i - 1);
    } else {
        assert(s.subrange(0, s.len() as int) =~= s);
    }
}

proof fn lemma_trim_end_skip(s: Seq<char>, i: int)
    requires
        0 <= i <= s.len(),
        forall|j: int| i <= j < s.len() ==> is_whitespace_char(#[trigger] s[j]),
    ensures
        trim_end(s) == trim_end(s.subrange(0, i)),
    decreases s.len() - i,
{
    if i < s.len() {
        assert(s.drop_last().subrange(0, i) =~= s.subrange(0, i));
        lemma_trim_end_skip(s.drop_last(), i);
    } else {
        assert(s.subrange(0, i) =~= s);
    }
}

/// An ASCII `White_Space` character: space, or tab to carriage return.
pub open spec fn is_ascii_ws(c: char) -> bool {
    c == ' ' || ('\t' <= c && c <= '\r')
}

/// `str::trim` on characters.
pub fn trim_chars(s: &Vec<char>) -> (out: Vec<char>)
    ensures
        out@ == trim(s@),
{
    let n = s.len();
    let mut lo: usize = 0;
    while lo < n && char_is_whitespace(s[lo])
        invariant
            n == s@.len(),
            lo <= n,
            forall|j: int| 0 <= j < lo ==> is_whitespace_char(#[trigger] s@[j]),
        decreases n - lo,
    {
        lo = lo + 1;
    }
    proof {
        lemma_trim_start_skip(s@, lo as int);
    }
    let ghost rest = s@.subrange(lo as int, n as int);
    assert(trim_start(rest) == rest);
    let mut hi: usize = n;
    while hi > lo && char_is_whitespace(s[hi - 1])
        invariant
            n == s@.len(),
            lo <= hi <= n,
            rest == s@.subrange(lo as int, n as int),
            forall|j: int| hi <= j < n ==> is_whitespace_char(#[trigger] s@[j]),
        decreases hi,
    {
        hi = hi - 1;
    }
    proof {
        assert forall|j: int| hi - lo <= j < rest.len() implies is_whitespace_char(
            #[trigger] rest[j],
        ) by {
            assert(rest[j] == s@[lo + j]);
        }
        lemma_trim_end_skip(rest, hi - lo);
        assert(rest.subrange(0, hi - lo) =~= s@.subrange(lo as int, hi as int));
    }
    sub_chars(s, lo, hi)
}

/// Which characters separate the pieces of a split.
#[derive(Debug, Clone, Copy, PartialEq, Eq, Structural)]
pub enum Separator {
    /// `_`, `-` or whitespace: the delimiters of a field name's words.
    NamePart,
    /// Any character that is not alphanumeric.
    NonAlphanumeric,
}

/// Whether `c` separates pieces under `kind`.
pub open spec fn is_separator(kind: Separator, c: char) -> bool {
    match kind {
        Separator::NamePart => c == '_' || c == '-' || is_whitespace_char(c),
        Separator::NonAlphanumeric => !is_alphanumeric_char(c),
    }
}

/// The pieces of `s` between separators (`str::split` with a predicate):
/// `n` separators give `n + 1` pieces, empty ones included.
pub open spec fn split_pieces(s: Seq<char>, kind: Separator) -> Seq<Seq<char>>
    decreases s.len(),
{
    if s.len() == 0 {
        seq![Seq::<char>::empty()]
    } else {
        let p = split_pieces(s.drop_last(), kind);
        if is_separator(kind, s.last()) {
            p.push(Seq::<char>::empty())
        } else {
            p.update(p.len() - 1, p.last().push(s.last()))
        }
    }
}

proof fn lemma_split_pieces_nonempty(s: Seq<char>, kind: Separator)
    ensures
        split_pieces(s, kind).len() >= 1,
    decreases s.len(),
{
    if s.len() > 0 {
        lemma_split_pieces_nonempty(s.drop_last(), kind);
    }
}

/// Whether `c` separates pieces under `kind`.
pub fn separates(kind: Separator, c: char) -> (r: bool)
    ensures
        r == is_separator(kind, c),
{
    match kind {
        Separator::NamePart => c == '_' || c == '-' || char_is_whitespace(c),
        Separator::NonAlphanumeric => !char_is_alphanumeric(c),
    }
}

/// The character sequences held by a vector of character vectors.
pub open spec fn views_of(v: Seq<Vec<char>>) -> Seq<Seq<char>> {
    v.map_values(|x: Vec<char>| x@)
}

/// `str::split` by the separators of `kind`.
pub fn split_chars(s: &Vec<char>, kind: Separator) -> (out: Vec<Vec<char>>)
    ensures
        views_of(out@) == split_pieces(s@, kind),
{
    let mut done: Vec<Vec<char>> = Vec::new();
    let mut cur: Vec<char> = Vec::new();
    let mut i: usize = 0;
    assert(s@.take(0) =~= Seq::<char>::empty());
    assert(views_of(done@).push(cur@) =~= split_pieces(s@.take(0), kind));
    while i < s.len()
        invariant
            i <= s@.len(),
            views_of(done@).push(cur@) == split_pieces(s@.take(i as int), kind),
        decreases s@.len() - i,
    {
        let c = s[i];
        let ghost prev = views_of(done@).push(cur@);
        assert(s@.take(i + 1).drop_last() =~= s@.take(i as int));
        assert(s@.take(i + 1).last() == c);
        if separates(kind, c) {
            let piece = cur;
            let ghost before = views_of(done@);
            done.push(piece);
            assert(views_of(done@) =~= before.push(piece@));
            cur = Vec::new();
            assert(views_of(done@).push(cur@) =~= prev.push(Seq::<char>::empty()));
        } else {
            cur.push(c);
            assert(views_of(done@).push(cur@) =~= prev.update(
                prev.len() - 1,
                prev.last().push(c),
            ));
        }
        i = i + 1;
    }
    assert(s@.take(s@.len() as int) =~= s@);
    let ghost prev = views_of(done@);
    done.push(cur);
    assert(views_of(done@) =~= prev.push(cur@));
    done
}

// ---------------------------------------------------------------------
// UTF-8 byte offsets

/// The number of bytes of `c` in UTF-8 (`char::len_utf8`).
pub open spec fn utf8_width(c: char) -> nat {
    if (c as u32) < 0x80 {
        1
    } else if (c as u32) < 0x800 {
        2
    } else if (c as u32) < 0x10000 {
        3
    } else {
        4
    }
}

/// The number of bytes of `s` in UTF-8 (`str::len`).
pub open spec fn bytes_len(s: Seq<char>) -> nat
    decreases s.len(),
{
    if s.len() == 0 {
        0
    } else {
        bytes_len(s.drop_last()) + utf8_width(s.last())
    }
}

/// The byte offset at which character `k` of `s` begins.
pub open spec fn byte_offset(s: Seq<char>, k: int) -> nat {
    bytes_len(s.take(k))
}

/// The most bytes a string can hold: an allocation never exceeds
/// `isize::MAX` bytes, which is at most this on every target.
pub const MAX_TEXT_LEN: u64 = 9223372036854775807;

/// An ASCII text takes one byte per character.
pub proof fn lemma_ascii_bytes_len(s: Seq<char>)
    requires
        is_ascii_text(s),
    ensures
        bytes_len(s) == s.len(),
    decreases s.len(),
{
    if s.len() > 0 {
        assert(is_ascii_char(s[s.len() - 1]));
        assert(is_ascii_text(s.drop_last())) by {
            assert forall|i: int| 0 <= i < s.drop_last().len() implies is_ascii_char(#[trigger] s.drop_last()[i]) by {
                assert(s.drop_last()[i] == s[i]);
            }
        }
        lemma_ascii_bytes_len(s.drop_last());
    }
}

/// In an ASCII text, character `k` begins at byte `k`.
pub proof fn lemma_ascii_byte_offset(s: Seq<char>, k: int)
    requires
        is_ascii_text(s),
        0 <= k <= s.len(),
    ensures
        byte_offset(s, k) == k,
{
    assert(is_ascii_text(s.take(k))) by {
        assert forall|i: int| 0 <= i < s.take(k).len() implies is_ascii_char(#[trigger] s.take(k)[i]) by {
            assert(s.take(k)[i] == s[i]);
        }
    }
    lemma_ascii_bytes_len(s.take(k));
}

/// The ASCII lowercase of an ASCII text is ASCII and as long.
pub proof fn lemma_ascii_lowercase_ascii(s: Seq<char>)
    requires
        is_ascii_text(s),
    ensures
        is_ascii_text(ascii_lowercase(s)),
        ascii_lowercase(s).len() == s.len(),
{
    assert forall|i: int| 0 <= i < ascii_lowercase(s).len() implies is_ascii_char(#[trigger] ascii_lowercase(s)[i]) by {
        let c = s[i];
        assert(is_ascii_char(c));
        assert(ascii_lowercase(s)[i] == ascii_lower_char(c));
        if 'A' <= c && c <= 'Z' {
            let u = (c as u32) + 32;
            assert(97 <= u <= 122);
            assert((u as char) as u32 == u);
        }
    }
}

/// The UTF-8 width of one character.
pub fn char_width(c: char) -> (w: u64)
    ensures
        w == utf8_width(c),
{
    let u = c as u32;
    if u < 0x80 {
        1
    } else if u < 0x800 {
        2
    } else if u < 0x10000 {
        3
    } else {
        4
    }
}

/// Byte offsets only grow along a text.
pub proof fn lemma_byte_offset_monotone(s: Seq<char>, j: int, k: int)
    requires
        0 <= j <= k <= s.len(),
    ensures
        byte_offset(s, j) <= byte_offset(s, k),
        j < k ==> byte_offset(s, j) < byte_offset(s, k),
    decreases k - j,
{
    if j < k {
        lemma_byte_offset_monotone(s, j, k - 1);
        assert(s.take(k).drop_last() =~= s.take(k - 1));
    }
}

/// The byte length of `s` if it is at most `cap`.
pub fn bytes_len_capped(s: &Vec<char>, cap: u64) -> (r: Option<u64>)
    ensures
        r matches Some(b) ==> b == bytes_len(s@) && b <= cap,
        r is None ==> bytes_len(s@) > cap,
{
    let mut total: u64 = 0;
    let mut i: usize = 0;
    while i < s.len()
        invariant
            i <= s@.len(),
            total == bytes_len(s@.take(i as int)),
            total <= cap,
        decreases s@.len() - i,
    {
        assert(s@.take(i + 1).drop_last() =~= s@.take(i as int));
        let w = char_width(s[i]);
        if w > cap - total {
            proof {
                lemma_byte_offset_monotone(s@, i + 1, s@.len() as int);
                assert(s@.take(s@.len() as int) =~= s@);
            }
            return None;
        }
        total = total + w;
        i = i + 1;
    }
    assert(s@.take(s@.len() as int) =~= s@);
    Some(total)
}

/// The byte offset of every character boundary of `s`: `out[k]` is where
/// character `k` begins, and `out[s.len()]` is the byte length.
pub fn byte_offsets(s: &Vec<char>) -> (out: Vec<u64>)
    requires
        bytes_len(s@) <= u64::MAX,
    ensures
        out@.len() == s@.len() + 1,
        forall|k: int| 0 <= k <= s@.len() ==> #[trigger] out@[k] == byte_offset(s@, k),
{
    let mut out: Vec<u64> = Vec::new();
    out.push(0);
    assert(s@.take(0) =~= Seq::<char>::empty());
    let mut total: u64 = 0;
    let mut i: usize = 0;
    while i < s.len()
        invariant
            i <= s@.len(),
            bytes_len(s@) <= u64::MAX,
            out@.len() == i + 1,
            total == byte_offset(s@, i as int),
            forall|k: int| 0 <= k <= i ==> #[trigger] out@[k] == byte_offset(s@, k),
        decreases s@.len() - i,
    {
        assert(s@.take(i + 1).drop_last() =~= s@.take(i as int));
        proof {
            lemma_byte_offset_monotone(s@, i + 1, s@.len() as int);
            assert(s@.take(s@.len() as int) =~= s@);
        }
        let w = char_width(s[i]);
        total = total + w;
        out.push(total);
        i = i + 1;
    }
    out
}

/// Byte offset `b` falls on a character boundary of `s`.
pub open spec fn is_boundary(s: Seq<char>, b: int) -> bool {
    exists|k: int| 0 <= k <= s.len() && byte_offset(s, k) == b
}

/// The character index at byte offset `b` (a boundary).
pub open spec fn char_index_at(s: Seq<char>, b: int) -> int {
    choose|k: int| 0 <= k <= s.len() && byte_offset(s, k) == b
}

/// The characters of `s` between byte offsets `a` and `b` (`&s[a..b]`).
pub open spec fn byte_slice(s: Seq<char>, a: int, b: int) -> Seq<char> {
    s.subrange(char_index_at(s, a), char_index_at(s, b))
}

/// The character index at a boundary is the one whose offset it is.
pub proof fn lemma_char_index_at(s: Seq<char>, k: int)
    requires
        0 <= k <= s.len(),
    ensures
        is_boundary(s, byte_offset(s, k) as int),
        char_index_at(s, byte_offset(s, k) as int) == k,
{
    let b = byte_offset(s, k) as int;
    assert(0 <= k <= s.len() && byte_offset(s, k) == b);
    let j = char_index_at(s, b);
    if j < k {
        lemma_byte_offset_monotone(s, j, k);
    } else if k < j {
        lemma_byte_offset_monotone(s, k, j);
    }
}

/// The character index whose byte offset is `b`, if `b` is a boundary.
pub fn char_index_for(s: &Vec<char>, offs: &Vec<u64>, b: u64) -> (r: Option<usize>)
    requires
        offs@.len() == s@.len() + 1,
        forall|k: int| 0 <= k <= s@.len() ==> #[trigger] offs@[k] == byte_offset(s@, k),
    ensures
        r matches Some(k) ==> k <= s@.len() && is_boundary(s@, b as int) && char_index_at(s@, b as int) == k,
        r is None ==> !is_boundary(s@, b as int),
{
    let mut k: usize = 0;
    while k < offs.len()
        invariant
            k <= offs@.len(),
            offs@.len() == s@.len() + 1,
            forall|j: int| 0 <= j <= s@.len() ==> #[trigger] offs@[j] == byte_offset(s@, j),
            forall|j: int| 0 <= j < k ==> byte_offset(s@, j) != b,
        decreases offs@.len() - k,
    {
        if offs[k] == b {
            proof {
                lemma_char_index_at(s@, k as int);
            }
            return Some(k);
        }
        k = k + 1;
    }
    None
}

} // verus!
