//! Anchor positions: where a field's name and description words occur.
use vstd::prelude::*;
use crate::schema::FieldSchema;
use crate::text::{
    byte_offset, bytes_len, bytes_len_capped, chars_eq, chars_to_string, lowercase_chars,
    lowercase_of, occurrence_positions, occurrences, split_chars, split_pieces, str_chars,
    trim, trim_chars, views_of, Separator,
};
use crate::proximity::values::offsets_table;

verus! {

/// Words too common to anchor a field.
pub open spec fn stopwords() -> Seq<Seq<char>> {
    seq![
        "the"@,
        "a"@,
        "an"@,
        "and"@,
        "or"@,
        "of"@,
        "to"@,
        "in"@,
        "is"@,
        "for"@,
        "with"@,
        "by"@,
        "on"@,
        "at"@,
        "from"@,
        "being"@,
        "value"@,
        "field"@,
        "type"@,
        "description"@,
        "required"@,
        "schema"@,
        "json"@,
        "output"@,
        "having"@,
        "which"@,
        "that"@,
        "this"@,
        "here"@,
        "there"@,
        "some"@,
        "any"@,
        "it"@,
        "its"@,
        "called"@,
        "named"@,
        "name"@,
        "has"@,
        "have"@,
        "had"@,
        "was"@,
        "were"@,
        "been"@,
        "be"@,
        "do"@,
        "does"@,
        "did"@,
        "doing"@,
        "but"@,
        "as"@,
        "if"@,
        "so"@,
        "than"@,
        "out"@,
        "only"@,
        "about"@
    ]
}

/// `w` is a stopword.
pub open spec fn is_stopword(w: Seq<char>) -> bool {
    stopwords().contains(w)
}

/// The stopwords, as character vectors.
pub fn stopword_list() -> (v: Vec<Vec<char>>)
    ensures
        views_of(v@) == stopwords(),
{
    let v = vec![
        str_chars("the"),
        str_chars("a"),
        str_chars("an"),
        str_chars("and"),
        str_chars("or"),
        str_chars("of"),
        str_chars("to"),
        str_chars("in"),
        str_chars("is"),
        str_chars("for"),
        str_chars("with"),
        str_chars("by"),
        str_chars("on"),
        str_chars("at"),
        str_chars("from"),
        str_chars("being"),
        str_chars("value"),
        str_chars("field"),
        str_chars("type"),
        str_chars("description"),
        str_chars("required"),
        str_chars("schema"),
        str_chars("json"),
        str_chars("output"),
        str_chars("having"),
        str_chars("which"),
        str_chars("that"),
        str_chars("this"),
        str_chars("here"),
        str_chars("there"),
        str_chars("some"),
        str_chars("any"),
        str_chars("it"),
        str_chars("its"),
        str_chars("called"),
        str_chars("named"),
        str_chars("name"),
        str_chars("has"),
        str_chars("have"),
        str_chars("had"),
        str_chars("was"),
        str_chars("were"),
        str_chars("been"),
        str_chars("be"),
        str_chars("do"),
        str_chars("does"),
        str_chars("did"),
        str_chars("doing"),
        str_chars("but"),
        str_chars("as"),
        str_chars("if"),
        str_chars("so"),
        str_chars("than"),
        str_chars("out"),
        str_chars("only"),
        str_chars("about")
    ];
    assert(views_of(v@) =~= stopwords());
    v
}

/// Whether `w` is a stopword.
pub fn stopword(w: &Vec<char>, stops: &Vec<Vec<char>>) -> (r: bool)
    requires
        views_of(stops@) == stopwords(),
    ensures
        r == is_stopword(w@),
{
    let mut i: usize = 0;
    while i < stops.len()
        invariant
            i <= stops@.len(),
            views_of(stops@) == stopwords(),
            forall|j: int| 0 <= j < i ==> stopwords()[j] != w@,
        decreases stops@.len() - i,
    {
        assert(views_of(stops@)[i as int] == stops@[i as int]@);
        if chars_eq(w, &stops[i]) {
            assert(stopwords()[i as int] == w@);
            return true;
        }
        i = i + 1;
    }
    false
}

/// `acc` followed by the elements of `xs` it does not hold yet, in order
/// (each added element counts for the ones after it).
pub open spec fn append_new(acc: Seq<int>, xs: Seq<int>) -> Seq<int>
    decreases xs.len(),
{
    if xs.len() == 0 {
        acc
    } else {
        let a = append_new(acc, xs.drop_last());
        if a.contains(xs.last()) {
            a
        } else {
            a.push(xs.last())
        }
    }
}

/// The byte offsets of character positions of `l`.
pub open spec fn byte_positions(l: Seq<char>, ks: Seq<int>) -> Seq<int> {
    ks.map_values(|k: int| byte_offset(l, k) as int)
}

/// The anchors added by the words of a field name: each piece, trimmed,
/// that is longer than one byte and not a stopword adds the positions of
/// its occurrences.
pub open spec fn part_anchors(acc: Seq<int>, l: Seq<char>, parts: Seq<Seq<char>>) -> Seq<int>
    decreases parts.len(),
{
    if parts.len() == 0 {
        acc
    } else {
        let a = part_anchors(acc, l, parts.drop_last());
        let c = trim(parts.last());
        if bytes_len(c) > 1 && !is_stopword(c) {
            append_new(a, byte_positions(l, occurrences(l, c)))
        } else {
            a
        }
    }
}

/// The anchors added by the words of a field description: each piece,
/// trimmed and lowercased, that is longer than two bytes and not a
/// stopword adds the positions of its occurrences.
pub open spec fn description_anchors(acc: Seq<int>, l: Seq<char>, words: Seq<Seq<char>>) -> Seq<
    int,
>
    decreases words.len(),
{
    if words.len() == 0 {
        acc
    } else {
        let a = description_anchors(acc, l, words.drop_last());
        let c = lowercase_of(trim(words.last()));
        if bytes_len(c) > 2 && !is_stopword(c) {
            append_new(a, byte_positions(l, occurrences(l, c)))
        } else {
            a
        }
    }
}

/// The anchors of a field in the lowercased text `l`, as byte offsets:
/// every occurrence of the lowercased name, then the new positions of the
/// name's words (split at `_`, `-` and whitespace), then the new positions
/// of the description's words (split at non-alphanumeric characters).
pub open spec fn field_anchors(l: Seq<char>, f: FieldSchema) -> Seq<int> {
    let nl = lowercase_of(f.name@);
    let a1 = byte_positions(l, occurrences(l, nl));
    let a2 = part_anchors(a1, l, split_pieces(nl, Separator::NamePart));
    description_anchors(a2, l, split_pieces(f.description@, Separator::NonAlphanumeric))
}

/// A sequence of offsets as integers.
pub open spec fn ints_of(v: Seq<u64>) -> Seq<int> {
    v.map_values(|x: u64| x as int)
}

/// Appends the byte offsets of the occurrences of `needle` in `l`,
/// skipping those already present when `dedup` holds.
fn add_positions(out: &mut Vec<u64>, l: &Vec<char>, offs: &Vec<u64>, needle: &Vec<char>, dedup: bool)
    requires
        needle@.len() > 0,
        offsets_table(l@, offs@),
        forall|k: int| 0 <= k < offs@.len() ==> #[trigger] offs@[k] <= crate::text::MAX_TEXT_LEN,
        forall|j: int| 0 <= j < old(out)@.len() ==> #[trigger] old(out)@[j] <= crate::text::MAX_TEXT_LEN,
    ensures
        forall|j: int| 0 <= j < final(out)@.len() ==> #[trigger] final(out)@[j] <= crate::text::MAX_TEXT_LEN,
        dedup ==> ints_of(final(out)@) == append_new(
            ints_of(old(out)@),
            byte_positions(l@, occurrences(l@, needle@)),
        ),
        !dedup ==> ints_of(final(out)@) == ints_of(old(out)@) + byte_positions(
            l@,
            occurrences(l@, needle@),
        ),
{
    let ks = occurrence_positions(l, needle);
    let ghost occ = byte_positions(l@, occurrences(l@, needle@));
    let ghost base = ints_of(out@);
    let mut i: usize = 0;
    while i < ks.len()
        invariant
            i <= ks@.len(),
            offsets_table(l@, offs@),
            ks@.map_values(|x: usize| x as int) == occurrences(l@, needle@),
            occ == byte_positions(l@, occurrences(l@, needle@)),
            forall|j: int| 0 <= j < ks@.len() ==> ks@[j] + needle@.len() <= l@.len(),
            dedup ==> ints_of(out@) == append_new(base, occ.take(i as int)),
            !dedup ==> ints_of(out@) == base + occ.take(i as int),
            forall|k: int| 0 <= k < offs@.len() ==> #[trigger] offs@[k] <= crate::text::MAX_TEXT_LEN,
            forall|j: int| 0 <= j < out@.len() ==> #[trigger] out@[j] <= crate::text::MAX_TEXT_LEN,
        decreases ks@.len() - i,
    {
        let k = ks[i];
        let p = offs[k];
        assert(occurrences(l@, needle@)[i as int] == k as int);
        assert(occ[i as int] == p as int);
        assert(occ.take(i + 1).drop_last() =~= occ.take(i as int));
        assert(occ.take(i + 1).last() == p as int);
        let ghost before = ints_of(out@);
        let mut present = false;
        if dedup {
            let mut j: usize = 0;
            while j < out.len() && !present
                invariant
                    j <= out@.len(),
                    before == ints_of(out@),
                    forall|m: int| 0 <= m < out@.len() ==> #[trigger] out@[m] <= crate::text::MAX_TEXT_LEN,
                    present ==> before.contains(p as int),
                    !present ==> forall|m: int| 0 <= m < j ==> out@[m] != p,
                decreases out@.len() - j,
            {
                if out[j] == p {
                    present = true;
                    assert(before[j as int] == p as int);
                }
                j = j + 1;
            }
            assert(present == before.contains(p as int)) by {
                if !present {
                    assert forall|m: int| 0 <= m < before.len() implies before[m] != p as int by {
                        assert(before[m] == out@[m] as int);
                    }
                }
            }
        }
        if !present {
            let ghost prev = out@;
            out.push(p);
            assert(ints_of(out@) =~= before.push(p as int));
            assert(forall|j: int| 0 <= j < prev.len() ==> out@[j] == prev[j]);
        }
        i = i + 1;
    }
    assert(occ.take(ks@.len() as int) =~= occ);
}

/// The anchors of a field in the lowercased text `l`.
pub fn find_field_anchors(
    l: &Vec<char>,
    offs: &Vec<u64>,
    f: &FieldSchema,
    stops: &Vec<Vec<char>>,
) -> (out: Vec<u64>)
    requires
        offsets_table(l@, offs@),
        views_of(stops@) == stopwords(),
        lowercase_of(f.name@).len() > 0,
        forall|k: int| 0 <= k < offs@.len() ==> #[trigger] offs@[k] <= crate::text::MAX_TEXT_LEN,
    ensures
        ints_of(out@) == field_anchors(l@, *f),
        forall|j: int| 0 <= j < out@.len() ==> #[trigger] out@[j] <= crate::text::MAX_TEXT_LEN,
{
    let nl = lowercase_chars(f.name.as_str());
    let mut out: Vec<u64> = Vec::new();
    assert(ints_of(out@) =~= Seq::<int>::empty());
    add_positions(&mut out, l, offs, &nl, false);
    assert(Seq::<int>::empty() + byte_positions(l@, occurrences(l@, nl@)) =~= byte_positions(
        l@,
        occurrences(l@, nl@),
    ));
    let ghost a1 = ints_of(out@);
    let parts = split_chars(&nl, Separator::NamePart);
    let ghost ps = split_pieces(nl@, Separator::NamePart);
    let mut i: usize = 0;
    while i < parts.len()
        invariant
            i <= parts@.len(),
            offsets_table(l@, offs@),
            views_of(stops@) == stopwords(),
            views_of(parts@) == ps,
            forall|k: int| 0 <= k < offs@.len() ==> #[trigger] offs@[k] <= crate::text::MAX_TEXT_LEN,
            forall|j: int| 0 <= j < out@.len() ==> #[trigger] out@[j] <= crate::text::MAX_TEXT_LEN,
            ints_of(out@) == part_anchors(a1, l@, ps.take(i as int)),
        decreases parts@.len() - i,
    {
        assert(ps.take(i + 1).drop_last() =~= ps.take(i as int));
        assert(ps[i as int] == parts@[i as int]@);
        let c = trim_chars(&parts[i]);
        if bytes_len_capped(&c, 1).is_none() && !stopword(&c, stops) {
            add_positions(&mut out, l, offs, &c, true);
        }
        i = i + 1;
    }
    assert(ps.take(ps.len() as int) =~= ps);
    let ghost a2 = ints_of(out@);
    let words = split_chars(&str_chars(f.description.as_str()), Separator::NonAlphanumeric);
    let ghost ws = split_pieces(f.description@, Separator::NonAlphanumeric);
    let mut i: usize = 0;
    while i < words.len()
        invariant
            i <= words@.len(),
            offsets_table(l@, offs@),
            views_of(stops@) == stopwords(),
            views_of(words@) == ws,
            forall|k: int| 0 <= k < offs@.len() ==> #[trigger] offs@[k] <= crate::text::MAX_TEXT_LEN,
            forall|j: int| 0 <= j < out@.len() ==> #[trigger] out@[j] <= crate::text::MAX_TEXT_LEN,
            ints_of(out@) == description_anchors(a2, l@, ws.take(i as int)),
        decreases words@.len() - i,
    {
        assert(ws.take(i + 1).drop_last() =~= ws.take(i as int));
        assert(ws[i as int] == words@[i as int]@);
        let t = trim_chars(&words[i]);
        let ts = chars_to_string(&t);
        let c = lowercase_chars(ts.as_str());
        if bytes_len_capped(&c, 2).is_none() && !stopword(&c, stops) {
            add_positions(&mut out, l, offs, &c, true);
        }
        i = i + 1;
    }
    assert(ws.take(ws.len() as int) =~= ws);
    out
}

} // verus!
