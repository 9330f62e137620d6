//! The whole proximity heuristic.
use vstd::prelude::*;
use crate::schema::{
    ExtractedField, ExtractedValue, ExtractionSchema, FieldSchema, FieldType, FieldView, ValueView,
    field_views,
};
use crate::text::{
    is_ascii_text, lemma_ascii_byte_offset, lemma_ascii_bytes_len, lemma_ascii_lowercase_ascii,
    lemma_occurrences_inside, occurrences, byte_offset, byte_offsets, bytes_len, bytes_len_capped, chars_to_string, lowercase_chars,
    lowercase_of, str_chars, MAX_TEXT_LEN,
};
use crate::proximity::words::{
    find_number_candidates, number_candidates, number_candidates_upto, number_views, segment_words,
    spans_of, word_spans, NumberCand, NumberCandidate,
};
use crate::proximity::values::{
    bool_candidates, bool_views, find_bool_candidates, find_quoted, find_word_texts,
    no_checks_defined, no_check_defined, quoted_candidates, quoted_in, text_views, word_text_candidates_upto, BoolCand,
    BoolCandidate, TextCand, TextCandidate, offsets_table,
};
use crate::proximity::anchors::{field_anchors, find_field_anchors, ints_of, stopword_list, stopwords};
use crate::proximity::assign::{
    assign_view, assignment, build_pairs, greedy_assign, table_pairs, table_view, pair_views,
};
use crate::proximity::scoring::{
    anchor_views, anchors_bounded, bool_rows, bool_table, number_rows, number_table, text_rows,
    text_table,
};

verus! {

/// The string candidates of a text: its quotations, or, when it has
/// none, its bare words that can be string values.
pub open spec fn text_candidates(input: Seq<char>, l: Seq<char>) -> Seq<TextCandidate> {
    let q = quoted_candidates(input);
    if q.len() == 0 {
        word_text_candidates_upto(l, word_spans(l), number_candidates(l), word_spans(l).len() as int)
    } else {
        q
    }
}

/// The byte positions of the numbers given to the first `n` fields.
pub open spec fn chosen_positions(assign: Seq<Option<int>>, nums: Seq<NumberCandidate>, n: int) -> Seq<
    int,
>
    decreases n,
{
    if n <= 0 {
        seq![]
    } else {
        let prev = chosen_positions(assign, nums, n - 1);
        match assign[n - 1] {
            Some(c) => prev.push(nums[c].start),
            None => prev,
        }
    }
}

/// The value of field `f` given the three assignments: the assigned
/// string, or `unknown` for a required field and the empty string
/// otherwise; the assigned number's text, or none (zero); the assigned
/// boolean, or `false`.
pub open spec fn field_value(
    f: FieldSchema,
    num: Option<int>,
    flag: Option<int>,
    text: Option<int>,
    nums: Seq<NumberCandidate>,
    bools: Seq<BoolCandidate>,
    texts: Seq<TextCandidate>,
) -> ValueView {
    match f.field_type {
        FieldType::String => match text {
            Some(c) => ValueView::Text(texts[c].value),
            None => ValueView::Text(
                if f.required {
                    "unknown"@
                } else {
                    Seq::<char>::empty()
                },
            ),
        },
        FieldType::Integer => ValueView::Integer(
            match num {
                Some(c) => Some(nums[c].text),
                None => None,
            },
        ),
        FieldType::Float => ValueView::Float(
            match num {
                Some(c) => Some(nums[c].text),
                None => None,
            },
        ),
        FieldType::Boolean => ValueView::Boolean(
            match flag {
                Some(c) => bools[c].value,
                None => false,
            },
        ),
    }
}

/// The anchors of every field.
pub open spec fn all_anchors(l: Seq<char>, fields: Seq<FieldSchema>) -> Seq<Seq<int>> {
    Seq::new(fields.len(), |f: int| field_anchors(l, fields[f]))
}

/// What the heuristic extracts from `input` for `fields`: in the
/// lowercased text, numbers are assigned to numeric fields, booleans to
/// boolean fields, and then strings to string fields (scored also by
/// their distance to the chosen numbers), each greedily by score; every
/// field gets its assigned value or its default, in schema order.
pub open spec fn proximity_result(input: Seq<char>, fields: Seq<FieldSchema>) -> Seq<FieldView> {
    let l = lowercase_of(input);
    let tl = bytes_len(l) as int;
    let anchors = all_anchors(l, fields);
    let nums = number_candidates(l);
    let bools = bool_candidates(l);
    let texts = text_candidates(input, l);
    let an = assignment(table_pairs(number_table(fields, anchors, nums, tl)), fields.len() as int);
    let ab = assignment(table_pairs(bool_table(fields, anchors, bools, tl)), fields.len() as int);
    let chosen = chosen_positions(an, nums, fields.len() as int);
    let at = assignment(
        table_pairs(text_table(fields, anchors, chosen, texts, tl)),
        fields.len() as int,
    );
    Seq::new(
        fields.len(),
        |f: int|
            FieldView {
                name: fields[f].name@,
                value: field_value(fields[f], an[f], ab[f], at[f], nums, bools, texts),
            },
    )
}

/// The inputs on which the heuristic is defined: every field name
/// lowercases to a non-empty string (an empty one makes the occurrence
/// scan never advance), every `no` word check reads existing characters,
/// and the texts are short enough that every score is exact.
pub open spec fn proximity_defined(input: Seq<char>, fields: Seq<FieldSchema>) -> bool {
    let l = lowercase_of(input);
    &&& input.len() <= MAX_TEXT_LEN
    &&& bytes_len(l) <= MAX_TEXT_LEN
    &&& no_checks_defined(l)
    &&& forall|f: int| 0 <= f < fields.len() ==> lowercase_of(#[trigger] fields[f].name@).len() > 0
}

/// The anchors of every field.
fn find_all_anchors(l: &Vec<char>, offs: &Vec<u64>, fields: &Vec<FieldSchema>) -> (out: Vec<Vec<u64>>)
    requires
        offsets_table(l@, offs@),
        forall|k: int| 0 <= k < offs@.len() ==> #[trigger] offs@[k] <= MAX_TEXT_LEN,
        forall|f: int| 0 <= f < fields@.len() ==> lowercase_of(#[trigger] fields@[f].name@).len() > 0,
    ensures
        anchor_views(out@) == all_anchors(l@, fields@),
        out@.len() == fields@.len(),
        anchors_bounded(out@),
{
    let stops = stopword_list();
    let mut out: Vec<Vec<u64>> = Vec::new();
    let mut f: usize = 0;
    while f < fields.len()
        invariant
            f <= fields@.len(),
            offsets_table(l@, offs@),
            forall|k: int| 0 <= k < offs@.len() ==> #[trigger] offs@[k] <= MAX_TEXT_LEN,
            forall|g: int| 0 <= g < fields@.len() ==> lowercase_of(#[trigger] fields@[g].name@).len() > 0,
            crate::text::views_of(stops@) == stopwords(),
            out@.len() == f,
            anchor_views(out@) == all_anchors(l@, fields@).take(f as int),
            anchors_bounded(out@),
        decreases fields@.len() - f,
    {
        let a = find_field_anchors(l, offs, &fields[f], &stops);
        let ghost before = anchor_views(out@);
        let ghost prev = out@;
        out.push(a);
        assert(anchor_views(out@) =~= before.push(ints_of(a@)));
        assert(all_anchors(l@, fields@).take(f + 1) =~= all_anchors(l@, fields@).take(f as int).push(
            field_anchors(l@, fields@[f as int]),
        ));
        assert forall|g: int, i: int| 0 <= g < out@.len() && 0 <= i < out@[g]@.len() implies #[trigger] out@[g]@[i]
            <= MAX_TEXT_LEN by {
            if g < prev.len() {
                assert(out@[g] == prev[g]);
            }
        }
        f = f + 1;
    }
    assert(all_anchors(l@, fields@).take(fields@.len() as int) =~= all_anchors(l@, fields@));
    out
}

fn append_texts(out: &mut Vec<TextCand>, more: Vec<TextCand>)
    ensures
        text_views(final(out)@) == text_views(old(out)@) + text_views(more@),
        final(out)@ == old(out)@ + more@,
{
    let mut more = more;
    let ghost a = out@;
    let ghost b = more@;
    out.append(&mut more);
    assert(text_views(out@) =~= text_views(a) + text_views(b));
}

/// The string candidates of a text.
fn find_text_candidates(
    input: &Vec<char>,
    l: &Vec<char>,
    offs: &Vec<u64>,
    words: &Vec<crate::proximity::words::Word>,
    nums: &Vec<NumberCand>,
) -> (out: Vec<TextCand>)
    requires
        input@.len() <= MAX_TEXT_LEN,
        offsets_table(l@, offs@),
        forall|k: int| 0 <= k < offs@.len() ==> #[trigger] offs@[k] <= MAX_TEXT_LEN,
        spans_of(words@) == word_spans(l@),
        forall|j: int| 0 <= j < words@.len() ==> #[trigger] words@[j].start < words@[j].end <= l@.len(),
        number_views(nums@) == number_candidates(l@),
    ensures
        text_views(out@) == text_candidates(input@, l@),
        forall|j: int| 0 <= j < out@.len() ==> #[trigger] out@[j].start <= MAX_TEXT_LEN,
{
    let mut out = find_quoted(input, '\'');
    append_texts(&mut out, find_quoted(input, '"'));
    append_texts(&mut out, find_quoted(input, '`'));
    assert(text_views(out@) == quoted_candidates(input@));
    if out.len() == 0 {
        find_word_texts(l, offs, words, nums)
    } else {
        out
    }
}

/// The byte positions of the numbers assigned to fields, in field order.
fn chosen_number_positions(an: &Vec<Option<usize>>, nums: &Vec<NumberCand>) -> (out: Vec<u64>)
    requires
        forall|f: int| 0 <= f < an@.len() ==> (#[trigger] an@[f] matches Some(c) ==> c < nums@.len()),
    ensures
        ints_of(out@) == chosen_positions(assign_view(an@), number_views(nums@), an@.len() as int),
{
    let ghost av = assign_view(an@);
    let mut out: Vec<u64> = Vec::new();
    let mut f: usize = 0;
    while f < an.len()
        invariant
            f <= an@.len(),
            av == assign_view(an@),
            forall|g: int| 0 <= g < an@.len() ==> (#[trigger] an@[g] matches Some(c) ==> c < nums@.len()),
            ints_of(out@) == chosen_positions(av, number_views(nums@), f as int),
        decreases an@.len() - f,
    {
        assert(av[f as int] == crate::proximity::words::opt_int(an@[f as int]));
        match an[f] {
            Some(c) => {
                let ghost before = ints_of(out@);
                out.push(nums[c].start);
                assert(number_views(nums@)[c as int] == nums@[c as int]@);
                assert(ints_of(out@) =~= before.push(nums@[c as int].start as int));
            },
            None => {},
        }
        f = f + 1;
    }
    out
}

/// The value of one field.
fn make_value(
    f: &FieldSchema,
    num: Option<usize>,
    flag: Option<usize>,
    text: Option<usize>,
    nums: &Vec<NumberCand>,
    bools: &Vec<BoolCand>,
    texts: &Vec<TextCand>,
) -> (v: ExtractedValue)
    requires
        num matches Some(c) ==> c < nums@.len(),
        flag matches Some(c) ==> c < bools@.len(),
        text matches Some(c) ==> c < texts@.len(),
    ensures
        v@ == field_value(
            *f,
            crate::proximity::words::opt_int(num),
            crate::proximity::words::opt_int(flag),
            crate::proximity::words::opt_int(text),
            number_views(nums@),
            bool_views(bools@),
            text_views(texts@),
        ),
{
    match f.field_type {
        FieldType::String => match text {
            Some(c) => {
                assert(text_views(texts@)[c as int] == texts@[c as int]@);
                ExtractedValue::Text(chars_to_string(&texts[c].value))
            },
            None => {
                if f.required {
                    let s = String::from_str("unknown");
                    ExtractedValue::Text(s)
                } else {
                    ExtractedValue::Text(String::new())
                }
            },
        },
        FieldType::Integer => match num {
            Some(c) => {
                assert(number_views(nums@)[c as int] == nums@[c as int]@);
                ExtractedValue::Integer(Some(chars_to_string(&nums[c].text)))
            },
            None => ExtractedValue::Integer(None),
        },
        FieldType::Float => match num {
            Some(c) => {
                assert(number_views(nums@)[c as int] == nums@[c as int]@);
                ExtractedValue::Float(Some(chars_to_string(&nums[c].text)))
            },
            None => ExtractedValue::Float(None),
        },
        FieldType::Boolean => match flag {
            Some(c) => {
                assert(bool_views(bools@)[c as int] == bools@[c as int]@);
                ExtractedValue::Boolean(bools[c].value)
            },
            None => ExtractedValue::Boolean(false),
        },
    }
}

/// Runs the heuristic on a text whose lowercase form is `lower`, of
/// `total` bytes. The result holds one entry per schema field, in order.
pub fn extract_with_lowercase(
    input: &str,
    lower: &Vec<char>,
    total: u64,
    schema: &ExtractionSchema,
) -> (out: Vec<ExtractedField>)
    requires
        lower@ == lowercase_of(input@),
        total == bytes_len(lower@),
        proximity_defined(input@, schema.fields@),
    ensures
        field_views(out@) == proximity_result(input@, schema.fields@),
{
    let fields = &schema.fields;
    let ghost l = lower@;
    let ghost tl = total as int;
    let nf = fields.len();
    let chars = str_chars(input);
    let offs = byte_offsets(lower);
    proof {
        assert forall|k: int| 0 <= k < offs@.len() implies #[trigger] offs@[k] <= MAX_TEXT_LEN by {
            crate::text::lemma_byte_offset_monotone(l, k, l.len() as int);
            assert(l.take(l.len() as int) =~= l);
        }
    }
    let words = segment_words(lower);
    let anchors = find_all_anchors(lower, &offs, fields);
    let ghost av = all_anchors(l, fields@);
    let nums = find_number_candidates(lower, &offs, &words);
    let bools = find_bool_candidates(lower, &offs, total);
    let texts = find_text_candidates(&chars, lower, &offs, &words, &nums);

    let nrows = number_rows(fields, &anchors, &nums, total);
    let npairs = build_pairs(&nrows);
    let an = greedy_assign(npairs, nf, nums.len());

    let brows = bool_rows(fields, &anchors, &bools, total);
    let bpairs = build_pairs(&brows);
    let ab = greedy_assign(bpairs, nf, bools.len());

    let chosen = chosen_number_positions(&an, &nums);
    let trows = text_rows(fields, &anchors, &chosen, &texts, total);
    let tpairs = build_pairs(&trows);
    let at = greedy_assign(tpairs, nf, texts.len());

    let ghost target = proximity_result(input@, fields@);
    let mut out: Vec<ExtractedField> = Vec::new();
    let mut f: usize = 0;
    while f < nf
        invariant
            nf == fields@.len(),
            f <= nf,
            an@.len() == nf,
            ab@.len() == nf,
            at@.len() == nf,
            forall|g: int| 0 <= g < nf ==> (#[trigger] an@[g] matches Some(c) ==> c < nums@.len()),
            forall|g: int| 0 <= g < nf ==> (#[trigger] ab@[g] matches Some(c) ==> c < bools@.len()),
            forall|g: int| 0 <= g < nf ==> (#[trigger] at@[g] matches Some(c) ==> c < texts@.len()),
            target == proximity_result(input@, fields@),
            assign_view(an@) == assignment(
                table_pairs(number_table(fields@, av, number_candidates(l), tl)),
                nf as int,
            ),
            assign_view(ab@) == assignment(
                table_pairs(bool_table(fields@, av, bool_candidates(l), tl)),
                nf as int,
            ),
            assign_view(at@) == assignment(
                table_pairs(
                    text_table(
                        fields@,
                        av,
                        chosen_positions(assign_view(an@), number_candidates(l), nf as int),
                        crate::proximity::heuristic::text_candidates(input@, l),
                        tl,
                    ),
                ),
                nf as int,
            ),
            number_views(nums@) == number_candidates(l),
            bool_views(bools@) == bool_candidates(l),
            text_views(texts@) == crate::proximity::heuristic::text_candidates(input@, l),
            l == lowercase_of(input@),
            tl == bytes_len(l) as int,
            av == all_anchors(l, fields@),
            field_views(out@) == target.take(f as int),
        decreases nf - f,
    {
        let v = make_value(&fields[f], an[f], ab[f], at[f], &nums, &bools, &texts);
        let name = fields[f].name.clone();
        let ghost before = field_views(out@);
        out.push(ExtractedField { name, value: v });
        assert(assign_view(an@)[f as int] == crate::proximity::words::opt_int(an@[f as int]));
        assert(assign_view(ab@)[f as int] == crate::proximity::words::opt_int(ab@[f as int]));
        assert(assign_view(at@)[f as int] == crate::proximity::words::opt_int(at@[f as int]));
        assert(field_views(out@) =~= before.push(target[f as int]));
        assert(target.take(f + 1) =~= target.take(f as int).push(target[f as int]));
        f = f + 1;
    }
    assert(target.take(nf as int) =~= target);
    out
}

/// Whether the word check of every `no` in `l` reads only existing
/// characters.
fn no_checks_hold(l: &Vec<char>, offs: &Vec<u64>, total: u64) -> (r: bool)
    requires
        offsets_table(l@, offs@),
        total == bytes_len(l@),
        total <= MAX_TEXT_LEN,
    ensures
        r == no_checks_defined(l@),
{
    let n = str_chars("no");
    proof {
        reveal_strlit("no");
    }
    let ks = crate::text::occurrence_positions(l, &n);
    let ghost occ = crate::text::occurrences(l@, "no"@);
    let ll = l.len();
    let mut i: usize = 0;
    while i < ks.len()
        invariant
            i <= ks@.len(),
            ll == l@.len(),
            offsets_table(l@, offs@),
            total == bytes_len(l@),
            total <= MAX_TEXT_LEN,
            n@ == "no"@,
            occ == crate::text::occurrences(l@, "no"@),
            ks@.map_values(|x: usize| x as int) == occ,
            forall|j: int| 0 <= j < ks@.len() ==> ks@[j] + n@.len() <= l@.len(),
            forall|j: int| 0 <= j < i ==> no_check_defined(l@, #[trigger] occ[j]),
        decreases ks@.len() - i,
    {
        let k = ks[i];
        assert(occ[i as int] == k as int);
        let p = offs[k];
        assert(p as int == byte_offset(l@, k as int));
        proof {
            crate::text::lemma_byte_offset_monotone(l@, k as int, l@.len() as int);
            assert(l@.take(l@.len() as int) =~= l@);
        }
        let ghost pi = p as int;
        if p > 0 && p - 1 >= ll as u64 {
            assert(!no_check_defined(l@, occ[i as int]));
            assert(occ.len() == ks@.len());
            return false;
        }
        let before_ok = if p == 0 {
            true
        } else {
            let idx = (p - 1) as usize;
            assert(idx as int == pi - 1);
            !crate::text::char_is_alphanumeric(l[idx])
        };
        assert(before_ok == (pi == 0 || !crate::text::is_alphanumeric_char(l@[pi - 1])));
        if before_ok && p + 2 < total && p + 2 >= ll as u64 {
            assert(!no_check_defined(l@, occ[i as int]));
            assert(occ.len() == ks@.len());
            return false;
        }
        assert(no_check_defined(l@, occ[i as int]));
        i = i + 1;
    }
    assert(occ.len() == ks@.len());
    true
}

/// In an ASCII text the word check of every `no` reads existing
/// characters: byte offsets are character indices there.
proof fn lemma_ascii_no_checks(l: Seq<char>)
    requires
        is_ascii_text(l),
    ensures
        no_checks_defined(l),
{
    reveal_strlit("no");
    lemma_occurrences_inside(l, "no"@, 0);
    lemma_ascii_bytes_len(l);
    assert forall|i: int| 0 <= i < occurrences(l, "no"@).len() implies no_check_defined(l, #[trigger] occurrences(l, "no"@)[i]) by {
        let k = occurrences(l, "no"@)[i];
        lemma_ascii_byte_offset(l, k);
    }
}

/// Whether every field name lowercases to a non-empty string.
fn names_nonempty(fields: &Vec<FieldSchema>) -> (r: bool)
    ensures
        r == forall|f: int| 0 <= f < fields@.len() ==> lowercase_of(#[trigger] fields@[f].name@).len() > 0,
        (forall|f: int| 0 <= f < fields@.len() ==> #[trigger] fields@[f].name@.len() > 0) ==> r,
{
    let mut f: usize = 0;
    while f < fields.len()
        invariant
            f <= fields@.len(),
            forall|g: int| 0 <= g < f ==> lowercase_of(#[trigger] fields@[g].name@).len() > 0,
        decreases fields@.len() - f,
    {
        let nl = lowercase_chars(fields[f].name.as_str());
        if nl.len() == 0 {
            return false;
        }
        f = f + 1;
    }
    true
}

/// Extracts a value for every field of `schema` from `input` with the
/// proximity heuristic. `None` exactly where the heuristic is not
/// defined (see `proximity_defined`).
pub fn extract_via_proximity_heuristic(input: &str, schema: &ExtractionSchema) -> (r: Option<
    Vec<ExtractedField>,
>)
    ensures
        r is Some <==> proximity_defined(input@, schema.fields@),
        r matches Some(v) ==> field_views(v@) == proximity_result(input@, schema.fields@),
        is_ascii_text(input@) && input@.len() <= MAX_TEXT_LEN && (forall|f: int|
            0 <= f < schema.fields@.len() ==> #[trigger] schema.fields@[f].name@.len() > 0) ==> r is Some,
{
    let chars = str_chars(input);
    if chars.len() as u64 > MAX_TEXT_LEN {
        return None;
    }
    let lower = lowercase_chars(input);
    proof {
        if is_ascii_text(input@) {
            lemma_ascii_lowercase_ascii(input@);
            lemma_ascii_bytes_len(lower@);
            lemma_ascii_no_checks(lower@);
        }
    }
    let total = match bytes_len_capped(&lower, MAX_TEXT_LEN) {
        Some(t) => t,
        None => {
            return None;
        },
    };
    let offs = byte_offsets(&lower);
    if !no_checks_hold(&lower, &offs, total) {
        return None;
    }
    if !names_nonempty(&schema.fields) {
        return None;
    }
    Some(extract_with_lowercase(input, &lower, total, schema))
}

} // verus!
