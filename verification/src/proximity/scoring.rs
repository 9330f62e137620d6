//! Scores of field/candidate pairs: distances in bytes between a
//! candidate and a field's anchors, adjusted by how well they fit.
use vstd::prelude::*;
use crate::schema::{FieldSchema, FieldType};
use crate::text::{contains_chars, contains_char, contains_seq, lowercase_chars, lowercase_of, str_chars, MAX_TEXT_LEN};
use crate::proximity::anchors::ints_of;
use crate::proximity::assign::table_view;
use crate::proximity::words::{NumberCand, NumberCandidate, number_views};
use crate::proximity::values::{BoolCand, BoolCandidate, bool_views, TextCand, TextCandidate, text_views};

verus! {

/// The distance between two positions.
pub open spec fn abs_diff(a: int, b: int) -> int {
    if a >= b {
        a - b
    } else {
        b - a
    }
}

/// The least of `init` and the distances from `pos` to each of `xs`.
pub open spec fn min_with(init: int, xs: Seq<int>, pos: int) -> int
    decreases xs.len(),
{
    if xs.len() == 0 {
        init
    } else {
        let m = min_with(init, xs.drop_last(), pos);
        let d = abs_diff(pos, xs.last());
        if d < m {
            d
        } else {
            m
        }
    }
}

/// The distance from `pos` to the nearest anchor, or the text's byte
/// length when there are no anchors.
pub open spec fn anchor_distance(anchors: Seq<int>, pos: int, text_len: int) -> int {
    if anchors.len() == 0 {
        text_len
    } else {
        min_with(abs_diff(pos, anchors[0]), anchors, pos)
    }
}

/// The field's lowercased name and description mention a percentage.
pub open spec fn percent_field(f: FieldSchema) -> bool {
    let fl = lowercase_of(f.name@) + seq![' '] + lowercase_of(f.description@);
    contains_seq(fl, "percent"@) || contains_seq(fl, "percentage"@) || fl.contains('%')
}

/// A field of this type takes a number.
pub open spec fn is_number_type(t: FieldType) -> bool {
    t == FieldType::Integer || t == FieldType::Float
}

/// The score of a number for a numeric field: its anchor distance, minus
/// 100 when a percentage field meets a percentage (plus 1000 when it does
/// not), plus 2000 when another field meets a percentage; minus 20 when an
/// integer field meets an integer (plus 200 when it does not) or a float
/// field meets a decimal.
pub open spec fn number_score(f: FieldSchema, anchors: Seq<int>, c: NumberCandidate, text_len: int) -> int {
    let md = anchor_distance(anchors, c.start, text_len);
    let p = if percent_field(f) {
        if c.has_percent {
            -100int
        } else {
            1000int
        }
    } else {
        if c.has_percent {
            2000int
        } else {
            0int
        }
    };
    let t = if f.field_type == FieldType::Integer {
        if c.is_integer {
            -20int
        } else {
            200int
        }
    } else if f.field_type == FieldType::Float {
        if !c.is_integer {
            -20int
        } else {
            0int
        }
    } else {
        0int
    };
    md + p + t
}

/// The score table of numbers: a row per field, empty for non-numeric
/// fields.
pub open spec fn number_table(
    fields: Seq<FieldSchema>,
    anchors: Seq<Seq<int>>,
    cands: Seq<NumberCandidate>,
    text_len: int,
) -> Seq<Seq<int>> {
    Seq::new(
        fields.len(),
        |f: int|
            if is_number_type(fields[f].field_type) {
                Seq::new(cands.len(), |j: int| number_score(fields[f], anchors[f], cands[j], text_len))
            } else {
                seq![]
            },
    )
}

/// The score table of booleans: the anchor distance, for boolean fields.
pub open spec fn bool_table(
    fields: Seq<FieldSchema>,
    anchors: Seq<Seq<int>>,
    cands: Seq<BoolCandidate>,
    text_len: int,
) -> Seq<Seq<int>> {
    Seq::new(
        fields.len(),
        |f: int|
            if fields[f].field_type == FieldType::Boolean {
                Seq::new(cands.len(), |j: int| anchor_distance(anchors[f], cands[j].start, text_len))
            } else {
                seq![]
            },
    )
}

/// The score of a string for a string field: six times its distance to
/// the nearest chosen number (at most the text length), plus its anchor
/// distance when the field has anchors.
pub open spec fn text_score(anchors: Seq<int>, chosen: Seq<int>, c: TextCandidate, text_len: int) -> int {
    let own = anchor_distance(anchors, c.start, text_len);
    let near = min_with(text_len, chosen, c.start);
    if anchors.len() == 0 {
        near * 6
    } else {
        own + near * 6
    }
}

/// The score table of strings, for string fields.
pub open spec fn text_table(
    fields: Seq<FieldSchema>,
    anchors: Seq<Seq<int>>,
    chosen: Seq<int>,
    cands: Seq<TextCandidate>,
    text_len: int,
) -> Seq<Seq<int>> {
    Seq::new(
        fields.len(),
        |f: int|
            if fields[f].field_type == FieldType::String {
                Seq::new(cands.len(), |j: int| text_score(anchors[f], chosen, cands[j], text_len))
            } else {
                seq![]
            },
    )
}

/// The anchors of each field as integers.
pub open spec fn anchor_views(a: Seq<Vec<u64>>) -> Seq<Seq<int>> {
    a.map_values(|v: Vec<u64>| ints_of(v@))
}

/// Every anchor lies within the bound.
pub open spec fn anchors_bounded(a: Seq<Vec<u64>>) -> bool {
    forall|f: int, i: int| 0 <= f < a.len() && 0 <= i < a[f]@.len() ==> #[trigger] a[f]@[i] <= MAX_TEXT_LEN
}

/// The distance between two positions.
pub fn distance(a: u64, b: u64) -> (d: u64)
    ensures
        d == abs_diff(a as int, b as int),
{
    if a >= b {
        a - b
    } else {
        b - a
    }
}

/// The least of `init` and the distances from `pos` to each of `xs`.
pub fn nearest(init: u64, xs: &Vec<u64>, pos: u64) -> (d: u64)
    ensures
        d == min_with(init as int, ints_of(xs@), pos as int),
        d <= init,
{
    let ghost v = ints_of(xs@);
    let mut m = init;
    let mut i: usize = 0;
    while i < xs.len()
        invariant
            i <= xs@.len(),
            v == ints_of(xs@),
            m == min_with(init as int, v.take(i as int), pos as int),
            m <= init,
        decreases xs@.len() - i,
    {
        assert(v.take(i + 1).drop_last() =~= v.take(i as int));
        let d = distance(pos, xs[i]);
        if d < m {
            m = d;
        }
        i = i + 1;
    }
    assert(v.take(xs@.len() as int) =~= v);
    m
}

/// The distance from `pos` to the nearest anchor, or `text_len` when
/// there are none.
pub fn anchor_dist(anchors: &Vec<u64>, pos: u64, text_len: u64) -> (d: u64)
    requires
        forall|i: int| 0 <= i < anchors@.len() ==> #[trigger] anchors@[i] <= MAX_TEXT_LEN,
        pos <= MAX_TEXT_LEN,
        text_len <= MAX_TEXT_LEN,
    ensures
        d == anchor_distance(ints_of(anchors@), pos as int, text_len as int),
        d <= MAX_TEXT_LEN,
{
    if anchors.len() == 0 {
        text_len
    } else {
        let first = distance(pos, anchors[0]);
        nearest(first, anchors, pos)
    }
}

/// Whether a field mentions a percentage.
pub fn is_percent_field(f: &FieldSchema) -> (r: bool)
    ensures
        r == percent_field(*f),
{
    let mut fl = lowercase_chars(f.name.as_str());
    fl.push(' ');
    let mut d = lowercase_chars(f.description.as_str());
    let ghost a = fl@;
    fl.append(&mut d);
    assert(fl@ =~= lowercase_of(f.name@) + seq![' '] + lowercase_of(f.description@));
    contains_chars(&fl, &str_chars("percent")) || contains_chars(&fl, &str_chars("percentage"))
        || contains_char(&fl, '%')
}

/// The score table of numbers.
pub fn number_rows(
    fields: &Vec<FieldSchema>,
    anchors: &Vec<Vec<u64>>,
    cands: &Vec<NumberCand>,
    text_len: u64,
) -> (out: Vec<Vec<i128>>)
    requires
        anchors@.len() == fields@.len(),
        anchors_bounded(anchors@),
        forall|j: int| 0 <= j < cands@.len() ==> #[trigger] cands@[j].start <= MAX_TEXT_LEN,
        text_len <= MAX_TEXT_LEN,
    ensures
        table_view(out@) == number_table(fields@, anchor_views(anchors@), number_views(cands@), text_len as int),
        out@.len() == fields@.len(),
        forall|f: int| 0 <= f < out@.len() ==> #[trigger] out@[f]@.len() <= cands@.len(),
{
    let ghost target = number_table(fields@, anchor_views(anchors@), number_views(cands@), text_len as int);
    let mut out: Vec<Vec<i128>> = Vec::new();
    let mut f: usize = 0;
    while f < fields.len()
        invariant
            f <= fields@.len(),
            anchors@.len() == fields@.len(),
            anchors_bounded(anchors@),
            forall|j: int| 0 <= j < cands@.len() ==> #[trigger] cands@[j].start <= MAX_TEXT_LEN,
            text_len <= MAX_TEXT_LEN,
            target == number_table(fields@, anchor_views(anchors@), number_views(cands@), text_len as int),
            table_view(out@) == target.take(f as int),
        decreases fields@.len() - f,
    {
        let field = &fields[f];
        let mut row: Vec<i128> = Vec::new();
        if field.field_type == FieldType::Integer || field.field_type == FieldType::Float {
            let pf = is_percent_field(field);
            let an = &anchors[f];
            assert(anchor_views(anchors@)[f as int] == ints_of(an@));
            let mut j: usize = 0;
            while j < cands.len()
                invariant
                    j <= cands@.len(),
                    f < fields@.len(),
                    *field == fields@[f as int],
                    an == anchors@[f as int],
                    anchors_bounded(anchors@),
                    anchors@.len() == fields@.len(),
                    pf == percent_field(*field),
                    forall|k: int| 0 <= k < cands@.len() ==> #[trigger] cands@[k].start <= MAX_TEXT_LEN,
                    text_len <= MAX_TEXT_LEN,
                    row@.map_values(|x: i128| x as int) == Seq::new(
                        j as nat,
                        |k: int| number_score(*field, ints_of(an@), number_views(cands@)[k], text_len as int),
                    ),
                decreases cands@.len() - j,
            {
                let c = &cands[j];
                assert(forall|i: int| 0 <= i < an@.len() ==> #[trigger] an@[i] <= MAX_TEXT_LEN) by {
                    assert forall|i: int| 0 <= i < an@.len() implies #[trigger] an@[i] <= MAX_TEXT_LEN by {
                        assert(anchors@[f as int]@[i] <= MAX_TEXT_LEN);
                    }
                }
                let md = anchor_dist(an, c.start, text_len) as i128;
                let p: i128 = if pf {
                    if c.has_percent { -100 } else { 1000 }
                } else {
                    if c.has_percent { 2000 } else { 0 }
                };
                let t: i128 = if field.field_type == FieldType::Integer {
                    if c.is_integer { -20 } else { 200 }
                } else if field.field_type == FieldType::Float {
                    if !c.is_integer { -20 } else { 0 }
                } else {
                    0
                };
                let ghost before = row@.map_values(|x: i128| x as int);
                row.push(md + p + t);
                assert(number_views(cands@)[j as int] == c@);
                assert(row@.map_values(|x: i128| x as int) =~= before.push(
                    number_score(*field, ints_of(an@), c@, text_len as int),
                ));
                j = j + 1;
            }
        }
        let ghost before = table_view(out@);
        out.push(row);
        assert(target[f as int] =~= row@.map_values(|x: i128| x as int));
        assert(target.take(f + 1) =~= target.take(f as int).push(target[f as int]));
        assert(table_view(out@) =~= before.push(row@.map_values(|x: i128| x as int)));
        f = f + 1;
    }
    assert(target.take(fields@.len() as int) =~= target);
    assert forall|g: int| 0 <= g < out@.len() implies #[trigger] out@[g]@.len() <= cands@.len() by {
        assert(table_view(out@)[g] == out@[g]@.map_values(|x: i128| x as int));
        assert(table_view(out@)[g] == target[g]);
    }
    out
}


/// The score table of booleans.
pub fn bool_rows(
    fields: &Vec<FieldSchema>,
    anchors: &Vec<Vec<u64>>,
    cands: &Vec<BoolCand>,
    text_len: u64,
) -> (out: Vec<Vec<i128>>)
    requires
        anchors@.len() == fields@.len(),
        anchors_bounded(anchors@),
        forall|j: int| 0 <= j < cands@.len() ==> #[trigger] cands@[j].start <= MAX_TEXT_LEN,
        text_len <= MAX_TEXT_LEN,
    ensures
        table_view(out@) == bool_table(fields@, anchor_views(anchors@), bool_views(cands@), text_len as int),
        out@.len() == fields@.len(),
        forall|f: int| 0 <= f < out@.len() ==> #[trigger] out@[f]@.len() <= cands@.len(),
{
    let ghost target = bool_table(fields@, anchor_views(anchors@), bool_views(cands@), text_len as int);
    let mut out: Vec<Vec<i128>> = Vec::new();
    let mut f: usize = 0;
    while f < fields.len()
        invariant
            f <= fields@.len(),
            anchors@.len() == fields@.len(),
            anchors_bounded(anchors@),
            forall|j: int| 0 <= j < cands@.len() ==> #[trigger] cands@[j].start <= MAX_TEXT_LEN,
            text_len <= MAX_TEXT_LEN,
            target == bool_table(fields@, anchor_views(anchors@), bool_views(cands@), text_len as int),
            table_view(out@) == target.take(f as int),
        decreases fields@.len() - f,
    {
        let field = &fields[f];
        let mut row: Vec<i128> = Vec::new();
        if field.field_type == FieldType::Boolean {
            let an = &anchors[f];
            assert(anchor_views(anchors@)[f as int] == ints_of(an@));
            let mut j: usize = 0;
            while j < cands.len()
                invariant
                    j <= cands@.len(),
                    f < fields@.len(),
                    an == anchors@[f as int],
                    anchors_bounded(anchors@),
                    anchors@.len() == fields@.len(),
                    forall|k: int| 0 <= k < cands@.len() ==> #[trigger] cands@[k].start <= MAX_TEXT_LEN,
                    text_len <= MAX_TEXT_LEN,
                    row@.map_values(|x: i128| x as int) == Seq::new(
                        j as nat,
                        |k: int| anchor_distance(ints_of(an@), bool_views(cands@)[k].start, text_len as int),
                    ),
                decreases cands@.len() - j,
            {
                let c = &cands[j];
                assert(forall|i: int| 0 <= i < an@.len() ==> #[trigger] an@[i] <= MAX_TEXT_LEN) by {
                    assert forall|i: int| 0 <= i < an@.len() implies #[trigger] an@[i] <= MAX_TEXT_LEN by {
                        assert(anchors@[f as int]@[i] <= MAX_TEXT_LEN);
                    }
                }
                let md = anchor_dist(an, c.start, text_len) as i128;
                let ghost before = row@.map_values(|x: i128| x as int);
                row.push(md);
                assert(bool_views(cands@)[j as int] == c@);
                assert(row@.map_values(|x: i128| x as int) =~= before.push(
                    anchor_distance(ints_of(an@), c.start as int, text_len as int),
                ));
                j = j + 1;
            }
        }
        let ghost before = table_view(out@);
        out.push(row);
        assert(target[f as int] =~= row@.map_values(|x: i128| x as int));
        assert(target.take(f + 1) =~= target.take(f as int).push(target[f as int]));
        assert(table_view(out@) =~= before.push(row@.map_values(|x: i128| x as int)));
        f = f + 1;
    }
    assert(target.take(fields@.len() as int) =~= target);
    assert forall|g: int| 0 <= g < out@.len() implies #[trigger] out@[g]@.len() <= cands@.len() by {
        assert(table_view(out@)[g] == out@[g]@.map_values(|x: i128| x as int));
        assert(table_view(out@)[g] == target[g]);
    }
    out
}

/// The score table of strings, given the positions of the chosen numbers.
pub fn text_rows(
    fields: &Vec<FieldSchema>,
    anchors: &Vec<Vec<u64>>,
    chosen: &Vec<u64>,
    cands: &Vec<TextCand>,
    text_len: u64,
) -> (out: Vec<Vec<i128>>)
    requires
        anchors@.len() == fields@.len(),
        anchors_bounded(anchors@),
        forall|j: int| 0 <= j < cands@.len() ==> #[trigger] cands@[j].start <= MAX_TEXT_LEN,
        text_len <= MAX_TEXT_LEN,
    ensures
        table_view(out@) == text_table(
            fields@,
            anchor_views(anchors@),
            ints_of(chosen@),
            text_views(cands@),
            text_len as int,
        ),
        out@.len() == fields@.len(),
        forall|f: int| 0 <= f < out@.len() ==> #[trigger] out@[f]@.len() <= cands@.len(),
{
    let ghost target = text_table(
        fields@,
        anchor_views(anchors@),
        ints_of(chosen@),
        text_views(cands@),
        text_len as int,
    );
    let mut out: Vec<Vec<i128>> = Vec::new();
    let mut f: usize = 0;
    while f < fields.len()
        invariant
            f <= fields@.len(),
            anchors@.len() == fields@.len(),
            anchors_bounded(anchors@),
            forall|j: int| 0 <= j < cands@.len() ==> #[trigger] cands@[j].start <= MAX_TEXT_LEN,
            text_len <= MAX_TEXT_LEN,
            target == text_table(
                fields@,
                anchor_views(anchors@),
                ints_of(chosen@),
                text_views(cands@),
                text_len as int,
            ),
            table_view(out@) == target.take(f as int),
        decreases fields@.len() - f,
    {
        let field = &fields[f];
        let mut row: Vec<i128> = Vec::new();
        if field.field_type == FieldType::String {
            let an = &anchors[f];
            assert(anchor_views(anchors@)[f as int] == ints_of(an@));
            let mut j: usize = 0;
            while j < cands.len()
                invariant
                    j <= cands@.len(),
                    f < fields@.len(),
                    an == anchors@[f as int],
                    anchors_bounded(anchors@),
                    anchors@.len() == fields@.len(),
                    forall|k: int| 0 <= k < cands@.len() ==> #[trigger] cands@[k].start <= MAX_TEXT_LEN,
                    text_len <= MAX_TEXT_LEN,
                    row@.map_values(|x: i128| x as int) == Seq::new(
                        j as nat,
                        |k: int| text_score(ints_of(an@), ints_of(chosen@), text_views(cands@)[k], text_len as int),
                    ),
                decreases cands@.len() - j,
            {
                let c = &cands[j];
                assert(forall|i: int| 0 <= i < an@.len() ==> #[trigger] an@[i] <= MAX_TEXT_LEN) by {
                    assert forall|i: int| 0 <= i < an@.len() implies #[trigger] an@[i] <= MAX_TEXT_LEN by {
                        assert(anchors@[f as int]@[i] <= MAX_TEXT_LEN);
                    }
                }
                let own = anchor_dist(an, c.start, text_len) as i128;
                let near = nearest(text_len, chosen, c.start) as i128;
                let score: i128 = if an.len() == 0 {
                    near * 6
                } else {
                    own + near * 6
                };
                let ghost before = row@.map_values(|x: i128| x as int);
                row.push(score);
                assert(text_views(cands@)[j as int] == c@);
                assert(row@.map_values(|x: i128| x as int) =~= before.push(
                    text_score(ints_of(an@), ints_of(chosen@), c@, text_len as int),
                ));
                j = j + 1;
            }
        }
        let ghost before = table_view(out@);
        out.push(row);
        assert(target[f as int] =~= row@.map_values(|x: i128| x as int));
        assert(target.take(f + 1) =~= target.take(f as int).push(target[f as int]));
        assert(table_view(out@) =~= before.push(row@.map_values(|x: i128| x as int)));
        f = f + 1;
    }
    assert(target.take(fields@.len() as int) =~= target);
    assert forall|g: int| 0 <= g < out@.len() implies #[trigger] out@[g]@.len() <= cands@.len() by {
        assert(table_view(out@)[g] == out@[g]@.map_values(|x: i128| x as int));
        assert(table_view(out@)[g] == target[g]);
    }
    out
}

/// Percentages go to percentage fields: of two numbers of the same kind
/// (integer or decimal), a percentage field scores the percentage lower
/// unless it lies more than 1099 bytes further from the field's anchors,
/// and any other field scores the plain number lower unless it lies 2000
/// or more bytes further.
pub proof fn lemma_percentages_prefer_percent_fields(
    f: FieldSchema,
    anchors: Seq<int>,
    a: NumberCandidate,
    b: NumberCandidate,
    text_len: int,
)
    requires
        a.has_percent,
        !b.has_percent,
        a.is_integer == b.is_integer,
    ensures
        percent_field(f) && anchor_distance(anchors, a.start, text_len) < anchor_distance(anchors, b.start, text_len)
            + 1100 ==> number_score(f, anchors, a, text_len) < number_score(f, anchors, b, text_len),
        !percent_field(f) && anchor_distance(anchors, b.start, text_len) < anchor_distance(anchors, a.start, text_len)
            + 2000 ==> number_score(f, anchors, b, text_len) < number_score(f, anchors, a, text_len),
{
}

} // verus!
