//! What a GLiNER span is worth for the schema, and the final object.
use vstd::prelude::*;
use crate::schema::{
    opt_chars, ExtractedField, ExtractedValue, ExtractionSchema, FieldSchema, FieldType, FieldView,
    ValueView, field_views,
};
use crate::text::{bytes_len, bytes_len_capped, chars_eq, chars_to_string, lowercase_chars, lowercase_of, str_chars, sub_chars, trim, trim_chars};
use crate::proximity::words::{decimal_parses, parses_as_decimal};
use crate::gliner::quotes::{bool_reading, expand_to_quote, is_span_quoted, parse_bool, quote_expansion, span_quoted, span_quoted_defined};
use crate::gliner::context::{calculate_context_boost, context_defined, context_terms};
use crate::gliner::labels::{label_target, lookup_label, pairs_view};

verus! {

/// What `regex::Regex::new(pattern)` followed by `find(text)` gives: `None`
/// when the pattern does not compile, else the text of the leftmost-first
/// match, if any.
pub uninterp spec fn regex_first_match(pattern: Seq<char>, text: Seq<char>) -> Option<Option<Seq<char>>>;

/// The text of an optional optional match.
pub open spec fn opt_opt_chars(o: Option<Option<String>>) -> Option<Option<Seq<char>>> {
    match o {
        Some(m) => Some(opt_chars(m)),
        None => None,
    }
}

/// Compiles `pattern` with `regex::Regex::new` and returns the text of the
/// first match of `regex::Regex::find` in `text`; `None` when the pattern
/// does not compile. The result is named `regex_first_match`.
#[verifier::external_body]
fn regex_find(pattern: &str, text: &str) -> (r: Option<Option<String>>)
    ensures
        opt_opt_chars(r) == regex_first_match(pattern@, text@),
{
    match regex::Regex::new(pattern) {
        Ok(re) => Some(re.find(text).map(|m| m.as_str().to_string())),
        Err(_) => None,
    }
}

/// The pattern of a number in a span: an optional `-`, digits, and an
/// optional fraction.
pub open spec fn number_pattern() -> Seq<char> {
    "-?\\d+(?:\\.\\d+)?"@
}

/// The number read from a span's text: the first match of the number
/// pattern, when it parses as a decimal (its digits are ASCII).
pub open spec fn number_reading(t: Seq<char>) -> Option<Seq<char>> {
    match regex_first_match(number_pattern(), t) {
        Some(Some(m)) => if decimal_parses(m) {
            Some(m)
        } else {
            None
        },
        _ => None,
    }
}

/// Reads a number from a span's text, as its decimal text.
pub fn parse_number(text: &str) -> (r: Option<String>)
    ensures
        opt_chars(r) == number_reading(text@),
{
    match regex_find("-?\\d+(?:\\.\\d+)?", text) {
        Some(Some(m)) => {
            if parses_as_decimal(&str_chars(m.as_str())) {
                Some(m)
            } else {
                None
            }
        },
        _ => None,
    }
}

/// The index of the first field named `name`.
pub open spec fn first_field_named(fields: Seq<FieldSchema>, name: Seq<char>) -> Option<int>
    decreases fields.len(),
{
    if fields.len() == 0 {
        None
    } else {
        match first_field_named(fields.drop_last(), name) {
            Some(i) => Some(i),
            None => if fields.last().name@ == name {
                Some(fields.len() - 1)
            } else {
                None
            },
        }
    }
}

/// Span texts too generic to be values.
pub open spec fn ignored_span_text(t: Seq<char>) -> bool {
    t == "item"@ || t == "product"@ || t == "system"@ || t == "system log"@
}

/// `s` without one pair of surrounding `"` or `'` quotes. Both quotes are
/// one byte, so a byte-length test `len >= 2` holds exactly when there
/// are two characters, and the byte slice `[1..len-1]` is this character
/// range.
pub open spec fn strip_outer_quotes(s: Seq<char>) -> Seq<char> {
    if s.len() > 0 && ((s[0] == '"' && s.last() == '"') || (s[0] == '\'' && s.last() == '\'')) {
        if s.len() >= 2 {
            s.subrange(1, s.len() - 1)
        } else {
            s
        }
    } else {
        s
    }
}

/// The value a span's (trimmed) text gives for a field: a string field
/// takes the quotation the span widens to (or the text) without outer
/// quotes; numeric fields take the number read from the text; boolean
/// fields take the boolean read from it.
pub open spec fn span_value(input: Seq<char>, f: FieldSchema, cleaned: Seq<char>, s: int, e: int) -> Option<
    ValueView,
> {
    match f.field_type {
        FieldType::String => Some(
            ValueView::Text(
                strip_outer_quotes(
                    match quote_expansion(input, s, e) {
                        Some(x) => x,
                        None => cleaned,
                    },
                ),
            ),
        ),
        FieldType::Integer => match number_reading(cleaned) {
            Some(m) => Some(ValueView::Integer(Some(m))),
            None => None,
        },
        FieldType::Float => match number_reading(cleaned) {
            Some(m) => Some(ValueView::Float(Some(m))),
            None => None,
        },
        FieldType::Boolean => match bool_reading(cleaned) {
            Some(b) => Some(ValueView::Boolean(b)),
            None => None,
        },
    }
}

/// A span that gives a value for a field, with what its score depends on
/// besides the model's probability: whether its label maps exactly to the
/// field, whether it is quoted (for string fields), and its context
/// increments in hundredths (for string fields).
pub struct SpanCandidateView {
    pub field: int,
    pub value: ValueView,
    pub exact: bool,
    pub quoted: bool,
    pub context: Seq<int>,
}

/// What a span is worth.
pub enum SpanReadingView {
    Ignored,
    Found(SpanCandidateView),
    Undefined,
}

/// What a span of class `class` and text `text` at `[s, e)` is worth: it
/// is ignored when its label fills no field of the schema, when its
/// trimmed lowercased text is generic, or when it gives no value; it is
/// undefined where the quote or context checks would read outside the
/// text.
pub open spec fn span_reading(
    input: Seq<char>,
    fields: Seq<FieldSchema>,
    ins: Seq<(Seq<char>, Seq<char>)>,
    class: Seq<char>,
    text: Seq<char>,
    s: int,
    e: int,
) -> SpanReadingView {
    match label_target(ins, class) {
        None => SpanReadingView::Ignored,
        Some(fname) => match first_field_named(fields, fname) {
            None => SpanReadingView::Ignored,
            Some(fi) => {
                let f = fields[fi];
                let cleaned = trim(text);
                if ignored_span_text(lowercase_of(cleaned)) {
                    SpanReadingView::Ignored
                } else {
                    match span_value(input, f, cleaned, s, e) {
                        None => SpanReadingView::Ignored,
                        Some(v) => if !span_quoted_defined(input, s, e) || (f.field_type
                            == FieldType::String && !context_defined(input, s, e)) {
                            SpanReadingView::Undefined
                        } else {
                            SpanReadingView::Found(
                                SpanCandidateView {
                                    field: fi,
                                    value: v,
                                    exact: label_target(ins, class) == Some(f.name@),
                                    quoted: span_quoted(input, s, e) && f.field_type == FieldType::String,
                                    context: if f.field_type == FieldType::String {
                                        context_terms(input, s, e)
                                    } else {
                                        seq![]
                                    },
                                },
                            )
                        },
                    }
                }
            },
        },
    }
}

/// A span that gives a value for a field.
pub struct SpanCandidate {
    pub field: usize,
    pub value: ExtractedValue,
    pub exact: bool,
    pub quoted: bool,
    pub context: Vec<i32>,
}

/// What a span is worth.
pub enum SpanReading {
    Ignored,
    Found(SpanCandidate),
    Undefined,
}

impl View for SpanReading {
    type V = SpanReadingView;

    open spec fn view(&self) -> SpanReadingView {
        match self {
            SpanReading::Ignored => SpanReadingView::Ignored,
            SpanReading::Undefined => SpanReadingView::Undefined,
            SpanReading::Found(c) => SpanReadingView::Found(
                SpanCandidateView {
                    field: c.field as int,
                    value: c.value@,
                    exact: c.exact,
                    quoted: c.quoted,
                    context: c.context@.map_values(|x: i32| x as int),
                },
            ),
        }
    }
}

/// The index of the first field named `name`.
fn find_field_named(fields: &Vec<FieldSchema>, name: &String) -> (r: Option<usize>)
    ensures
        match r {
            Some(i) => first_field_named(fields@, name@) == Some(i as int) && i < fields@.len(),
            None => first_field_named(fields@, name@) is None,
        },
{
    let mut i: usize = 0;
    while i < fields.len()
        invariant
            i <= fields@.len(),
            first_field_named(fields@.take(i as int), name@) is None,
        decreases fields@.len() - i,
    {
        assert(fields@.take(i + 1).drop_last() =~= fields@.take(i as int));
        if fields[i].name == *name {
            proof {
                lemma_first_field_named_prefix(fields@, name@, i as int + 1);
            }
            return Some(i);
        }
        i = i + 1;
    }
    assert(fields@.take(fields@.len() as int) =~= fields@);
    None
}

proof fn lemma_first_field_named_prefix(fields: Seq<FieldSchema>, name: Seq<char>, n: int)
    requires
        0 <= n <= fields.len(),
        first_field_named(fields.take(n), name) is Some,
    ensures
        first_field_named(fields, name) == first_field_named(fields.take(n), name),
    decreases fields.len() - n,
{
    if n < fields.len() {
        assert(fields.take(n + 1).drop_last() =~= fields.take(n));
        lemma_first_field_named_prefix(fields, name, n + 1);
    } else {
        assert(fields.take(n) =~= fields);
    }
}

/// The value a span's trimmed text gives for a field.
fn read_value(input: &str, f: &FieldSchema, cleaned: &Vec<char>, span_start: usize, span_end: usize) -> (r: Option<ExtractedValue>)
    ensures
        match r {
            Some(v) => span_value(input@, *f, cleaned@, span_start as int, span_end as int) == Some(v@),
            None => span_value(input@, *f, cleaned@, span_start as int, span_end as int) is None,
        },
{
    let cs = chars_to_string(cleaned);
    match f.field_type {
        FieldType::String => {
            let base = match expand_to_quote(input, span_start, span_end) {
                Some(x) => str_chars(x.as_str()),
                None => sub_chars(cleaned, 0, cleaned.len()),
            };
            assert(cleaned@.subrange(0, cleaned@.len() as int) =~= cleaned@);
            let n = base.len();
            let quoted_ends = n > 0 && ((base[0] == '"' && base[n - 1] == '"') || (base[0] == '\''
                && base[n - 1] == '\''));
            let stripped = if quoted_ends && n >= 2 {
                sub_chars(&base, 1, n - 1)
            } else {
                base
            };
            Some(ExtractedValue::Text(chars_to_string(&stripped)))
        },
        FieldType::Integer => match parse_number(cs.as_str()) {
            Some(m) => Some(ExtractedValue::Integer(Some(m))),
            None => None,
        },
        FieldType::Float => match parse_number(cs.as_str()) {
            Some(m) => Some(ExtractedValue::Float(Some(m))),
            None => None,
        },
        FieldType::Boolean => match parse_bool(cs.as_str()) {
            Some(b) => Some(ExtractedValue::Boolean(b)),
            None => None,
        },
    }
}

/// What a span returned by the model is worth for the schema.
pub fn read_span(
    input: &str,
    schema: &ExtractionSchema,
    targets: &Vec<(String, String)>,
    class: &String,
    text: &str,
    span_start: usize,
    span_end: usize,
) -> (r: SpanReading)
    ensures
        r@ == span_reading(
            input@,
            schema.fields@,
            pairs_view(targets@),
            class@,
            text@,
            span_start as int,
            span_end as int,
        ),
{
    let fname = match lookup_label(targets, class) {
        Some(n) => n,
        None => {
            return SpanReading::Ignored;
        },
    };
    let fi = match find_field_named(&schema.fields, &fname) {
        Some(i) => i,
        None => {
            return SpanReading::Ignored;
        },
    };
    let f = &schema.fields[fi];
    let cleaned = trim_chars(&str_chars(text));
    let lc = lowercase_chars(chars_to_string(&cleaned).as_str());
    if chars_eq(&lc, &str_chars("item")) || chars_eq(&lc, &str_chars("product")) || chars_eq(
        &lc,
        &str_chars("system"),
    ) || chars_eq(&lc, &str_chars("system log")) {
        return SpanReading::Ignored;
    }
    let value = match read_value(input, f, &cleaned, span_start, span_end) {
        Some(v) => v,
        None => {
            return SpanReading::Ignored;
        },
    };
    let n = str_chars(input).len();
    if span_start > 0 && span_end < n && span_start > n {
        return SpanReading::Undefined;
    }
    let is_string = f.field_type == FieldType::String;
    let quoted = is_span_quoted(input, span_start, span_end);
    let context = if is_string {
        match calculate_context_boost(input, span_start, span_end) {
            Some(t) => t,
            None => {
                return SpanReading::Undefined;
            },
        }
    } else {
        Vec::new()
    };
    let exact = match lookup_label(targets, class) {
        Some(n) => n == f.name,
        None => false,
    };
    assert(context@.map_values(|x: i32| x as int) =~= (if is_string {
        context_terms(input@, span_start as int, span_end as int)
    } else {
        seq![]
    }));
    SpanReading::Found(SpanCandidate { field: fi, value, exact, quoted: quoted && is_string, context })
}

/// The value of a field no span filled: `unknown` for a required string
/// field, the empty string for another, zero, or `false`.
pub open spec fn default_value(f: FieldSchema) -> ValueView {
    match f.field_type {
        FieldType::String => ValueView::Text(
            if f.required {
                "unknown"@
            } else {
                Seq::<char>::empty()
            },
        ),
        FieldType::Integer => ValueView::Integer(None),
        FieldType::Float => ValueView::Float(None),
        FieldType::Boolean => ValueView::Boolean(false),
    }
}

/// The value picked for a field name: the first entry with that name.
pub open spec fn picked_for(picked: Seq<(Seq<char>, ValueView)>, name: Seq<char>) -> Option<ValueView>
    decreases picked.len(),
{
    if picked.len() == 0 {
        None
    } else if picked[0].0 == name {
        Some(picked[0].1)
    } else {
        picked_for(picked.drop_first(), name)
    }
}

/// Field `i` of the object: its picked value (a repeated field name gets
/// it only at its first field) or its default.
pub open spec fn gliner_field(fields: Seq<FieldSchema>, picked: Seq<(Seq<char>, ValueView)>, i: int) -> FieldView {
    FieldView {
        name: fields[i].name@,
        value: match picked_for(picked, fields[i].name@) {
            Some(v) => if first_field_named(fields, fields[i].name@) == Some(i) {
                v
            } else {
                default_value(fields[i])
            },
            None => default_value(fields[i]),
        },
    }
}

/// The object GLiNER's best spans give: none when a required field has no
/// value (the cascade then moves on); otherwise each field in schema
/// order with its picked value (a repeated field name gets it only at its
/// first field) or its default.
pub open spec fn gliner_result(fields: Seq<FieldSchema>, picked: Seq<(Seq<char>, ValueView)>) -> Option<
    Seq<FieldView>,
> {
    if exists|i: int| 0 <= i < fields.len() && #[trigger] fields[i].required && picked_for(picked, fields[i].name@) is None {
        None
    } else {
        Some(Seq::new(fields.len(), |i: int| gliner_field(fields, picked, i)))
    }
}

/// The views of picked values.
pub open spec fn picked_view(v: Seq<(String, ExtractedValue)>) -> Seq<(Seq<char>, ValueView)> {
    v.map_values(|p: (String, ExtractedValue)| (p.0@, p.1@))
}

/// A copy of a value.
pub fn copy_value(v: &ExtractedValue) -> (r: ExtractedValue)
    ensures
        r@ == v@,
{
    match v {
        ExtractedValue::Text(s) => ExtractedValue::Text(s.clone()),
        ExtractedValue::Integer(o) => ExtractedValue::Integer(
            match o {
                Some(s) => Some(s.clone()),
                None => None,
            },
        ),
        ExtractedValue::Float(o) => ExtractedValue::Float(
            match o {
                Some(s) => Some(s.clone()),
                None => None,
            },
        ),
        ExtractedValue::Boolean(b) => ExtractedValue::Boolean(*b),
    }
}

/// The default value of a field.
pub fn default_for(f: &FieldSchema) -> (r: ExtractedValue)
    ensures
        r@ == default_value(*f),
{
    match f.field_type {
        FieldType::String => if f.required {
            ExtractedValue::Text(String::from_str("unknown"))
        } else {
            ExtractedValue::Text(String::new())
        },
        FieldType::Integer => ExtractedValue::Integer(None),
        FieldType::Float => ExtractedValue::Float(None),
        FieldType::Boolean => ExtractedValue::Boolean(false),
    }
}

/// The value picked for a name.
fn find_picked(picked: &Vec<(String, ExtractedValue)>, name: &String) -> (r: Option<ExtractedValue>)
    ensures
        match r {
            Some(v) => picked_for(picked_view(picked@), name@) == Some(v@),
            None => picked_for(picked_view(picked@), name@) is None,
        },
{
    let ghost pv = picked_view(picked@);
    assert(pv.skip(0) =~= pv);
    let mut i: usize = 0;
    while i < picked.len()
        invariant
            i <= picked@.len(),
            pv == picked_view(picked@),
            picked_for(pv, name@) == picked_for(pv.skip(i as int), name@),
        decreases picked@.len() - i,
    {
        assert(pv.skip(i as int)[0] == (picked@[i as int].0@, picked@[i as int].1@));
        assert(pv.skip(i as int).drop_first() =~= pv.skip(i + 1));
        if picked[i].0 == *name {
            return Some(copy_value(&picked[i].1));
        }
        i = i + 1;
    }
    None
}

/// Builds the object from the values picked per field name (the best span
/// of each field); `None` when a required field has no value.
pub fn gliner_assemble(schema: &ExtractionSchema, picked: &Vec<(String, ExtractedValue)>) -> (r: Option<Vec<ExtractedField>>)
    ensures
        match r {
            Some(v) => gliner_result(schema.fields@, picked_view(picked@)) == Some(field_views(v@)),
            None => gliner_result(schema.fields@, picked_view(picked@)) is None,
        },
{
    let fields = &schema.fields;
    let ghost pv = picked_view(picked@);
    let mut i: usize = 0;
    while i < fields.len()
        invariant
            i <= fields@.len(),
            fields@ == schema.fields@,
            pv == picked_view(picked@),
            forall|j: int| 0 <= j < i ==> !(#[trigger] fields@[j].required && picked_for(pv, fields@[j].name@) is None),
        decreases fields@.len() - i,
    {
        if fields[i].required && find_picked(picked, &fields[i].name).is_none() {
            assert(fields@[i as int].required && picked_for(pv, fields@[i as int].name@) is None);
            assert(gliner_result(fields@, pv) is None);
            return None;
        }
        i = i + 1;
    }
    let ghost target = Seq::new(fields@.len(), |i: int| gliner_field(fields@, pv, i));
    assert(gliner_result(fields@, pv) == Some(target));
    let mut out: Vec<ExtractedField> = Vec::new();
    let mut i: usize = 0;
    while i < fields.len()
        invariant
            i <= fields@.len(),
            pv == picked_view(picked@),
            field_views(out@) == target.take(i as int),
            target.len() == fields@.len(),
            target == Seq::new(fields@.len(), |k: int| gliner_field(fields@, pv, k)),
        decreases fields@.len() - i,
    {
        let f = &fields[i];
        let value = match find_picked(picked, &f.name) {
            Some(v) => {
                let first = find_field_named(fields, &f.name);
                if first == Some(i) {
                    v
                } else {
                    default_for(f)
                }
            },
            None => default_for(f),
        };
        let ghost before = field_views(out@);
        out.push(ExtractedField { name: f.name.clone(), value });
        assert(field_views(out@) =~= before.push(target[i as int]));
        assert(target.take(i + 1) =~= target.take(i as int).push(target[i as int]));
        i = i + 1;
    }
    assert(target.take(fields@.len() as int) =~= target);
    Some(out)
}

/// GLiNER's spans give an object only when every required field has a
/// picked value; then it answers every field in schema order under its
/// name.
pub proof fn lemma_gliner_required_present(fields: Seq<FieldSchema>, picked: Seq<(Seq<char>, ValueView)>)
    ensures
        gliner_result(fields, picked) matches Some(v) ==> v.len() == fields.len() && forall|i: int|
            0 <= i < fields.len() ==> (#[trigger] fields[i].required ==> picked_for(picked, fields[i].name@) is Some)
                && v[i].name == fields[i].name@,
{
}

/// Some span of `readings` is accepted for field `i`.
pub open spec fn accepted_for(readings: Seq<SpanReadingView>, i: int) -> bool {
    exists|k: int| 0 <= k < readings.len() && (#[trigger] readings[k] matches SpanReadingView::Found(c) && c.field == i)
}

/// The picked values cover exactly the fields that some span was accepted
/// for (the best of them is kept for each such field).
pub open spec fn picks_accepted(
    fields: Seq<FieldSchema>,
    readings: Seq<SpanReadingView>,
    picked: Seq<(Seq<char>, ValueView)>,
) -> bool {
    forall|i: int| 0 <= i < fields.len() ==> (picked_for(picked, #[trigger] fields[i].name@) is Some <==> accepted_for(readings, i))
}

/// GLiNER's spans give no object exactly when some required field has no
/// accepted span.
pub proof fn lemma_gliner_none_iff_required_missing(
    fields: Seq<FieldSchema>,
    readings: Seq<SpanReadingView>,
    picked: Seq<(Seq<char>, ValueView)>,
)
    requires
        picks_accepted(fields, readings, picked),
    ensures
        gliner_result(fields, picked) is None <==> exists|i: int| 0 <= i < fields.len() && #[trigger] fields[i].required
            && !accepted_for(readings, i),
{
    if gliner_result(fields, picked) is None {
        let i = choose|i: int| 0 <= i < fields.len() && #[trigger] fields[i].required && picked_for(picked, fields[i].name@) is None;
        assert(fields[i].required && !accepted_for(readings, i));
    }
    if exists|i: int| 0 <= i < fields.len() && #[trigger] fields[i].required && !accepted_for(readings, i) {
        let i = choose|i: int| 0 <= i < fields.len() && #[trigger] fields[i].required && !accepted_for(readings, i);
        assert(picked_for(picked, fields[i].name@) is None);
    }
}

/// In GLiNER's object, an optional field with no accepted span gets its
/// type's default: the empty string, zero, or `false`.
pub proof fn lemma_gliner_optional_default(
    fields: Seq<FieldSchema>,
    readings: Seq<SpanReadingView>,
    picked: Seq<(Seq<char>, ValueView)>,
    i: int,
)
    requires
        picks_accepted(fields, readings, picked),
        0 <= i < fields.len(),
        !fields[i].required,
        !accepted_for(readings, i),
        gliner_result(fields, picked) is Some,
    ensures
        gliner_result(fields, picked)->0[i].value == match fields[i].field_type {
            FieldType::String => ValueView::Text(Seq::<char>::empty()),
            FieldType::Integer => ValueView::Integer(None),
            FieldType::Float => ValueView::Float(None),
            FieldType::Boolean => ValueView::Boolean(false),
        },
{
    assert(picked_for(picked, fields[i].name@) is None);
}

/// A numeric or boolean field's value depends on the span's text alone,
/// not on the rest of the input or the span's place in it; a number is
/// the first match of the number pattern in that text.
pub proof fn lemma_span_value_from_text_alone(
    input1: Seq<char>,
    input2: Seq<char>,
    f: FieldSchema,
    t: Seq<char>,
    s1: int,
    e1: int,
    s2: int,
    e2: int,
)
    requires
        f.field_type != FieldType::String,
    ensures
        span_value(input1, f, t, s1, e1) == span_value(input2, f, t, s2, e2),
        span_value(input1, f, t, s1, e1) matches Some(ValueView::Integer(Some(m))) ==> regex_first_match(
            "-?\\d+(?:\\.\\d+)?"@,
            t,
        ) == Some(Some(m)),
        span_value(input1, f, t, s1, e1) matches Some(ValueView::Float(Some(m))) ==> regex_first_match(
            "-?\\d+(?:\\.\\d+)?"@,
            t,
        ) == Some(Some(m)),
        span_value(input1, f, t, s1, e1) is Some ==> f.field_type == FieldType::Integer ==> span_value(
            input1,
            f,
            t,
            s1,
            e1,
        ) matches Some(ValueView::Integer(Some(_))),
        span_value(input1, f, t, s1, e1) is Some ==> f.field_type == FieldType::Float ==> span_value(
            input1,
            f,
            t,
            s1,
            e1,
        ) matches Some(ValueView::Float(Some(_))),
{
}

/// The value a span gives a numeric field is the first number in the
/// span's own trimmed text, whatever the rest of the input holds.
pub proof fn lemma_span_number_from_span_text(
    input: Seq<char>,
    fields: Seq<FieldSchema>,
    ins: Seq<(Seq<char>, Seq<char>)>,
    class: Seq<char>,
    text: Seq<char>,
    s: int,
    e: int,
)
    ensures
        span_reading(input, fields, ins, class, text, s, e) matches SpanReadingView::Found(c) ==> 0 <= c.field
            < fields.len(),
        span_reading(input, fields, ins, class, text, s, e) matches SpanReadingView::Found(c) ==> (
        fields[c.field].field_type == FieldType::Integer ==> (c.value matches ValueView::Integer(Some(m))
            && regex_first_match("-?\\d+(?:\\.\\d+)?"@, trim(text)) == Some(Some(m)))),
        span_reading(input, fields, ins, class, text, s, e) matches SpanReadingView::Found(c) ==> (
        fields[c.field].field_type == FieldType::Float ==> (c.value matches ValueView::Float(Some(m))
            && regex_first_match("-?\\d+(?:\\.\\d+)?"@, trim(text)) == Some(Some(m)))),
{
    match label_target(ins, class) {
        None => {},
        Some(fname) => {
            lemma_first_field_named_bounds(fields, fname);
        },
    }
}

proof fn lemma_first_field_named_bounds(fields: Seq<FieldSchema>, name: Seq<char>)
    ensures
        first_field_named(fields, name) matches Some(i) ==> 0 <= i < fields.len() && fields[i].name@ == name
            && forall|j: int| 0 <= j < i ==> #[trigger] fields[j].name@ != name,
        first_field_named(fields, name) is None ==> forall|j: int| 0 <= j < fields.len() ==> #[trigger] fields[j].name@ != name,
    decreases fields.len(),
{
    if fields.len() > 0 {
        lemma_first_field_named_bounds(fields.drop_last(), name);
        assert forall|j: int| 0 <= j < fields.len() - 1 implies #[trigger] fields[j] == fields.drop_last()[j] by {}
    }
}

proof fn lemma_picked_for_first(picked: Seq<(Seq<char>, ValueView)>, name: Seq<char>, k: int)
    requires
        0 <= k < picked.len(),
        picked[k].0 == name,
        forall|k2: int| 0 <= k2 < k ==> #[trigger] picked[k2].0 != name,
    ensures
        picked_for(picked, name) == Some(picked[k].1),
    decreases k,
{
    if k > 0 {
        assert forall|k2: int| 0 <= k2 < k - 1 implies #[trigger] picked.drop_first()[k2].0 != name by {
            assert(picked.drop_first()[k2] == picked[k2 + 1]);
        }
        lemma_picked_for_first(picked.drop_first(), name, k - 1);
    }
}

/// A picked value is never replaced: when the object is given, the first
/// field of a name with a picked value holds the first value picked for
/// that name, whatever the field's type.
pub proof fn lemma_gliner_keeps_picked(
    fields: Seq<FieldSchema>,
    picked: Seq<(Seq<char>, ValueView)>,
    i: int,
    k: int,
)
    requires
        0 <= i < fields.len(),
        forall|j: int| 0 <= j < i ==> #[trigger] fields[j].name@ != fields[i].name@,
        0 <= k < picked.len(),
        picked[k].0 == fields[i].name@,
        forall|k2: int| 0 <= k2 < k ==> #[trigger] picked[k2].0 != fields[i].name@,
        gliner_result(fields, picked) is Some,
    ensures
        gliner_result(fields, picked)->0[i].name == fields[i].name@,
        gliner_result(fields, picked)->0[i].value == picked[k].1,
{
    lemma_picked_for_first(picked, fields[i].name@, k);
    lemma_first_field_named_bounds(fields, fields[i].name@);
    let r = first_field_named(fields, fields[i].name@);
    assert(r == Some(i)) by {
        if r is None {
            assert(fields[i].name@ != fields[i].name@);
        } else {
            let w = r->0;
            if w < i {
                assert(fields[w].name@ != fields[i].name@);
            } else if w > i {
                assert(fields[i].name@ != fields[i].name@);
            }
        }
    }
}

} // verus!
