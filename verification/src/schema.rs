//! The extraction schema: the fields a caller wants extracted.
use vstd::prelude::*;

verus! {

/// The kind of value a field holds.
#[derive(Debug, Clone, Copy, PartialEq, Eq, Structural)]
pub enum FieldType {
    String,
    Integer,
    Float,
    Boolean,
}

/// One field of an extraction schema.
#[derive(Debug, Clone)]
pub struct FieldSchema {
    pub name: String,
    pub field_type: FieldType,
    pub description: String,
    pub required: bool,
}

/// The ordered list of fields to extract.
#[derive(Debug, Clone)]
pub struct ExtractionSchema {
    pub fields: Vec<FieldSchema>,
}

/// The layers of the extraction cascade.
#[derive(Debug, Clone, Copy, PartialEq, Eq, Structural)]
pub enum ExtractionLayer {
    Gliner,
    Flan,
    Qwen,
    ProximityHeuristic,
}

/// The value extracted for one field. Numbers are kept as the decimal
/// text they were read from; `None` stands for the default `0`.
#[derive(Debug, Clone, PartialEq)]
pub enum ExtractedValue {
    Text(String),
    Integer(Option<String>),
    Float(Option<String>),
    Boolean(bool),
}

/// An extracted value, in terms of character sequences.
pub enum ValueView {
    Text(Seq<char>),
    Integer(Option<Seq<char>>),
    Float(Option<Seq<char>>),
    Boolean(bool),
}

/// A character sequence held by an optional string.
pub open spec fn opt_chars(o: Option<String>) -> Option<Seq<char>> {
    match o {
        Some(s) => Some(s@),
        None => None,
    }
}

impl View for ExtractedValue {
    type V = ValueView;

    open spec fn view(&self) -> ValueView {
        match self {
            ExtractedValue::Text(s) => ValueView::Text(s@),
            ExtractedValue::Integer(o) => ValueView::Integer(opt_chars(*o)),
            ExtractedValue::Float(o) => ValueView::Float(opt_chars(*o)),
            ExtractedValue::Boolean(b) => ValueView::Boolean(*b),
        }
    }
}

/// A field's name and the value extracted for it.
#[derive(Debug, Clone, PartialEq)]
pub struct ExtractedField {
    pub name: String,
    pub value: ExtractedValue,
}

/// An extracted field, in terms of character sequences.
pub struct FieldView {
    pub name: Seq<char>,
    pub value: ValueView,
}

impl View for ExtractedField {
    type V = FieldView;

    open spec fn view(&self) -> FieldView {
        FieldView { name: self.name@, value: self.value@ }
    }
}

/// The views of extracted fields.
pub open spec fn field_views(v: Seq<ExtractedField>) -> Seq<FieldView> {
    v.map_values(|f: ExtractedField| f@)
}

} // verus!
