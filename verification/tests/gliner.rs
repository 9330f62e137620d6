use structured_json_pipeline::gliner::context::calculate_context_boost;
use structured_json_pipeline::gliner::labels::{gliner_labels, lookup_label};
use structured_json_pipeline::gliner::quotes::{expand_to_quote, is_span_quoted, parse_bool};
use structured_json_pipeline::gliner::spans::{
    default_for, gliner_assemble, parse_number, read_span, SpanReading,
};
use structured_json_pipeline::schema::{
    ExtractedField, ExtractedValue, ExtractionSchema, FieldSchema, FieldType,
};

fn field(name: &str, field_type: FieldType, description: &str, required: bool) -> FieldSchema {
    FieldSchema {
        name: name.to_string(),
        field_type,
        description: description.to_string(),
        required,
    }
}

fn purchase_schema() -> ExtractionSchema {
    ExtractionSchema {
        fields: vec![
            field("product", FieldType::String, "the name of the product being purchased", true),
            field("price", FieldType::Float, "the base price of the item before tax", true),
            field("tax", FieldType::Float, "the tax or processing fee percentage rate", true),
        ],
    }
}

const ORDER: &str = "order a 'lentils' for 1.57 and apply 8.0% processing tax.";

#[test]
fn parse_bool_reads_words_and_digits() {
    assert_eq!(parse_bool("Yes"), Some(true));
    assert_eq!(parse_bool("TRUE"), Some(true));
    assert_eq!(parse_bool("1"), Some(true));
    assert_eq!(parse_bool("false"), Some(false));
    assert_eq!(parse_bool("0"), Some(false));
    assert_eq!(parse_bool("nothing"), Some(false));
    assert_eq!(parse_bool("maybe"), None);
    assert_eq!(parse_bool("10"), None);
}

#[test]
fn span_between_quotes_is_quoted() {
    assert!(is_span_quoted("buy 'milk' now", 5, 9));
}

#[test]
fn span_holding_its_quotes_is_quoted() {
    assert!(is_span_quoted("buy 'milk' now", 4, 10));
    assert!(is_span_quoted("buy `milk` now", 4, 10));
}

#[test]
fn plain_span_is_not_quoted() {
    assert!(!is_span_quoted("buy 'milk' now", 0, 3));
    assert!(!is_span_quoted("buy 'milk\" now", 5, 9));
}

#[test]
fn expand_to_quote_widens_to_the_quotation() {
    assert_eq!(expand_to_quote(ORDER, 9, 16), Some("lentils".to_string()));
    assert_eq!(expand_to_quote(ORDER, 10, 12), Some("lentils".to_string()));
}

#[test]
fn expand_to_quote_trims_and_skips_blank() {
    assert_eq!(expand_to_quote("a '  ' then \" big box \" here", 4, 6), None);
    assert_eq!(expand_to_quote("a '  ' then \" big box \" here", 14, 17), Some("big box".to_string()));
}

#[test]
fn expand_to_quote_ignores_apostrophes_inside_words() {
    assert_eq!(expand_to_quote("don't buy it", 6, 9), None);
}

#[test]
fn expand_to_quote_without_quotes() {
    assert_eq!(expand_to_quote("no quotes here", 3, 9), None);
}

#[test]
fn context_boost_rewards_purchase_words() {
    assert_eq!(calculate_context_boost("we bought 'milk' today", 11, 15), Some(vec![15]));
    assert_eq!(calculate_context_boost(ORDER, 9, 16), Some(vec![15]));
}

#[test]
fn context_boost_penalises_distractors() {
    assert_eq!(
        calculate_context_boost("search for keyword 'shoes' in stock", 20, 25),
        Some(vec![-30, -30, -20])
    );
}

#[test]
fn context_boost_outside_the_text_is_refused() {
    assert_eq!(calculate_context_boost("abc", 5, 6), None);
    assert_eq!(calculate_context_boost("\u{e9} x", 1, 2), None);
}

#[test]
fn labels_of_the_purchase_schema() {
    let l = gliner_labels(&purchase_schema());
    let expected: Vec<String> = vec![
        "the name of the product being purchased",
        "purchased product",
        "ordered product",
        "purchased item",
        "ordered item",
        "product name",
        "item name",
        "price",
        "the base price of the item before tax",
        "tax rate",
        "tax percentage",
        "tax percent",
        "sales tax",
        "processing fee",
        "processing fees",
        "fee",
        "tax",
        "the tax or processing fee percentage rate",
    ]
    .into_iter()
    .map(|s| s.to_string())
    .collect();
    assert_eq!(l.labels, expected);
}

#[test]
fn later_alias_insertions_win() {
    let l = gliner_labels(&purchase_schema());
    assert_eq!(lookup_label(&l.targets, &"tax rate".to_string()), Some("tax".to_string()));
    assert_eq!(lookup_label(&l.targets, &"price".to_string()), Some("price".to_string()));
    assert_eq!(lookup_label(&l.targets, &"product name".to_string()), Some("product".to_string()));
    assert_eq!(lookup_label(&l.targets, &"product".to_string()), None);
}

#[test]
fn generic_name_without_other_labels_is_kept() {
    let schema = ExtractionSchema { fields: vec![field("item", FieldType::Boolean, "", false)] };
    let l = gliner_labels(&schema);
    assert_eq!(l.labels, vec!["item".to_string()]);
}

#[test]
fn parse_number_takes_the_first_number() {
    assert_eq!(parse_number("about 12.5 kg"), Some("12.5".to_string()));
    assert_eq!(parse_number("-3 units"), Some("-3".to_string()));
    assert_eq!(parse_number("1.2.3"), Some("1.2".to_string()));
    assert_eq!(parse_number("8.0%"), Some("8.0".to_string()));
    assert_eq!(parse_number("none"), None);
}

#[test]
fn read_span_of_a_quoted_product() {
    let schema = purchase_schema();
    let l = gliner_labels(&schema);
    let r = read_span(ORDER, &schema, &l.targets, &"purchased product".to_string(), "lentils", 9, 16);
    match r {
        SpanReading::Found(c) => {
            assert_eq!(c.field, 0);
            assert_eq!(c.value, ExtractedValue::Text("lentils".to_string()));
            assert!(c.exact);
            assert!(c.quoted);
            assert_eq!(c.context, vec![15]);
        }
        _ => panic!("expected a candidate"),
    }
}

#[test]
fn read_span_of_a_rate() {
    let schema = purchase_schema();
    let l = gliner_labels(&schema);
    let r = read_span(ORDER, &schema, &l.targets, &"tax rate".to_string(), " 8.0% ", 37, 41);
    match r {
        SpanReading::Found(c) => {
            assert_eq!(c.field, 2);
            assert_eq!(c.value, ExtractedValue::Float(Some("8.0".to_string())));
            assert!(!c.quoted);
            assert!(c.context.is_empty());
        }
        _ => panic!("expected a candidate"),
    }
}

#[test]
fn read_span_ignores_unknown_labels_and_generic_text() {
    let schema = purchase_schema();
    let l = gliner_labels(&schema);
    let unknown = read_span(ORDER, &schema, &l.targets, &"colour".to_string(), "lentils", 9, 16);
    assert!(matches!(unknown, SpanReading::Ignored));
    let generic = read_span(ORDER, &schema, &l.targets, &"purchased product".to_string(), " Product ", 9, 16);
    assert!(matches!(generic, SpanReading::Ignored));
    let no_number = read_span(ORDER, &schema, &l.targets, &"tax rate".to_string(), "tax", 54, 57);
    assert!(matches!(no_number, SpanReading::Ignored));
}

#[test]
fn read_span_outside_the_text_is_undefined() {
    let schema = purchase_schema();
    let l = gliner_labels(&schema);
    let r = read_span("order 'x'", &schema, &l.targets, &"purchased product".to_string(), "x", 200, 201);
    assert!(matches!(r, SpanReading::Undefined));
}

#[test]
fn assemble_requires_every_required_field() {
    let schema = purchase_schema();
    let picked = vec![
        ("product".to_string(), ExtractedValue::Text("milk".to_string())),
        ("price".to_string(), ExtractedValue::Float(Some("6.03".to_string()))),
    ];
    assert_eq!(gliner_assemble(&schema, &picked), None);
}

#[test]
fn assemble_in_schema_order_with_defaults() {
    let schema = ExtractionSchema {
        fields: vec![
            field("product", FieldType::String, "", true),
            field("note", FieldType::String, "", false),
            field("count", FieldType::Integer, "", false),
            field("paid", FieldType::Boolean, "", false),
        ],
    };
    let picked = vec![
        ("count".to_string(), ExtractedValue::Integer(Some("3".to_string()))),
        ("product".to_string(), ExtractedValue::Text("milk".to_string())),
    ];
    assert_eq!(
        gliner_assemble(&schema, &picked),
        Some(vec![
            ExtractedField { name: "product".to_string(), value: ExtractedValue::Text("milk".to_string()) },
            ExtractedField { name: "note".to_string(), value: ExtractedValue::Text(String::new()) },
            ExtractedField { name: "count".to_string(), value: ExtractedValue::Integer(Some("3".to_string())) },
            ExtractedField { name: "paid".to_string(), value: ExtractedValue::Boolean(false) },
        ])
    );
}

#[test]
fn default_values_by_type() {
    assert_eq!(
        default_for(&field("a", FieldType::String, "", true)),
        ExtractedValue::Text("unknown".to_string())
    );
    assert_eq!(default_for(&field("a", FieldType::String, "", false)), ExtractedValue::Text(String::new()));
    assert_eq!(default_for(&field("a", FieldType::Integer, "", true)), ExtractedValue::Integer(None));
    assert_eq!(default_for(&field("a", FieldType::Float, "", true)), ExtractedValue::Float(None));
    assert_eq!(default_for(&field("a", FieldType::Boolean, "", true)), ExtractedValue::Boolean(false));
}

#[test]
fn every_label_fills_a_field() {
    let schema = purchase_schema();
    let l = gliner_labels(&schema);
    let names: Vec<String> = schema.fields.iter().map(|f| f.name.clone()).collect();
    for label in &l.labels {
        let target = lookup_label(&l.targets, label).expect("every label has a field");
        assert!(names.contains(&target));
    }
}

#[test]
fn context_boost_stays_within_its_bounds() {
    let text = "search for keyword filters find stock shares ticker dividend 'x' keywords filter stock shares ticker";
    let start = text.find('x').unwrap();
    let terms = calculate_context_boost(text, start, start + 1).unwrap();
    let sum: i32 = terms.iter().sum();
    assert!(sum < 0);
    assert!(-765 <= sum && sum <= 253);
}
