use structured_json_pipeline::proximity::heuristic::extract_via_proximity_heuristic;
use structured_json_pipeline::schema::{
    ExtractedField, ExtractedValue, ExtractionSchema, FieldSchema, FieldType,
};

fn field(name: &str, field_type: FieldType, description: &str, required: bool) -> FieldSchema {
    FieldSchema {
        name: name.to_string(),
        field_type,
        description: description.to_string(),
        required,
    }
}

fn purchase_schema() -> ExtractionSchema {
    ExtractionSchema {
        fields: vec![
            field("product", FieldType::String, "the name of the product being purchased", true),
            field("price", FieldType::Float, "the base price of the item before tax", true),
            field("tax", FieldType::Float, "the tax or processing fee percentage rate", true),
        ],
    }
}

fn person_schema() -> ExtractionSchema {
    ExtractionSchema {
        fields: vec![
            field("name", FieldType::String, "person name", true),
            field("age", FieldType::Integer, "age in years", true),
            field("member", FieldType::Boolean, "is a member", false),
            field("city", FieldType::String, "", false),
        ],
    }
}

fn text(name: &str, v: &str) -> ExtractedField {
    ExtractedField { name: name.to_string(), value: ExtractedValue::Text(v.to_string()) }
}

fn float(name: &str, v: Option<&str>) -> ExtractedField {
    ExtractedField { name: name.to_string(), value: ExtractedValue::Float(v.map(|s| s.to_string())) }
}

fn integer(name: &str, v: Option<&str>) -> ExtractedField {
    ExtractedField { name: name.to_string(), value: ExtractedValue::Integer(v.map(|s| s.to_string())) }
}

fn boolean(name: &str, v: bool) -> ExtractedField {
    ExtractedField { name: name.to_string(), value: ExtractedValue::Boolean(v) }
}

#[test]
fn heuristic_quoted_product_with_percent_tax() {
    let out = extract_via_proximity_heuristic("product 'Laptop' bought for 1200 plus 10% tax", &purchase_schema());
    assert_eq!(
        out,
        Some(vec![text("product", "Laptop"), float("price", Some("1200")), float("tax", Some("10"))])
    );
}

#[test]
fn heuristic_percent_word_marks_the_rate() {
    let out = extract_via_proximity_heuristic(
        "Hey, we found a box of 'Eggs'. Price details say 36.3 plus 8.0 percent processing fees.",
        &purchase_schema(),
    );
    assert_eq!(
        out,
        Some(vec![text("product", "Eggs"), float("price", Some("36.3")), float("tax", Some("8.0"))])
    );
}

#[test]
fn heuristic_distractor_integer_is_left_out() {
    let out = extract_via_proximity_heuristic(
        "We had 10 options but bought 'vinegar' for 1708.08 with 5.5% tax on May 21st.",
        &purchase_schema(),
    );
    assert_eq!(
        out,
        Some(vec![text("product", "vinegar"), float("price", Some("1708.08")), float("tax", Some("5.5"))])
    );
}

#[test]
fn heuristic_quoted_keyword_distractor() {
    let out = extract_via_proximity_heuristic(
        "Search for Tmall products with keyword 'backpack' on the first page and categorize a product with title 'guacamole' and price 7.82. Include 12.0% tax.",
        &purchase_schema(),
    );
    assert_eq!(
        out,
        Some(vec![text("product", "guacamole"), float("price", Some("7.82")), float("tax", Some("12.0"))])
    );
}

#[test]
fn heuristic_unquoted_words_become_candidates() {
    let out = extract_via_proximity_heuristic("name: alice, age 31 years, member yes", &person_schema());
    assert_eq!(
        out,
        Some(vec![
            text("name", "age"),
            integer("age", Some("31")),
            boolean("member", true),
            text("city", "years,"),
        ])
    );
}

#[test]
fn heuristic_standalone_no_is_false() {
    let out = extract_via_proximity_heuristic("Bob is 42 and not a member: no", &person_schema());
    assert_eq!(
        out,
        Some(vec![
            text("name", "is"),
            integer("age", Some("42")),
            boolean("member", false),
            text("city", "and"),
        ])
    );
}

#[test]
fn heuristic_defaults_for_unfilled_fields() {
    let schema = ExtractionSchema {
        fields: vec![
            field("name", FieldType::String, "", true),
            field("note", FieldType::String, "", false),
            field("count", FieldType::Integer, "", true),
            field("rate", FieldType::Float, "", true),
            field("flag", FieldType::Boolean, "", false),
        ],
    };
    let out = extract_via_proximity_heuristic("7", &schema);
    assert_eq!(
        out,
        Some(vec![
            text("name", "unknown"),
            text("note", ""),
            integer("count", Some("7")),
            float("rate", None),
            boolean("flag", false),
        ])
    );
}

#[test]
fn heuristic_number_cleaning() {
    let schema = ExtractionSchema {
        fields: vec![
            field("total", FieldType::Float, "the order total", true),
            field("qty", FieldType::Integer, "number of units", true),
            field("paid", FieldType::Boolean, "whether it was paid", true),
        ],
    };
    let out = extract_via_proximity_heuristic("Total: 1.2.3 for 5. units, paid: true", &schema);
    assert_eq!(
        out,
        Some(vec![float("total", Some("1.2")), integer("qty", Some("5")), boolean("paid", true)])
    );
}

#[test]
fn heuristic_words_with_hyphen_are_not_numbers() {
    let schema = ExtractionSchema {
        fields: vec![
            field("total", FieldType::Float, "the order total", true),
            field("qty", FieldType::Integer, "number of units", true),
            field("paid", FieldType::Boolean, "whether it was paid", true),
        ],
    };
    let out = extract_via_proximity_heuristic("qty -4 total 19.99 paid false", &schema);
    assert_eq!(
        out,
        Some(vec![float("total", Some("19.99")), integer("qty", None), boolean("paid", false)])
    );
}

#[test]
fn heuristic_empty_schema_gives_empty_object() {
    let schema = ExtractionSchema { fields: vec![] };
    assert_eq!(extract_via_proximity_heuristic("anything at all 12", &schema), Some(vec![]));
}

#[test]
fn heuristic_empty_field_name_is_refused() {
    let schema = ExtractionSchema { fields: vec![field("", FieldType::String, "", true)] };
    assert_eq!(extract_via_proximity_heuristic("some text", &schema), None);
}

#[test]
fn heuristic_answers_every_field_in_schema_order() {
    let schema = purchase_schema();
    let out = extract_via_proximity_heuristic("nothing useful here", &schema).unwrap();
    let names: Vec<&str> = out.iter().map(|f| f.name.as_str()).collect();
    assert_eq!(names, vec!["product", "price", "tax"]);
}

#[test]
fn heuristic_ignores_model_numbers() {
    let schema = ExtractionSchema { fields: vec![field("cost", FieldType::Integer, "", true)] };
    assert_eq!(
        extract_via_proximity_heuristic("model x200 costs 15", &schema),
        Some(vec![integer("cost", Some("15"))])
    );
}

#[test]
fn heuristic_ignores_units_and_dates() {
    let schema = ExtractionSchema {
        fields: vec![
            field("price", FieldType::Float, "price in dollars", true),
            field("item", FieldType::String, "", true),
        ],
    };
    assert_eq!(
        extract_via_proximity_heuristic("ship 5kg box on 3rd floor for 40 dollars", &schema),
        Some(vec![float("price", Some("40")), text("item", "dollars")])
    );
}

#[test]
fn heuristic_lone_quotation_keeps_its_case() {
    let schema = ExtractionSchema { fields: vec![field("item", FieldType::String, "", false)] };
    assert_eq!(
        extract_via_proximity_heuristic("PLEASE SHIP \"MiXeD Case\" TODAY", &schema),
        Some(vec![text("item", "MiXeD Case")])
    );
}

#[test]
fn heuristic_non_ascii_names_are_read() {
    let schema = ExtractionSchema { fields: vec![field("Größe", FieldType::Integer, "", true)] };
    assert_eq!(
        extract_via_proximity_heuristic("größe 42", &schema),
        Some(vec![integer("Größe", Some("42"))])
    );
}
