//! A GBNF grammar that constrains a language model's output to the JSON
//! object a schema describes.
use vstd::prelude::*;
use crate::schema::{ExtractionSchema, FieldSchema, FieldType};
use crate::text::{contains_seq, matches_at};

verus! {

/// The grammar rule a field's value follows.
pub open spec fn gbnf_type_rule(t: FieldType) -> Seq<char> {
    match t {
        FieldType::String => "string"@,
        FieldType::Integer => "integer"@,
        FieldType::Float => "float"@,
        FieldType::Boolean => "boolean"@,
    }
}

/// The part of the root rule for field `i`: on a line of its own, indented
/// by two spaces, the quoted key and a colon, then the value rule, and a
/// comma ending the line unless it is the last field.
pub open spec fn gbnf_entry(fields: Seq<FieldSchema>, i: int) -> Seq<char> {
    " "@ + gbnf_key_rule(fields[i]) + (
    if i == fields.len() - 1 {
        Seq::<char>::empty()
    } else {
        " \",\\n\""@
    })
}

/// The entries of the first `n` fields.
pub open spec fn gbnf_entries(fields: Seq<FieldSchema>, n: int) -> Seq<char>
    decreases n,
{
    if n <= 0 {
        seq![]
    } else {
        gbnf_entries(fields, n - 1) + gbnf_entry(fields, n - 1)
    }
}

/// The value rules shared by every grammar.
pub open spec fn gbnf_value_rules() -> Seq<char> {
    "string ::= \"\\\"\" [^\\\"]* \"\\\"\"\n"@ + "integer ::= \"-\"? [0-9]+\n"@
        + "float ::= \"-\"? [0-9]+ (\".\" [0-9]+)?\n"@ + "boolean ::= \"true\" | \"false\"\n"@
}

/// The grammar of a schema: a root rule for an object laid out with a
/// line break after `{`, one two-space-indented line per field with the
/// fields' keys in schema order, and a line break before `}`; then the
/// value rules.
pub open spec fn gbnf_grammar(fields: Seq<FieldSchema>) -> Seq<char> {
    "root ::= \"{\\n\""@ + gbnf_entries(fields, fields.len() as int) + " \"\\n\" \"}\"\n"@ + gbnf_value_rules()
}

/// The GBNF grammar of a schema.
pub fn generate_gbnf(schema: &ExtractionSchema) -> (g: String)
    ensures
        g@ == gbnf_grammar(schema.fields@),
{
    let fields = &schema.fields;
    let mut g = String::new();
    g.append("root ::= \"{\\n\"");
    let ghost head = "root ::= \"{\\n\""@;
    assert(g@ == head + gbnf_entries(fields@, 0));
    let mut i: usize = 0;
    while i < fields.len()
        invariant
            i <= fields@.len(),
            g@ == head + gbnf_entries(fields@, i as int),
        decreases fields@.len() - i,
    {
        let ghost before = g@;
        let is_last = i == fields.len() - 1;
        g.append(" ");
        g.append("\"  \\\"");
        g.append(fields[i].name.as_str());
        g.append("\\\": \" ");
        match fields[i].field_type {
            FieldType::String => g.append("string"),
            FieldType::Integer => g.append("integer"),
            FieldType::Float => g.append("float"),
            FieldType::Boolean => g.append("boolean"),
        }
        if !is_last {
            g.append(" \",\\n\"");
        }
        assert(g@ =~= before + gbnf_entry(fields@, i as int));
        i = i + 1;
    }
    g.append(" \"\\n\" \"}\"\n");
    g.append("string ::= \"\\\"\" [^\\\"]* \"\\\"\"\n");
    g.append("integer ::= \"-\"? [0-9]+\n");
    g.append("float ::= \"-\"? [0-9]+ (\".\" [0-9]+)?\n");
    g.append("boolean ::= \"true\" | \"false\"\n");
    assert(g@ =~= gbnf_grammar(fields@));
    g
}

/// A field's key and value rule as the root rule spells them.
pub open spec fn gbnf_key_rule(f: FieldSchema) -> Seq<char> {
    "\"  \\\""@ + f.name@ + "\\\": \" "@ + gbnf_type_rule(f.field_type)
}

proof fn lemma_entries_split(fields: Seq<FieldSchema>, n: int, i: int)
    requires
        0 <= i < n <= fields.len(),
    ensures
        exists|a: Seq<char>, b: Seq<char>| gbnf_entries(fields, n) == a + gbnf_entry(fields, i) + b,
    decreases n,
{
    if n == i + 1 {
        let a = gbnf_entries(fields, i);
        let b = Seq::<char>::empty();
        assert(gbnf_entries(fields, n) =~= a + gbnf_entry(fields, i) + b);
    } else {
        lemma_entries_split(fields, n - 1, i);
        let (a, b) = choose|a: Seq<char>, b: Seq<char>| gbnf_entries(fields, n - 1) == a + gbnf_entry(fields, i) + b;
        assert(gbnf_entries(fields, n) =~= a + gbnf_entry(fields, i) + (b + gbnf_entry(fields, n - 1)));
    }
}

/// The grammar's root rule holds every field's quoted key followed by the
/// rule of the field's value type.
pub proof fn lemma_gbnf_names_every_field(fields: Seq<FieldSchema>, i: int)
    requires
        0 <= i < fields.len(),
    ensures
        contains_seq(gbnf_grammar(fields), gbnf_key_rule(fields[i])),
{
    lemma_entries_split(fields, fields.len() as int, i);
    let (a, b) = choose|a: Seq<char>, b: Seq<char>| gbnf_entries(fields, fields.len() as int) == a + gbnf_entry(fields, i) + b;
    let head = "root ::= \"{\\n\""@;
    let key = gbnf_key_rule(fields[i]);
    let e = gbnf_entry(fields, i);
    let comma = if i == fields.len() - 1 {
        Seq::<char>::empty()
    } else {
        " \",\\n\""@
    };
    assert(e =~= " "@ + key + comma);
    let tail = " \"\\n\" \"}\"\n"@ + gbnf_value_rules();
    let g = gbnf_grammar(fields);
    assert(g =~= (head + a + " "@) + key + (comma + b + tail));
    let k: int = (head.len() + a.len() + " "@.len()) as int;
    assert(g.subrange(k, k + key.len()) =~= key);
    assert(matches_at(g, key, k));
}


/// An element of a grammar rule's sequence: a quoted literal (held as the
/// text it matches) or a reference to another rule.
pub enum GbnfItem {
    Lit(Seq<char>),
    Rule(Seq<char>),
}

/// How a character is written inside a quoted GBNF literal.
pub open spec fn gbnf_escape_char(c: char) -> Seq<char> {
    if c == '"' {
        seq!['\\', '"']
    } else if c == '\\' {
        seq!['\\', '\\']
    } else if c == '\n' {
        seq!['\\', 'n']
    } else {
        seq![c]
    }
}

/// How a text is written inside a quoted GBNF literal.
pub open spec fn gbnf_escape(t: Seq<char>) -> Seq<char>
    decreases t.len(),
{
    if t.len() == 0 {
        seq![]
    } else {
        gbnf_escape(t.drop_last()) + gbnf_escape_char(t.last())
    }
}

/// How an item is written in a rule, after a space.
pub open spec fn gbnf_item_text(it: GbnfItem) -> Seq<char> {
    match it {
        GbnfItem::Lit(t) => " \""@ + gbnf_escape(t) + "\""@,
        GbnfItem::Rule(r) => " "@ + r,
    }
}

/// How a sequence of items is written in a rule.
pub open spec fn gbnf_render(items: Seq<GbnfItem>) -> Seq<char>
    decreases items.len(),
{
    if items.len() == 0 {
        seq![]
    } else {
        gbnf_render(items.drop_last()) + gbnf_item_text(items.last())
    }
}

/// The rules a sequence of items refers to, in order.
pub open spec fn gbnf_rules_of(items: Seq<GbnfItem>) -> Seq<Seq<char>>
    decreases items.len(),
{
    if items.len() == 0 {
        seq![]
    } else {
        gbnf_rules_of(items.drop_last()) + match items.last() {
            GbnfItem::Lit(_) => Seq::<Seq<char>>::empty(),
            GbnfItem::Rule(r) => seq![r],
        }
    }
}

/// The text a sequence of items derives when its rule references derive
/// `vals`, in order: the literals' texts and the values, concatenated.
pub open spec fn gbnf_derive(items: Seq<GbnfItem>, vals: Seq<Seq<char>>) -> Seq<char>
    decreases items.len(),
{
    if items.len() == 0 {
        seq![]
    } else {
        match items.last() {
            GbnfItem::Lit(t) => gbnf_derive(items.drop_last(), vals) + t,
            GbnfItem::Rule(_) => gbnf_derive(items.drop_last(), vals.drop_last()) + vals.last(),
        }
    }
}

/// The items of field `i` in the root rule: its key line, its value rule,
/// and the comma ending the line unless it is the last field.
pub open spec fn gbnf_field_items(fields: Seq<FieldSchema>, i: int) -> Seq<GbnfItem> {
    seq![GbnfItem::Lit("  \""@ + fields[i].name@ + "\": "@), GbnfItem::Rule(gbnf_type_rule(fields[i].field_type))]
        + if i == fields.len() - 1 {
        Seq::<GbnfItem>::empty()
    } else {
        seq![GbnfItem::Lit(",\n"@)]
    }
}

/// The items of the first `n` fields.
pub open spec fn gbnf_fields_items(fields: Seq<FieldSchema>, n: int) -> Seq<GbnfItem>
    decreases n,
{
    if n <= 0 {
        seq![]
    } else {
        gbnf_fields_items(fields, n - 1) + gbnf_field_items(fields, n - 1)
    }
}

/// The items of the root rule.
pub open spec fn gbnf_root_items(fields: Seq<FieldSchema>) -> Seq<GbnfItem> {
    seq![GbnfItem::Lit("{\n"@)] + gbnf_fields_items(fields, fields.len() as int) + seq![
        GbnfItem::Lit("\n"@),
        GbnfItem::Lit("}"@),
    ]
}

/// The object text with the first `n` fields' values `vals`: one line per
/// field, indented by two spaces, holding its quoted name, a colon and its
/// value, lines ended by commas but for the last field's.
pub open spec fn gbnf_object_lines(fields: Seq<FieldSchema>, vals: Seq<Seq<char>>, n: int) -> Seq<char>
    decreases n,
{
    if n <= 0 {
        seq![]
    } else {
        gbnf_object_lines(fields, vals, n - 1) + "  \""@ + fields[n - 1].name@ + "\": "@ + vals[n - 1] + if n - 1
            == fields.len() - 1 {
            Seq::<char>::empty()
        } else {
            ",\n"@
        }
    }
}

/// A name needs no escaping in a literal: it holds no quote, backslash or
/// line break.
pub open spec fn gbnf_plain(t: Seq<char>) -> bool {
    forall|i: int| 0 <= i < t.len() ==> #[trigger] t[i] != '"' && t[i] != '\\' && t[i] != '\n'
}

proof fn lemma_escape_concat(a: Seq<char>, b: Seq<char>)
    ensures
        gbnf_escape(a + b) == gbnf_escape(a) + gbnf_escape(b),
    decreases b.len(),
{
    if b.len() > 0 {
        lemma_escape_concat(a, b.drop_last());
        assert((a + b).drop_last() =~= a + b.drop_last());
    } else {
        assert(a + b =~= a);
    }
}

proof fn lemma_escape_plain(t: Seq<char>)
    requires
        gbnf_plain(t),
    ensures
        gbnf_escape(t) == t,
    decreases t.len(),
{
    if t.len() > 0 {
        assert(gbnf_plain(t.drop_last())) by {
            assert forall|i: int| 0 <= i < t.drop_last().len() implies #[trigger] t.drop_last()[i] != '"'
                && t.drop_last()[i] != '\\' && t.drop_last()[i] != '\n' by {
                assert(t.drop_last()[i] == t[i]);
            }
        }
        lemma_escape_plain(t.drop_last());
        assert(t[t.len() - 1] == t.last());
        assert(t.drop_last() + seq![t.last()] =~= t);
    }
}

proof fn lemma_escape_one(c: char)
    ensures
        gbnf_escape(seq![c]) == gbnf_escape_char(c),
{
    let s = seq![c];
    assert(s.len() == 1 && s.last() == c);
    assert(s.drop_last() =~= Seq::<char>::empty());
    assert(gbnf_escape(s.drop_last()) == Seq::<char>::empty());
    assert(gbnf_escape(s) == gbnf_escape(s.drop_last()) + gbnf_escape_char(c));
    assert(Seq::<char>::empty() + gbnf_escape_char(c) =~= gbnf_escape_char(c));
}

proof fn lemma_escape_two(a: char, b: char)
    ensures
        gbnf_escape(seq![a, b]) == gbnf_escape_char(a) + gbnf_escape_char(b),
{
    lemma_escape_concat(seq![a], seq![b]);
    assert(seq![a] + seq![b] =~= seq![a, b]);
    lemma_escape_one(a);
    lemma_escape_one(b);
}

proof fn lemma_escape_three(a: char, b: char, c: char)
    ensures
        gbnf_escape(seq![a, b, c]) == gbnf_escape_char(a) + gbnf_escape_char(b) + gbnf_escape_char(c),
{
    lemma_escape_concat(seq![a, b], seq![c]);
    assert(seq![a, b] + seq![c] =~= seq![a, b, c]);
    lemma_escape_two(a, b);
    lemma_escape_one(c);
}

proof fn lemma_render_concat(a: Seq<GbnfItem>, b: Seq<GbnfItem>)
    ensures
        gbnf_render(a + b) == gbnf_render(a) + gbnf_render(b),
        gbnf_rules_of(a + b) == gbnf_rules_of(a) + gbnf_rules_of(b),
    decreases b.len(),
{
    if b.len() > 0 {
        lemma_render_concat(a, b.drop_last());
        assert((a + b).drop_last() =~= a + b.drop_last());
        assert((a + b).last() == b.last());
    } else {
        assert(a + b =~= a);
    }
}

proof fn lemma_derive_concat(a: Seq<GbnfItem>, b: Seq<GbnfItem>, va: Seq<Seq<char>>, vb: Seq<Seq<char>>)
    requires
        vb.len() == gbnf_rules_of(b).len(),
    ensures
        gbnf_derive(a + b, va + vb) == gbnf_derive(a, va) + gbnf_derive(b, vb),
    decreases b.len(),
{
    if b.len() == 0 {
        assert(a + b =~= a);
        assert(vb.len() == 0);
        assert(va + vb =~= va);
    } else {
        assert((a + b).drop_last() =~= a + b.drop_last());
        assert((a + b).last() == b.last());
        match b.last() {
            GbnfItem::Lit(t) => {
                lemma_derive_concat(a, b.drop_last(), va, vb);
            },
            GbnfItem::Rule(_) => {
                assert((va + vb).drop_last() =~= va + vb.drop_last());
                lemma_derive_concat(a, b.drop_last(), va, vb.drop_last());
            },
        }
    }
}

proof fn lemma_field_items(fields: Seq<FieldSchema>, i: int, v: Seq<char>)
    requires
        0 <= i < fields.len(),
        gbnf_plain(fields[i].name@),
    ensures
        gbnf_render(gbnf_field_items(fields, i)) == gbnf_entry(fields, i),
        gbnf_rules_of(gbnf_field_items(fields, i)) == seq![gbnf_type_rule(fields[i].field_type)],
        gbnf_derive(gbnf_field_items(fields, i), seq![v]) == "  \""@ + fields[i].name@ + "\": "@ + v + if i
            == fields.len() - 1 {
            Seq::<char>::empty()
        } else {
            ",\n"@
        },
{
    reveal_strlit("  \"");
    reveal_strlit("\": ");
    reveal_strlit(",\n");
    reveal_strlit(" \"");
    reveal_strlit("\"");
    reveal_strlit(" ");
    reveal_strlit("\"  \\\"");
    reveal_strlit("\\\": \" ");
    reveal_strlit(" \",\\n\"");
    let name = fields[i].name@;
    let rule = gbnf_type_rule(fields[i].field_type);
    let key = "  \""@ + name + "\": "@;
    lemma_escape_three(' ', ' ', '"');
    assert("  \""@ =~= seq![' ', ' ', '"']);
    lemma_escape_concat("  \""@ + name, "\": "@);
    lemma_escape_concat("  \""@, name);
    lemma_escape_plain(name);
    lemma_escape_three('"', ':', ' ');
    assert("\": "@ =~= seq!['"', ':', ' ']);
    assert(gbnf_escape(key) =~= "  \\\""@ + name + "\\\": "@) by {
        reveal_strlit("  \\\"");
        reveal_strlit("\\\": ");
    }
    let head = seq![GbnfItem::Lit(key), GbnfItem::Rule(rule)];
    let comma = if i == fields.len() - 1 {
        Seq::<GbnfItem>::empty()
    } else {
        seq![GbnfItem::Lit(",\n"@)]
    };
    lemma_render_concat(head, comma);
    let h1 = seq![GbnfItem::Lit(key)];
    assert(head.drop_last() =~= h1);
    assert(head.last() == GbnfItem::Rule(rule));
    assert(h1.drop_last() =~= Seq::<GbnfItem>::empty());
    assert(h1.last() == GbnfItem::Lit(key));
    assert(gbnf_render(h1.drop_last()) == Seq::<char>::empty());
    assert(gbnf_render(h1) =~= gbnf_item_text(GbnfItem::Lit(key)));
    assert(gbnf_render(head) == gbnf_render(h1) + gbnf_item_text(GbnfItem::Rule(rule)));
    assert(gbnf_render(head) =~= " \""@ + gbnf_escape(key) + "\""@ + " "@ + rule);
    assert(gbnf_rules_of(h1.drop_last()) == Seq::<Seq<char>>::empty());
    assert(gbnf_rules_of(h1) =~= Seq::<Seq<char>>::empty());
    assert(gbnf_rules_of(head) =~= seq![rule]);
    if i != fields.len() - 1 {
        assert(comma.drop_last() =~= Seq::<GbnfItem>::empty());
        assert(comma.last() == GbnfItem::Lit(",\n"@));
        assert(gbnf_rules_of(comma.drop_last()) == Seq::<Seq<char>>::empty());
        assert(gbnf_render(comma.drop_last()) == Seq::<char>::empty());
        assert(gbnf_derive(comma.drop_last(), Seq::<Seq<char>>::empty()) == Seq::<char>::empty());
    }
    assert(gbnf_rules_of(comma) =~= Seq::<Seq<char>>::empty());
    lemma_derive_concat(head, comma, seq![v], Seq::<Seq<char>>::empty());
    assert(seq![v] + Seq::<Seq<char>>::empty() =~= seq![v]);
    assert(seq![v].drop_last() =~= Seq::<Seq<char>>::empty());
    assert(seq![v].last() == v);
    assert(gbnf_derive(h1.drop_last(), Seq::<Seq<char>>::empty()) == Seq::<char>::empty());
    assert(gbnf_derive(h1, Seq::<Seq<char>>::empty()) =~= key);
    assert(gbnf_derive(head, seq![v]) == gbnf_derive(h1, seq![v].drop_last()) + v);
    assert(gbnf_derive(head, seq![v]) =~= key + v);
    if i == fields.len() - 1 {
        assert(gbnf_field_items(fields, i) =~= head + comma);
        assert(gbnf_render(comma) =~= Seq::<char>::empty());
        assert(gbnf_rules_of(comma) =~= Seq::<Seq<char>>::empty());
        assert(gbnf_derive(comma, Seq::<Seq<char>>::empty()) =~= Seq::<char>::empty());
        assert(gbnf_render(gbnf_field_items(fields, i)) =~= gbnf_entry(fields, i));
    } else {
        assert(gbnf_field_items(fields, i) =~= head + comma);
        assert(comma.drop_last() =~= Seq::<GbnfItem>::empty());
        lemma_escape_two(',', '\n');
        assert(",\n"@ =~= seq![',', '\n']);
        assert(gbnf_render(comma) =~= " \",\\n\""@);
        assert(gbnf_rules_of(comma) =~= Seq::<Seq<char>>::empty());
        assert(gbnf_derive(comma, Seq::<Seq<char>>::empty()) =~= ",\n"@);
        assert(gbnf_render(gbnf_field_items(fields, i)) =~= gbnf_entry(fields, i));
    }
}

proof fn lemma_fields_items(fields: Seq<FieldSchema>, vals: Seq<Seq<char>>, n: int)
    requires
        0 <= n <= fields.len(),
        vals.len() == fields.len(),
        forall|i: int| 0 <= i < fields.len() ==> gbnf_plain(#[trigger] fields[i].name@),
    ensures
        gbnf_render(gbnf_fields_items(fields, n)) == gbnf_entries(fields, n),
        gbnf_rules_of(gbnf_fields_items(fields, n)) == Seq::new(n as nat, |i: int| gbnf_type_rule(fields[i].field_type)),
        gbnf_derive(gbnf_fields_items(fields, n), vals.take(n)) == gbnf_object_lines(fields, vals, n),
    decreases n,
{
    if n > 0 {
        lemma_fields_items(fields, vals, n - 1);
        lemma_field_items(fields, n - 1, vals[n - 1]);
        let a = gbnf_fields_items(fields, n - 1);
        let b = gbnf_field_items(fields, n - 1);
        lemma_render_concat(a, b);
        assert(vals.take(n) =~= vals.take(n - 1) + seq![vals[n - 1]]);
        lemma_derive_concat(a, b, vals.take(n - 1), seq![vals[n - 1]]);
        assert(gbnf_rules_of(gbnf_fields_items(fields, n)) =~= Seq::new(
            n as nat,
            |i: int| gbnf_type_rule(fields[i].field_type),
        ));
        assert(gbnf_derive(gbnf_fields_items(fields, n), vals.take(n)) =~= gbnf_object_lines(fields, vals, n));
    } else {
        assert(vals.take(0) =~= Seq::<Seq<char>>::empty());
        assert(gbnf_rules_of(gbnf_fields_items(fields, n)) =~= Seq::new(
            n as nat,
            |i: int| gbnf_type_rule(fields[i].field_type),
        ));
    }
}

/// The root rule of a schema's grammar is the sequence `gbnf_root_items`:
/// the literal `{` and a line break; for each field in schema order the
/// literal of its two-space-indented quoted name and colon, a reference to
/// the rule of its type, and a comma and line break unless it is the last;
/// then a line break and `}`. So the texts the root rule derives, given a
/// text each referenced rule derives, are exactly the schema's objects laid
/// out one field per line, each field's value from its type's rule. Names
/// with a quote, backslash or line break are left out: they are written
/// unescaped.
pub proof fn lemma_gbnf_root_language(fields: Seq<FieldSchema>, vals: Seq<Seq<char>>)
    requires
        forall|i: int| 0 <= i < fields.len() ==> gbnf_plain(#[trigger] fields[i].name@),
        vals.len() == fields.len(),
    ensures
        gbnf_grammar(fields) == "root ::="@ + gbnf_render(gbnf_root_items(fields)) + "\n"@ + gbnf_value_rules(),
        gbnf_rules_of(gbnf_root_items(fields)) == Seq::new(
            fields.len(),
            |i: int| gbnf_type_rule(fields[i].field_type),
        ),
        gbnf_derive(gbnf_root_items(fields), vals) == "{\n"@ + gbnf_object_lines(fields, vals, fields.len() as int)
            + "\n}"@,
{
    reveal_strlit("{\n");
    reveal_strlit("\n");
    reveal_strlit("}");
    reveal_strlit("\n}");
    reveal_strlit("root ::=");
    reveal_strlit("root ::= \"{\\n\"");
    reveal_strlit(" \"\\n\" \"}\"\n");
    reveal_strlit(" \"");
    reveal_strlit("\"");
    let n = fields.len() as int;
    lemma_fields_items(fields, vals, n);
    let mid = gbnf_fields_items(fields, n);
    let head = seq![GbnfItem::Lit("{\n"@)];
    let tail = seq![GbnfItem::Lit("\n"@), GbnfItem::Lit("}"@)];
    lemma_render_concat(head, mid);
    lemma_render_concat(head + mid, tail);
    assert(gbnf_root_items(fields) =~= head + mid + tail);
    lemma_escape_two('{', '\n');
    assert("{\n"@ =~= seq!['{', '\n']);
    lemma_escape_one('\n');
    assert("\n"@ =~= seq!['\n']);
    lemma_escape_one('}');
    assert("}"@ =~= seq!['}']);
    assert(head.drop_last() =~= Seq::<GbnfItem>::empty());
    assert(head.last() == GbnfItem::Lit("{\n"@));
    assert(gbnf_render(head.drop_last()) == Seq::<char>::empty());
    assert(gbnf_render(head) =~= " \"{\\n\""@) by {
        reveal_strlit(" \"{\\n\"");
    }
    let t1 = seq![GbnfItem::Lit("\n"@)];
    assert(tail.drop_last() =~= t1);
    assert(tail.last() == GbnfItem::Lit("}"@));
    assert(t1.drop_last() =~= Seq::<GbnfItem>::empty());
    assert(t1.last() == GbnfItem::Lit("\n"@));
    assert(gbnf_render(t1.drop_last()) == Seq::<char>::empty());
    assert(gbnf_render(t1) =~= gbnf_item_text(GbnfItem::Lit("\n"@)));
    assert(gbnf_render(tail) == gbnf_render(t1) + gbnf_item_text(GbnfItem::Lit("}"@)));
    assert(gbnf_render(tail) =~= " \"\\n\" \"}\""@) by {
        reveal_strlit(" \"\\n\" \"}\"");
    }
    assert(gbnf_grammar(fields) =~= "root ::="@ + gbnf_render(gbnf_root_items(fields)) + "\n"@ + gbnf_value_rules());
    assert(gbnf_rules_of(head.drop_last()) == Seq::<Seq<char>>::empty());
    assert(gbnf_rules_of(head) =~= Seq::<Seq<char>>::empty());
    assert(gbnf_rules_of(t1.drop_last()) == Seq::<Seq<char>>::empty());
    assert(gbnf_rules_of(t1) =~= Seq::<Seq<char>>::empty());
    assert(gbnf_rules_of(tail) =~= Seq::<Seq<char>>::empty());
    assert(gbnf_derive(head.drop_last(), Seq::<Seq<char>>::empty()) == Seq::<char>::empty());
    assert(gbnf_derive(t1.drop_last(), Seq::<Seq<char>>::empty()) == Seq::<char>::empty());
    assert(gbnf_derive(t1, Seq::<Seq<char>>::empty()) =~= "\n"@);
    assert(gbnf_rules_of(gbnf_root_items(fields)) =~= Seq::new(
        fields.len(),
        |i: int| gbnf_type_rule(fields[i].field_type),
    ));
    assert(vals.take(n) =~= vals);
    lemma_derive_concat(head, mid, Seq::<Seq<char>>::empty(), vals);
    assert(Seq::<Seq<char>>::empty() + vals =~= vals);
    lemma_derive_concat(head + mid, tail, vals, Seq::<Seq<char>>::empty());
    assert(vals + Seq::<Seq<char>>::empty() =~= vals);
    assert(gbnf_derive(head, Seq::<Seq<char>>::empty()) =~= "{\n"@);
    assert(gbnf_derive(tail, Seq::<Seq<char>>::empty()) =~= "\n}"@);
}

} // verus!
