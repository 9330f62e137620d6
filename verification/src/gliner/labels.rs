//! The labels GLiNER is asked to find, and which field each one fills.
use vstd::prelude::*;
use crate::schema::{ExtractionSchema, FieldSchema, FieldType};
use crate::text::{contains_chars, contains_seq, lowercase_chars, lowercase_of, str_chars, chars_eq};

verus! {

/// Extra labels for a tax-like numeric field.
pub open spec fn tax_aliases() -> Seq<Seq<char>> {
    seq![
        "tax rate"@,
        "tax percentage"@,
        "tax percent"@,
        "sales tax"@,
        "processing fee"@,
        "processing fees"@,
        "fee"@
    ]
}

/// Extra labels for a price-like numeric field.
pub open spec fn price_aliases() -> Seq<Seq<char>> {
    seq![
        "base price"@,
        "item price"@,
        "cost"@
    ]
}

/// Extra labels for a product-like string field.
pub open spec fn product_aliases() -> Seq<Seq<char>> {
    seq![
        "purchased product"@,
        "ordered product"@,
        "purchased item"@,
        "ordered item"@,
        "product name"@,
        "item name"@
    ]
}

/// The extra labels of a field: numeric fields whose lowercased name or
/// description mentions `tax` get the tax labels, else those mentioning
/// `price` (or whose name mentions `cost`) get the price labels; string
/// fields mentioning `product` (or whose name mentions `item`) get the
/// product labels.
pub open spec fn field_aliases(f: FieldSchema) -> Seq<Seq<char>> {
    let nl = lowercase_of(f.name@);
    let dl = lowercase_of(f.description@);
    if f.field_type == FieldType::Float || f.field_type == FieldType::Integer {
        if contains_seq(nl, "tax"@) || contains_seq(dl, "tax"@) {
            tax_aliases()
        } else if contains_seq(nl, "price"@) || contains_seq(dl, "price"@) || contains_seq(nl, "cost"@) {
            price_aliases()
        } else {
            seq![]
        }
    } else if f.field_type == FieldType::String {
        if contains_seq(nl, "product"@) || contains_seq(dl, "product"@) || contains_seq(nl, "item"@) {
            product_aliases()
        } else {
            seq![]
        }
    } else {
        seq![]
    }
}

/// A lowercased name too generic to be a label by itself.
pub open spec fn is_generic_name(nl: Seq<char>) -> bool {
    nl == "product"@ || nl == "item"@ || nl == "product name"@ || nl == "item name"@
}

/// The field's own name is a label unless it is generic and the field has
/// a description or aliases to stand for it.
pub open spec fn adds_name_label(f: FieldSchema) -> bool {
    !is_generic_name(lowercase_of(f.name@)) || !(f.description@.len() > 0 || field_aliases(f).len() > 0)
}

/// The labels so far and the (label, field name) insertions so far.
pub type LabelState = (Seq<Seq<char>>, Seq<(Seq<char>, Seq<char>)>);

/// Adds each alias to the labels unless present, and records it for the
/// field `name` either way.
pub open spec fn add_aliases(st: LabelState, aliases: Seq<Seq<char>>, name: Seq<char>) -> LabelState
    decreases aliases.len(),
{
    if aliases.len() == 0 {
        st
    } else {
        let (ls, ins) = add_aliases(st, aliases.drop_last(), name);
        let a = aliases.last();
        (if ls.contains(a) {
            ls
        } else {
            ls.push(a)
        }, ins.push((a, name)))
    }
}

/// The labels of one field added to the state: its name (see
/// `adds_name_label`), its description if not empty, then its aliases.
pub open spec fn add_field_labels(st: LabelState, f: FieldSchema) -> LabelState {
    let (ls, ins) = st;
    let (ls1, ins1) = if adds_name_label(f) {
        (ls.push(f.name@), ins.push((f.name@, f.name@)))
    } else {
        (ls, ins)
    };
    let (ls2, ins2) = if f.description@.len() > 0 {
        (ls1.push(f.description@), ins1.push((f.description@, f.name@)))
    } else {
        (ls1, ins1)
    };
    add_aliases((ls2, ins2), field_aliases(f), f.name@)
}

/// The labels of the first `n` fields.
pub open spec fn labels_upto(fields: Seq<FieldSchema>, n: int) -> LabelState
    decreases n,
{
    if n <= 0 {
        (seq![], seq![])
    } else {
        add_field_labels(labels_upto(fields, n - 1), fields[n - 1])
    }
}

/// The labels of a schema and their insertions.
pub open spec fn schema_labels(fields: Seq<FieldSchema>) -> LabelState {
    labels_upto(fields, fields.len() as int)
}

/// The field a label fills: the last insertion of that label wins.
pub open spec fn label_target(ins: Seq<(Seq<char>, Seq<char>)>, label: Seq<char>) -> Option<Seq<char>>
    decreases ins.len(),
{
    if ins.len() == 0 {
        None
    } else if ins.last().0 == label {
        Some(ins.last().1)
    } else {
        label_target(ins.drop_last(), label)
    }
}

/// The labels to ask GLiNER for, and the label-to-field insertions in
/// order.
pub struct GlinerLabels {
    pub labels: Vec<String>,
    pub targets: Vec<(String, String)>,
}

/// The character sequences of strings.
pub open spec fn strings_view(v: Seq<String>) -> Seq<Seq<char>> {
    v.map_values(|s: String| s@)
}

/// The character sequences of string pairs.
pub open spec fn pairs_view(v: Seq<(String, String)>) -> Seq<(Seq<char>, Seq<char>)> {
    v.map_values(|p: (String, String)| (p.0@, p.1@))
}

impl View for GlinerLabels {
    type V = LabelState;

    open spec fn view(&self) -> LabelState {
        (strings_view(self.labels@), pairs_view(self.targets@))
    }
}

fn alias_list(which: u8) -> (v: Vec<String>)
    ensures
        which == 0 ==> strings_view(v@) == tax_aliases(),
        which == 1 ==> strings_view(v@) == price_aliases(),
        which >= 2 ==> strings_view(v@) == product_aliases(),
{
    if which == 0 {
        let v = vec![
            String::from_str("tax rate"),
            String::from_str("tax percentage"),
            String::from_str("tax percent"),
            String::from_str("sales tax"),
            String::from_str("processing fee"),
            String::from_str("processing fees"),
            String::from_str("fee")
        ];
        assert(strings_view(v@) =~= tax_aliases());
        v
    } else if which == 1 {
        let v = vec![
            String::from_str("base price"),
            String::from_str("item price"),
            String::from_str("cost")
        ];
        assert(strings_view(v@) =~= price_aliases());
        v
    } else {
        let v = vec![
            String::from_str("purchased product"),
            String::from_str("ordered product"),
            String::from_str("purchased item"),
            String::from_str("ordered item"),
            String::from_str("product name"),
            String::from_str("item name")
        ];
        assert(strings_view(v@) =~= product_aliases());
        v
    }
}

/// The aliases of a field.
fn aliases_of(f: &FieldSchema) -> (v: Vec<String>)
    ensures
        strings_view(v@) == field_aliases(*f),
{
    let nl = lowercase_chars(f.name.as_str());
    let dl = lowercase_chars(f.description.as_str());
    if f.field_type == FieldType::Float || f.field_type == FieldType::Integer {
        let tax = str_chars("tax");
        if contains_chars(&nl, &tax) || contains_chars(&dl, &tax) {
            alias_list(0)
        } else if contains_chars(&nl, &str_chars("price")) || contains_chars(&dl, &str_chars("price"))
            || contains_chars(&nl, &str_chars("cost")) {
            alias_list(1)
        } else {
            let v: Vec<String> = Vec::new();
            assert(strings_view(v@) =~= Seq::<Seq<char>>::empty());
            v
        }
    } else if f.field_type == FieldType::String {
        if contains_chars(&nl, &str_chars("product")) || contains_chars(&dl, &str_chars("product"))
            || contains_chars(&nl, &str_chars("item")) {
            alias_list(2)
        } else {
            let v: Vec<String> = Vec::new();
            assert(strings_view(v@) =~= Seq::<Seq<char>>::empty());
            v
        }
    } else {
        let v: Vec<String> = Vec::new();
        assert(strings_view(v@) =~= Seq::<Seq<char>>::empty());
        v
    }
}

/// Whether `v` holds a string equal to `s`.
fn holds_string(v: &Vec<String>, s: &String) -> (r: bool)
    ensures
        r == strings_view(v@).contains(s@),
{
    let mut i: usize = 0;
    while i < v.len()
        invariant
            i <= v@.len(),
            forall|j: int| 0 <= j < i ==> v@[j]@ != s@,
        decreases v@.len() - i,
    {
        if v[i] == *s {
            assert(strings_view(v@)[i as int] == s@);
            return true;
        }
        i = i + 1;
    }
    assert forall|j: int| 0 <= j < v@.len() implies strings_view(v@)[j] != s@ by {
        assert(strings_view(v@)[j] == v@[j]@);
    }
    false
}

/// The labels of a schema, and which field each fills.
pub fn gliner_labels(schema: &ExtractionSchema) -> (out: GlinerLabels)
    ensures
        out@ == schema_labels(schema.fields@),
{
    let fields = &schema.fields;
    let mut labels: Vec<String> = Vec::new();
    let mut targets: Vec<(String, String)> = Vec::new();
    assert(strings_view(labels@) =~= Seq::<Seq<char>>::empty());
    assert(pairs_view(targets@) =~= Seq::<(Seq<char>, Seq<char>)>::empty());
    let mut i: usize = 0;
    while i < fields.len()
        invariant
            i <= fields@.len(),
            (strings_view(labels@), pairs_view(targets@)) == labels_upto(fields@, i as int),
        decreases fields@.len() - i,
    {
        let f = &fields[i];
        let aliases = aliases_of(f);
        let nl = lowercase_chars(f.name.as_str());
        let generic = chars_eq(&nl, &str_chars("product")) || chars_eq(&nl, &str_chars("item"))
            || chars_eq(&nl, &str_chars("product name")) || chars_eq(&nl, &str_chars("item name"));
        let has_other = !f.description.as_str().is_empty() || aliases.len() > 0;
        assert(generic == is_generic_name(lowercase_of(f.name@)));
        assert(has_other == (f.description@.len() > 0 || field_aliases(*f).len() > 0));
        assert((!generic || !has_other) == adds_name_label(*f));
        let ghost st0 = (strings_view(labels@), pairs_view(targets@));
        let ghost ls0 = strings_view(labels@);
        let ghost ins0 = pairs_view(targets@);
        if !generic || !has_other {
            labels.push(f.name.clone());
            targets.push((f.name.clone(), f.name.clone()));
            assert(strings_view(labels@) =~= ls0.push(f.name@));
            assert(pairs_view(targets@) =~= ins0.push((f.name@, f.name@)));
        }
        let ghost ls1 = strings_view(labels@);
        let ghost ins1 = pairs_view(targets@);
        if !f.description.as_str().is_empty() {
            labels.push(f.description.clone());
            targets.push((f.description.clone(), f.name.clone()));
            assert(strings_view(labels@) =~= ls1.push(f.description@));
            assert(pairs_view(targets@) =~= ins1.push((f.description@, f.name@)));
        }
        let ghost st2 = (strings_view(labels@), pairs_view(targets@));
        let ghost av = strings_view(aliases@);
        let mut j: usize = 0;
        while j < aliases.len()
            invariant
                j <= aliases@.len(),
                av == strings_view(aliases@),
                (strings_view(labels@), pairs_view(targets@)) == add_aliases(st2, av.take(j as int), f.name@),
            decreases aliases@.len() - j,
        {
            assert(av.take(j + 1).drop_last() =~= av.take(j as int));
            assert(av.take(j + 1).last() == aliases@[j as int]@);
            let a = &aliases[j];
            let ghost ls = strings_view(labels@);
            let ghost ins = pairs_view(targets@);
            if !holds_string(&labels, a) {
                labels.push(a.clone());
                assert(strings_view(labels@) =~= ls.push(a@));
            }
            targets.push((a.clone(), f.name.clone()));
            assert(pairs_view(targets@) =~= ins.push((a@, f.name@)));
            j = j + 1;
        }
        assert(av.take(aliases@.len() as int) =~= av);
        assert(st0 == labels_upto(fields@, i as int));
        assert((strings_view(labels@), pairs_view(targets@)) == add_field_labels(st0, *f));
        i = i + 1;
    }
    GlinerLabels { labels, targets }
}

/// The name of the field a label fills, if any.
pub fn lookup_label(targets: &Vec<(String, String)>, label: &String) -> (r: Option<String>)
    ensures
        match r {
            Some(n) => label_target(pairs_view(targets@), label@) == Some(n@),
            None => label_target(pairs_view(targets@), label@) is None,
        },
{
    let ghost pv = pairs_view(targets@);
    assert(pv.take(pv.len() as int) =~= pv);
    let mut i = targets.len();
    while i > 0
        invariant
            i <= targets@.len(),
            pv == pairs_view(targets@),
            label_target(pv, label@) == label_target(pv.take(i as int), label@),
        decreases i,
    {
        assert(pv.take(i as int).drop_last() =~= pv.take(i - 1));
        assert(pv.take(i as int).last() == (targets@[i - 1].0@, targets@[i - 1].1@));
        if targets[i - 1].0 == *label {
            return Some(targets[i - 1].1.clone());
        }
        i = i - 1;
    }
    assert(pv.take(0) =~= Seq::<(Seq<char>, Seq<char>)>::empty());
    None
}

/// Some insertion records `label`.
spec fn inserted(ins: Seq<(Seq<char>, Seq<char>)>, label: Seq<char>) -> bool {
    exists|k: int| 0 <= k < ins.len() && #[trigger] ins[k].0 == label
}

/// `name` is the name of one of the first `n` fields.
spec fn names_field(fields: Seq<FieldSchema>, n: int, name: Seq<char>) -> bool {
    exists|f: int| 0 <= f < n && #[trigger] fields[f].name@ == name
}

/// A label with an insertion maps to the name of one of its insertions.
proof fn lemma_target_of_inserted(ins: Seq<(Seq<char>, Seq<char>)>, label: Seq<char>)
    requires
        inserted(ins, label),
    ensures
        label_target(ins, label) matches Some(n) && exists|k: int| 0 <= k < ins.len() && #[trigger] ins[k] == (label, n),
    decreases ins.len(),
{
    if ins.last().0 == label {
        assert(ins[ins.len() - 1] == (label, ins.last().1));
    } else {
        let k = choose|k: int| 0 <= k < ins.len() && #[trigger] ins[k].0 == label;
        assert(ins.drop_last()[k].0 == label);
        lemma_target_of_inserted(ins.drop_last(), label);
        let n = label_target(ins, label)->0;
        let j = choose|j: int| 0 <= j < ins.drop_last().len() && #[trigger] ins.drop_last()[j] == (label, n);
        assert(ins[j] == (label, n));
    }
}

/// Adding aliases for `name` keeps every label inserted, and every
/// insertion names `name` or was there before.
proof fn lemma_add_aliases_keeps(st: LabelState, aliases: Seq<Seq<char>>, name: Seq<char>, fields: Seq<FieldSchema>, n: int)
    requires
        forall|i: int| 0 <= i < st.0.len() ==> inserted(st.1, #[trigger] st.0[i]),
        forall|k: int| 0 <= k < st.1.len() ==> names_field(fields, n, #[trigger] st.1[k].1),
        names_field(fields, n, name),
    ensures
        ({
            let r = add_aliases(st, aliases, name);
            &&& forall|i: int| 0 <= i < r.0.len() ==> inserted(r.1, #[trigger] r.0[i])
            &&& forall|k: int| 0 <= k < r.1.len() ==> names_field(fields, n, #[trigger] r.1[k].1)
        }),
    decreases aliases.len(),
{
    if aliases.len() > 0 {
        lemma_add_aliases_keeps(st, aliases.drop_last(), name, fields, n);
        let (ls, ins) = add_aliases(st, aliases.drop_last(), name);
        let a = aliases.last();
        let r = add_aliases(st, aliases, name);
        let ins2 = ins.push((a, name));
        assert(r.1 == ins2);
        assert forall|i: int| 0 <= i < r.0.len() implies inserted(r.1, #[trigger] r.0[i]) by {
            if i < ls.len() {
                assert(r.0[i] == ls[i]);
                let k = choose|k: int| 0 <= k < ins.len() && #[trigger] ins[k].0 == ls[i];
                assert(ins2[k].0 == ls[i]);
            } else {
                assert(r.0[i] == a);
                assert(ins2[ins.len() as int].0 == a);
            }
        }
        assert forall|k: int| 0 <= k < r.1.len() implies names_field(fields, n, #[trigger] r.1[k].1) by {
            if k < ins.len() {
                assert(r.1[k] == ins[k]);
            }
        }
    }
}

/// After the first `n` fields, every label is inserted and every
/// insertion names one of those fields.
proof fn lemma_labels_upto_fill_fields(fields: Seq<FieldSchema>, n: int)
    requires
        0 <= n <= fields.len(),
    ensures
        ({
            let st = labels_upto(fields, n);
            &&& forall|i: int| 0 <= i < st.0.len() ==> inserted(st.1, #[trigger] st.0[i])
            &&& forall|k: int| 0 <= k < st.1.len() ==> names_field(fields, n, #[trigger] st.1[k].1)
        }),
    decreases n,
{
    if n > 0 {
        lemma_labels_upto_fill_fields(fields, n - 1);
        let st = labels_upto(fields, n - 1);
        let f = fields[n - 1];
        let (ls, ins) = st;
        assert(names_field(fields, n, f.name@)) by {
            assert(fields[n - 1].name@ == f.name@);
        }
        assert forall|k: int| 0 <= k < ins.len() implies names_field(fields, n, #[trigger] ins[k].1) by {
            assert(names_field(fields, n - 1, ins[k].1));
            let g = choose|g: int| 0 <= g < n - 1 && #[trigger] fields[g].name@ == ins[k].1;
            assert(fields[g].name@ == ins[k].1);
        }
        let (ls1, ins1) = if adds_name_label(f) {
            (ls.push(f.name@), ins.push((f.name@, f.name@)))
        } else {
            (ls, ins)
        };
        assert forall|i: int| 0 <= i < ls1.len() implies inserted(ins1, #[trigger] ls1[i]) by {
            if i < ls.len() {
                let k = choose|k: int| 0 <= k < ins.len() && #[trigger] ins[k].0 == ls[i];
                assert(ins1[k].0 == ls1[i]);
            } else {
                assert(ins1[ins.len() as int].0 == ls1[i]);
            }
        }
        assert forall|k: int| 0 <= k < ins1.len() implies names_field(fields, n, #[trigger] ins1[k].1) by {
            if k < ins.len() {
                assert(ins1[k] == ins[k]);
            }
        }
        let (ls2, ins2) = if f.description@.len() > 0 {
            (ls1.push(f.description@), ins1.push((f.description@, f.name@)))
        } else {
            (ls1, ins1)
        };
        assert forall|i: int| 0 <= i < ls2.len() implies inserted(ins2, #[trigger] ls2[i]) by {
            if i < ls1.len() {
                let k = choose|k: int| 0 <= k < ins1.len() && #[trigger] ins1[k].0 == ls1[i];
                assert(ins2[k].0 == ls2[i]);
            } else {
                assert(ins2[ins1.len() as int].0 == ls2[i]);
            }
        }
        assert forall|k: int| 0 <= k < ins2.len() implies names_field(fields, n, #[trigger] ins2[k].1) by {
            if k < ins1.len() {
                assert(ins2[k] == ins1[k]);
            }
        }
        lemma_add_aliases_keeps((ls2, ins2), field_aliases(f), f.name@, fields, n);
        assert(labels_upto(fields, n) == add_aliases((ls2, ins2), field_aliases(f), f.name@));
    }
}

/// Every label asked of GLiNER fills a field of the schema: the label's
/// last insertion names one of the schema's fields.
pub proof fn lemma_every_label_fills_a_field(fields: Seq<FieldSchema>, i: int)
    requires
        0 <= i < schema_labels(fields).0.len(),
    ensures
        label_target(schema_labels(fields).1, schema_labels(fields).0[i]) matches Some(n)
            && exists|f: int| 0 <= f < fields.len() && #[trigger] fields[f].name@ == n,
{
    lemma_labels_upto_fill_fields(fields, fields.len() as int);
    let st = schema_labels(fields);
    assert(inserted(st.1, st.0[i]));
    lemma_target_of_inserted(st.1, st.0[i]);
    let n = label_target(st.1, st.0[i])->0;
    let k = choose|k: int| 0 <= k < st.1.len() && #[trigger] st.1[k] == (st.0[i], n);
    assert(names_field(fields, fields.len() as int, st.1[k].1));
}

/// A numeric field whose lowercased name mentions `cost`, where neither
/// name nor description mentions `tax`, gets the price labels `base
/// price`, `item price` and `cost`.
pub proof fn lemma_cost_field_gets_price_aliases(f: FieldSchema)
    requires
        f.field_type == FieldType::Float || f.field_type == FieldType::Integer,
        contains_seq(lowercase_of(f.name@), "cost"@),
        !contains_seq(lowercase_of(f.name@), "tax"@),
        !contains_seq(lowercase_of(f.description@), "tax"@),
    ensures
        field_aliases(f) == seq!["base price"@, "item price"@, "cost"@],
{
}

/// Adding aliases keeps what was there, adds every alias as a label and
/// records every alias for the field.
proof fn lemma_add_aliases_holds(st: LabelState, aliases: Seq<Seq<char>>, name: Seq<char>)
    ensures
        ({
            let r = add_aliases(st, aliases, name);
            &&& st.0.len() <= r.0.len() && r.0.subrange(0, st.0.len() as int) == st.0
            &&& st.1.len() <= r.1.len() && r.1.subrange(0, st.1.len() as int) == st.1
            &&& forall|a: int| 0 <= a < aliases.len() ==> r.0.contains(#[trigger] aliases[a]) && r.1.contains(
                (aliases[a], name),
            )
        }),
    decreases aliases.len(),
{
    if aliases.len() > 0 {
        lemma_add_aliases_holds(st, aliases.drop_last(), name);
        let (ls, ins) = add_aliases(st, aliases.drop_last(), name);
        let a = aliases.last();
        let r = add_aliases(st, aliases, name);
        assert(r.1 == ins.push((a, name)));
        assert(r.1.subrange(0, st.1.len() as int) =~= ins.subrange(0, st.1.len() as int));
        if !ls.contains(a) {
            assert(r.0.subrange(0, st.0.len() as int) =~= ls.subrange(0, st.0.len() as int));
            assert(r.0[ls.len() as int] == a);
        }
        assert forall|x: int| 0 <= x < aliases.len() implies r.0.contains(#[trigger] aliases[x]) && r.1.contains(
            (aliases[x], name),
        ) by {
            if x < aliases.len() - 1 {
                assert(aliases.drop_last()[x] == aliases[x]);
                assert(ls.contains(aliases[x]));
                let w = choose|w: int| 0 <= w < ls.len() && ls[w] == aliases[x];
                assert(r.0[w] == aliases[x]);
                assert(ins.contains((aliases[x], name)));
                let v = choose|v: int| 0 <= v < ins.len() && ins[v] == (aliases[x], name);
                assert(r.1[v] == (aliases[x], name));
            } else {
                assert(r.1[ins.len() as int] == (a, name));
                if ls.contains(a) {
                    let w = choose|w: int| 0 <= w < ls.len() && ls[w] == a;
                    assert(r.0[w] == a);
                }
            }
        }
    }
}

/// The labels of later fields only add to those of earlier ones.
proof fn lemma_labels_upto_grow(fields: Seq<FieldSchema>, n: int, m: int)
    requires
        0 <= n <= m,
    ensures
        ({
            let a = labels_upto(fields, n);
            let b = labels_upto(fields, m);
            &&& a.0.len() <= b.0.len() && b.0.subrange(0, a.0.len() as int) == a.0
            &&& a.1.len() <= b.1.len() && b.1.subrange(0, a.1.len() as int) == a.1
        }),
    decreases m - n,
{
    if n < m {
        lemma_labels_upto_grow(fields, n, m - 1);
        let a = labels_upto(fields, n);
        let c = labels_upto(fields, m - 1);
        let f = fields[m - 1];
        let (ls, ins) = c;
        let (ls1, ins1) = if adds_name_label(f) {
            (ls.push(f.name@), ins.push((f.name@, f.name@)))
        } else {
            (ls, ins)
        };
        let (ls2, ins2) = if f.description@.len() > 0 {
            (ls1.push(f.description@), ins1.push((f.description@, f.name@)))
        } else {
            (ls1, ins1)
        };
        lemma_add_aliases_holds((ls2, ins2), field_aliases(f), f.name@);
        let b = labels_upto(fields, m);
        assert(b == add_aliases((ls2, ins2), field_aliases(f), f.name@));
        assert(b.0.subrange(0, a.0.len() as int) =~= ls2.subrange(0, ls.len() as int).subrange(0, a.0.len() as int)) by {
            assert(b.0.subrange(0, ls2.len() as int) == ls2);
        }
        assert(ls2.subrange(0, ls.len() as int) =~= ls);
        assert(b.1.subrange(0, ins2.len() as int) == ins2);
        assert(ins2.subrange(0, ins.len() as int) =~= ins);
        assert(b.1.subrange(0, a.1.len() as int) =~= ins2.subrange(0, ins.len() as int).subrange(0, a.1.len() as int));
    }
}

/// In the labels of a schema, every alias of a field is a label, and is
/// recorded as filling that field.
pub proof fn lemma_field_aliases_in_labels(fields: Seq<FieldSchema>, i: int)
    requires
        0 <= i < fields.len(),
    ensures
        forall|a: int|
            0 <= a < field_aliases(fields[i]).len() ==> schema_labels(fields).0.contains(
                #[trigger] field_aliases(fields[i])[a],
            ) && schema_labels(fields).1.contains((field_aliases(fields[i])[a], fields[i].name@)),
{
    let f = fields[i];
    let c = labels_upto(fields, i);
    let (ls, ins) = c;
    let (ls1, ins1) = if adds_name_label(f) {
        (ls.push(f.name@), ins.push((f.name@, f.name@)))
    } else {
        (ls, ins)
    };
    let (ls2, ins2) = if f.description@.len() > 0 {
        (ls1.push(f.description@), ins1.push((f.description@, f.name@)))
    } else {
        (ls1, ins1)
    };
    lemma_add_aliases_holds((ls2, ins2), field_aliases(f), f.name@);
    let here = labels_upto(fields, i + 1);
    assert(here == add_aliases((ls2, ins2), field_aliases(f), f.name@));
    lemma_labels_upto_grow(fields, i + 1, fields.len() as int);
    let all = schema_labels(fields);
    assert forall|a: int| 0 <= a < field_aliases(f).len() implies all.0.contains(#[trigger] field_aliases(f)[a])
        && all.1.contains((field_aliases(f)[a], f.name@)) by {
        let x = field_aliases(f)[a];
        let w = choose|w: int| 0 <= w < here.0.len() && here.0[w] == x;
        assert(all.0.subrange(0, here.0.len() as int)[w] == all.0[w]);
        let v = choose|v: int| 0 <= v < here.1.len() && here.1[v] == (x, f.name@);
        assert(all.1.subrange(0, here.1.len() as int)[v] == all.1[v]);
    }
}

/// A numeric field whose lowercased name mentions `cost` (and neither name
/// nor description mentions `tax`) puts `base price`, `item price` and
/// `cost` among the schema's labels, each recorded for that field.
pub proof fn lemma_cost_field_labels(fields: Seq<FieldSchema>, i: int)
    requires
        0 <= i < fields.len(),
        fields[i].field_type == FieldType::Float || fields[i].field_type == FieldType::Integer,
        contains_seq(lowercase_of(fields[i].name@), "cost"@),
        !contains_seq(lowercase_of(fields[i].name@), "tax"@),
        !contains_seq(lowercase_of(fields[i].description@), "tax"@),
    ensures
        schema_labels(fields).0.contains("base price"@),
        schema_labels(fields).0.contains("item price"@),
        schema_labels(fields).0.contains("cost"@),
        schema_labels(fields).1.contains(("base price"@, fields[i].name@)),
        schema_labels(fields).1.contains(("item price"@, fields[i].name@)),
        schema_labels(fields).1.contains(("cost"@, fields[i].name@)),
{
    lemma_cost_field_gets_price_aliases(fields[i]);
    lemma_field_aliases_in_labels(fields, i);
    let al = field_aliases(fields[i]);
    assert(al[0] == "base price"@);
    assert(al[1] == "item price"@);
    assert(al[2] == "cost"@);
}

} // verus!
