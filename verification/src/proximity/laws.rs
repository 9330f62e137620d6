//! What holds of every result of the proximity heuristic.
use vstd::prelude::*;
use crate::schema::{FieldSchema, FieldType, ValueView};
use crate::text::{bytes_len, lowercase_of};
use crate::proximity::words::number_candidates;
use crate::proximity::values::{apostrophe_in_word, bool_candidates, quote_scan, quoted_candidates, quoted_in, TextCandidate};
use crate::proximity::assign::{
    assignment, cand_taken, first_min, from_pairs, greedy, lemma_first_min_bounds,
    lemma_greedy_one_to_one, one_to_one, pairs_from, table_pairs, unassigned, ScoredPair,
};
use crate::proximity::scoring::{is_number_type, number_table, bool_table, text_table};
use crate::proximity::heuristic::{all_anchors, chosen_positions, proximity_result, text_candidates};

verus! {

/// The value is of the kind a field of type `t` holds.
pub open spec fn value_fits(t: FieldType, v: ValueView) -> bool {
    match t {
        FieldType::String => v is Text,
        FieldType::Integer => v is Integer,
        FieldType::Float => v is Float,
        FieldType::Boolean => v is Boolean,
    }
}

/// The heuristic answers every field of the schema, in order, under the
/// field's name and with a value of the field's type.
pub proof fn lemma_proximity_result_shape(input: Seq<char>, fields: Seq<FieldSchema>)
    ensures
        proximity_result(input, fields).len() == fields.len(),
        forall|f: int|
            0 <= f < fields.len() ==> #[trigger] proximity_result(input, fields)[f].name == fields[f].name@
                && value_fits(fields[f].field_type, proximity_result(input, fields)[f].value),
{
}

/// Every pair of a score table names a row and a column of that row.
pub proof fn lemma_pairs_in_table(rows: Seq<Seq<int>>, n: int)
    requires
        0 <= n <= rows.len(),
    ensures
        forall|k: int|
            0 <= k < pairs_from(rows, n).len() ==> 0 <= #[trigger] pairs_from(rows, n)[k].field < n
                && 0 <= pairs_from(rows, n)[k].cand < rows[pairs_from(rows, n)[k].field].len(),
    decreases n,
{
    if n > 0 {
        lemma_pairs_in_table(rows, n - 1);
        let prev = pairs_from(rows, n - 1);
        let row = Seq::new(
            rows[n - 1].len(),
            |j: int| ScoredPair { field: n - 1, cand: j, score: rows[n - 1][j] },
        );
        assert forall|k: int| 0 <= k < pairs_from(rows, n).len() implies 0 <= #[trigger] pairs_from(
            rows,
            n,
        )[k].field < n && 0 <= pairs_from(rows, n)[k].cand < rows[pairs_from(rows, n)[k].field].len() by {
            if k < prev.len() {
                assert(pairs_from(rows, n)[k] == prev[k]);
            } else {
                assert(pairs_from(rows, n)[k] == row[k - prev.len()]);
            }
        }
    }
}

/// The greedy assignment over a score table gives each field at most one
/// candidate, never gives one candidate to two fields, and gives a field
/// only a candidate of its own row (so a field of another type, whose row
/// is empty, gets none).
pub proof fn lemma_table_assignment(rows: Seq<Seq<int>>)
    ensures
        assignment(table_pairs(rows), rows.len() as int).len() == rows.len(),
        one_to_one(assignment(table_pairs(rows), rows.len() as int)),
        forall|f: int|
            0 <= f < rows.len() && (#[trigger] assignment(table_pairs(rows), rows.len() as int)[f]) is Some
                ==> 0 <= assignment(table_pairs(rows), rows.len() as int)[f]->0 < rows[f].len(),
{
    let ps = table_pairs(rows);
    let n = rows.len() as int;
    let init = unassigned(n);
    assert forall|k: int| 0 <= k < ps.len() implies ps.contains(#[trigger] ps[k]) by {}
    lemma_greedy_one_to_one(ps, init, ps);
    lemma_pairs_in_table(rows, n);
    let a = assignment(ps, n);
    assert forall|f: int| 0 <= f < rows.len() && (#[trigger] a[f]) is Some implies 0 <= a[f]->0
        < rows[f].len() by {
        let k = choose|k: int| 0 <= k < ps.len() && ps[k].field == f && ps[k].cand == a[f]->0;
        assert(0 <= ps[k].cand < rows[ps[k].field].len());
    }
}

/// In the heuristic, a number fills at most one field and only a numeric
/// one; a boolean fills at most one boolean field; a string fills at most
/// one string field.
pub proof fn lemma_proximity_values_used_once(input: Seq<char>, fields: Seq<FieldSchema>)
    ensures
        ({
            let l = lowercase_of(input);
            let tl = bytes_len(l) as int;
            let anchors = all_anchors(l, fields);
            let nums = number_candidates(l);
            let an = assignment(table_pairs(number_table(fields, anchors, nums, tl)), fields.len() as int);
            &&& one_to_one(an)
            &&& forall|f: int| 0 <= f < fields.len() && (#[trigger] an[f]) is Some ==> is_number_type(fields[f].field_type) && an[f]->0 < nums.len()
        }),
        ({
            let l = lowercase_of(input);
            let tl = bytes_len(l) as int;
            let anchors = all_anchors(l, fields);
            let bools = bool_candidates(l);
            let ab = assignment(table_pairs(bool_table(fields, anchors, bools, tl)), fields.len() as int);
            &&& one_to_one(ab)
            &&& forall|f: int| 0 <= f < fields.len() && (#[trigger] ab[f]) is Some ==> fields[f].field_type == FieldType::Boolean && ab[f]->0 < bools.len()
        }),
        ({
            let l = lowercase_of(input);
            let tl = bytes_len(l) as int;
            let anchors = all_anchors(l, fields);
            let nums = number_candidates(l);
            let an = assignment(table_pairs(number_table(fields, anchors, nums, tl)), fields.len() as int);
            let texts = text_candidates(input, l);
            let chosen = chosen_positions(an, nums, fields.len() as int);
            let at = assignment(table_pairs(text_table(fields, anchors, chosen, texts, tl)), fields.len() as int);
            &&& one_to_one(at)
            &&& forall|f: int| 0 <= f < fields.len() && (#[trigger] at[f]) is Some ==> fields[f].field_type == FieldType::String && at[f]->0 < texts.len()
        }),
{
    let l = lowercase_of(input);
    let tl = bytes_len(l) as int;
    let anchors = all_anchors(l, fields);
    let nums = number_candidates(l);
    let nt = number_table(fields, anchors, nums, tl);
    lemma_table_assignment(nt);
    let bt = bool_table(fields, anchors, bool_candidates(l), tl);
    lemma_table_assignment(bt);
    let an = assignment(table_pairs(nt), fields.len() as int);
    let texts = text_candidates(input, l);
    let chosen = chosen_positions(an, nums, fields.len() as int);
    let tt = text_table(fields, anchors, chosen, texts, tl);
    lemma_table_assignment(tt);
}

/// Greedy assignment never takes back a candidate it gave.
pub proof fn lemma_greedy_keeps(ps: Seq<ScoredPair>, assign: Seq<Option<int>>, f: int)
    requires
        0 <= f < assign.len(),
        assign[f] is Some,
    ensures
        greedy(ps, assign)[f] == assign[f],
        greedy(ps, assign).len() == assign.len(),
    decreases ps.len(),
{
    if ps.len() > 0 {
        lemma_first_min_bounds(ps);
        let m = first_min(ps);
        let p = ps[m];
        let next = if 0 <= p.field < assign.len() && assign[p.field] is None && !cand_taken(
            assign,
            p.cand,
        ) {
            assign.update(p.field, Some(p.cand))
        } else {
            assign
        };
        lemma_greedy_keeps(ps.remove(m), next, f);
    }
}

/// Greedy assignment takes the best pair: the first pair with the lowest
/// score always gets its candidate for its field.
pub proof fn lemma_greedy_takes_best(ps: Seq<ScoredPair>, n: int)
    requires
        ps.len() > 0,
        0 <= ps[first_min(ps)].field < n,
    ensures
        assignment(ps, n)[ps[first_min(ps)].field] == Some(ps[first_min(ps)].cand),
{
    lemma_first_min_bounds(ps);
    let m = first_min(ps);
    let p = ps[m];
    let init = unassigned(n);
    assert(!cand_taken(init, p.cand));
    let next = init.update(p.field, Some(p.cand));
    assert(greedy(ps, init) == greedy(ps.remove(m), next));
    lemma_greedy_keeps(ps.remove(m), next, p.field);
}

/// A quotation of `s`: its text lies, as written, between two equal quote
/// characters of `s`.
pub open spec fn is_quotation(s: Seq<char>, c: TextCandidate) -> bool {
    let close = c.start + c.value.len() + 1;
    &&& 0 <= c.start
    &&& close < s.len()
    &&& (s[c.start] == '\'' || s[c.start] == '"' || s[c.start] == '`')
    &&& s[close] == s[c.start]
    &&& c.value == s.subrange(c.start + 1, close)
}

proof fn lemma_quote_scan_quotations(s: Seq<char>, qt: char, i: int)
    requires
        0 <= i <= s.len(),
        qt == '\'' || qt == '"' || qt == '`',
    ensures
        forall|k: int| 0 <= k < quote_scan(s, qt, i).0.len() ==> is_quotation(s, #[trigger] quote_scan(s, qt, i).0[k])
            && quote_scan(s, qt, i).0[k].start + quote_scan(s, qt, i).0[k].value.len() + 1 < i
            && s[quote_scan(s, qt, i).0[k].start] == qt,
        quote_scan(s, qt, i).1 matches Some(st) ==> 0 <= st < i && s[st] == qt,
    decreases i,
{
    if i > 0 {
        lemma_quote_scan_quotations(s, qt, i - 1);
        let (cs, open) = quote_scan(s, qt, i - 1);
        let idx = i - 1;
        if s[idx] != qt || apostrophe_in_word(s, qt, idx) {
        } else {
            match open {
                Some(st) => {
                    let c = TextCandidate { value: s.subrange(st + 1, idx), start: st };
                    assert(c.start + c.value.len() + 1 == idx);
                    let r = cs.push(c);
                    assert forall|k: int| 0 <= k < r.len() implies is_quotation(s, #[trigger] r[k])
                        && r[k].start + r[k].value.len() + 1 < i && s[r[k].start] == qt by {
                        if k < cs.len() {
                            assert(r[k] == cs[k]);
                        }
                    }
                },
                None => {},
            }
        }
    }
}

/// Every quotation candidate of a text is its text between two equal
/// quote characters, as written (its case kept).
pub proof fn lemma_quoted_candidates_as_written(s: Seq<char>)
    ensures
        forall|k: int| 0 <= k < quoted_candidates(s).len() ==> is_quotation(s, #[trigger] quoted_candidates(s)[k]),
{
    lemma_quote_scan_quotations(s, '\'', s.len() as int);
    lemma_quote_scan_quotations(s, '"', s.len() as int);
    lemma_quote_scan_quotations(s, '`', s.len() as int);
    let a = quoted_in(s, '\'');
    let b = quoted_in(s, '"');
    let c = quoted_in(s, '`');
    assert forall|k: int| 0 <= k < quoted_candidates(s).len() implies is_quotation(s, #[trigger] quoted_candidates(s)[k]) by {
        if k < a.len() {
            assert(quoted_candidates(s)[k] == a[k]);
        } else if k < a.len() + b.len() {
            assert(quoted_candidates(s)[k] == b[k - a.len()]);
        } else {
            assert(quoted_candidates(s)[k] == c[k - a.len() - b.len()]);
        }
    }
}

/// When the text holds a quotation, every string field gets either its
/// default or the text of one of the text's quotations, as written in the
/// input: string values keep their case, though the rest of the heuristic
/// reads the lowercased text.
pub proof fn lemma_quoted_values_keep_case(input: Seq<char>, fields: Seq<FieldSchema>, f: int)
    requires
        0 <= f < fields.len(),
        fields[f].field_type == FieldType::String,
        quoted_candidates(input).len() > 0,
    ensures
        proximity_result(input, fields)[f].value matches ValueView::Text(v) && (v == "unknown"@ || v
            == Seq::<char>::empty() || exists|k: int|
            0 <= k < quoted_candidates(input).len() && #[trigger] quoted_candidates(input)[k].value == v
                && is_quotation(input, quoted_candidates(input)[k])),
{
    lemma_quoted_candidates_as_written(input);
    let l = lowercase_of(input);
    let texts = text_candidates(input, l);
    assert(texts == quoted_candidates(input));
    let tl = bytes_len(l) as int;
    let anchors = all_anchors(l, fields);
    let nums = number_candidates(l);
    let an = assignment(table_pairs(number_table(fields, anchors, nums, tl)), fields.len() as int);
    let chosen = chosen_positions(an, nums, fields.len() as int);
    let tt = text_table(fields, anchors, chosen, texts, tl);
    lemma_table_assignment(tt);
    let at = assignment(table_pairs(tt), fields.len() as int);
    assert(at.len() == fields.len());
    if at[f] is Some {
        let k = at[f]->0;
        assert(tt[f].len() == texts.len());
        assert(0 <= k < texts.len());
        assert(is_quotation(input, quoted_candidates(input)[k]));
    }
}

/// One of the quote characters `'`, `"` and `` ` ``.
pub open spec fn is_quote_char(c: char) -> bool {
    c == '\'' || c == '"' || c == '`'
}

proof fn lemma_scan_without(s: Seq<char>, qt: char, n: int)
    requires
        0 <= n <= s.len(),
        forall|k: int| 0 <= k < s.len() ==> #[trigger] s[k] != qt,
    ensures
        quote_scan(s, qt, n).0.len() == 0,
        quote_scan(s, qt, n).1 is None,
    decreases n,
{
    if n > 0 {
        lemma_scan_without(s, qt, n - 1);
    }
}

proof fn lemma_scan_one_pair(s: Seq<char>, i: int, j: int, n: int)
    requires
        0 <= i < j < s.len(),
        0 <= n <= s.len(),
        forall|k: int| 0 <= k < s.len() && k != i && k != j ==> #[trigger] s[k] != s[i],
        s[j] == s[i],
        !apostrophe_in_word(s, s[i], i),
        !apostrophe_in_word(s, s[i], j),
    ensures
        n <= i ==> quote_scan(s, s[i], n) == (Seq::<TextCandidate>::empty(), None::<int>),
        i < n <= j ==> quote_scan(s, s[i], n) == (Seq::<TextCandidate>::empty(), Some(i)),
        j < n ==> quote_scan(s, s[i], n) == (seq![TextCandidate { value: s.subrange(i + 1, j), start: i }], None::<int>),
    decreases n,
{
    if n > 0 {
        lemma_scan_one_pair(s, i, j, n - 1);
    }
}

/// A lone quotation fills a lone string field verbatim: when the text
/// holds exactly two quote characters, the same one, neither an apostrophe
/// inside a word, the field's value is the text between them as written.
pub proof fn lemma_lone_quotation_verbatim(input: Seq<char>, fields: Seq<FieldSchema>, i: int, j: int)
    requires
        fields.len() == 1,
        fields[0].field_type == FieldType::String,
        0 <= i < j < input.len(),
        is_quote_char(input[i]),
        input[j] == input[i],
        forall|k: int| 0 <= k < input.len() && k != i && k != j ==> !is_quote_char(#[trigger] input[k]),
        !apostrophe_in_word(input, input[i], i),
        !apostrophe_in_word(input, input[i], j),
    ensures
        proximity_result(input, fields)[0].value == ValueView::Text(input.subrange(i + 1, j)),
{
    let qt = input[i];
    let c = TextCandidate { value: input.subrange(i + 1, j), start: i };
    lemma_scan_one_pair(input, i, j, input.len() as int);
    assert(quoted_in(input, qt) == seq![c]);
    let qs = quoted_candidates(input);
    if qt == '\'' {
        lemma_scan_without(input, '"', input.len() as int);
        lemma_scan_without(input, '`', input.len() as int);
    } else if qt == '"' {
        lemma_scan_without(input, '\'', input.len() as int);
        lemma_scan_without(input, '`', input.len() as int);
    } else {
        lemma_scan_without(input, '\'', input.len() as int);
        lemma_scan_without(input, '"', input.len() as int);
    }
    assert(qs =~= seq![c]);
    let l = lowercase_of(input);
    let texts = text_candidates(input, l);
    assert(texts == qs);
    let tl = bytes_len(l) as int;
    let anchors = all_anchors(l, fields);
    let nums = number_candidates(l);
    let an = assignment(table_pairs(number_table(fields, anchors, nums, tl)), fields.len() as int);
    let chosen = chosen_positions(an, nums, fields.len() as int);
    let tt = text_table(fields, anchors, chosen, texts, tl);
    assert(tt.len() == 1 && tt[0].len() == 1);
    let ps = table_pairs(tt);
    assert(pairs_from(tt, 0).len() == 0);
    assert(ps.len() == 1);
    assert(ps[0].field == 0 && ps[0].cand == 0);
    assert(first_min(ps) == 0);
    lemma_greedy_takes_best(ps, 1);
    let at = assignment(ps, 1);
    assert(at[0] == Some(0int));
}

} // verus!
