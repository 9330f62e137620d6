//! The context boost of a string span: words around it that suggest a
//! purchase raise it, words that suggest a search or a stock quote lower it.
use vstd::prelude::*;
use crate::text::{
    is_ascii_text, lemma_ascii_byte_offset, lemma_ascii_bytes_len, lemma_ascii_lowercase_ascii,
    byte_offsets, byte_slice, bytes_len, bytes_len_capped, char_index_at, char_index_for,
    contains_chars, contains_seq, is_boundary, lowercase_chars, lowercase_of, str_chars, sub_chars,
    views_of,
};

verus! {

/// Words before or after a span that suggest it names a purchased item.
pub open spec fn purchase_indicators() -> Seq<Seq<char>> {
    seq![
        "purchase"@,
        "purchased"@,
        "buy"@,
        "bought"@,
        "order"@,
        "ordered"@,
        "kept"@,
        "product named"@,
        "called"@,
        "title"@,
        "item named"@
    ]
}

/// Words that suggest a span is a search term.
pub open spec fn distractor_indicators() -> Seq<Seq<char>> {
    seq![
        "keyword"@,
        "keywords"@,
        "filter"@,
        "filters"@,
        "search for"@,
        "find"@
    ]
}

/// Words that suggest a span is a stock ticker.
pub open spec fn stock_indicators() -> Seq<Seq<char>> {
    seq![
        "price for"@,
        "price of"@,
        "earnings like for"@,
        "earnings for"@,
        "earnings of"@,
        "stock"@,
        "shares"@,
        "ticker"@,
        "dividend"@
    ]
}

/// For each indicator in order: `before_weight` if the text before the
/// span holds it, then `after_weight` if the text after it does.
pub open spec fn indicator_terms(
    before: Seq<char>,
    after: Seq<char>,
    inds: Seq<Seq<char>>,
    before_weight: int,
    after_weight: int,
) -> Seq<int>
    decreases inds.len(),
{
    if inds.len() == 0 {
        seq![]
    } else {
        indicator_terms(before, after, inds.drop_last(), before_weight, after_weight) + (if contains_seq(
            before,
            inds.last(),
        ) {
            seq![before_weight]
        } else {
            seq![]
        }) + (if contains_seq(after, inds.last()) {
            seq![after_weight]
        } else {
            seq![]
        })
    }
}

/// The start of the window before a span: 30 bytes back, or the start.
pub open spec fn window_start(s: int) -> int {
    if s > 30 {
        s - 30
    } else {
        0
    }
}

/// The end of the window after a span: 30 bytes on, or the end.
pub open spec fn window_end(l: Seq<char>, e: int) -> int {
    if e + 30 < bytes_len(l) {
        e + 30
    } else {
        bytes_len(l) as int
    }
}

/// The context windows are byte slices of the lowercased text, whose
/// ends must be character boundaries, in order.
pub open spec fn context_defined(input: Seq<char>, s: int, e: int) -> bool {
    let l = lowercase_of(input);
    &&& bytes_len(l) <= u64::MAX
    &&& is_boundary(l, window_start(s))
    &&& is_boundary(l, s)
    &&& is_boundary(l, e)
    &&& is_boundary(l, window_end(l, e))
    &&& e <= window_end(l, e)
}

/// The boost increments, in hundredths, for a span at byte offsets
/// `[s, e)` of the lowercased input: +15/+8 per purchase word before/after
/// it, -30/-15 per search word, -35/-20 per stock word, in that order.
pub open spec fn context_terms(input: Seq<char>, s: int, e: int) -> Seq<int> {
    let l = lowercase_of(input);
    let before = byte_slice(l, window_start(s), s);
    let after = byte_slice(l, e, window_end(l, e));
    indicator_terms(before, after, purchase_indicators(), 15, 8) + indicator_terms(
        before,
        after,
        distractor_indicators(),
        -30,
        -15,
    ) + indicator_terms(before, after, stock_indicators(), -35, -20)
}

/// The sum of a sequence of integers.
pub open spec fn sum_of(s: Seq<int>) -> int
    decreases s.len(),
{
    if s.len() == 0 {
        0
    } else {
        sum_of(s.drop_last()) + s.last()
    }
}

proof fn lemma_sum_concat(a: Seq<int>, b: Seq<int>)
    ensures
        sum_of(a + b) == sum_of(a) + sum_of(b),
    decreases b.len(),
{
    if b.len() > 0 {
        lemma_sum_concat(a, b.drop_last());
        assert((a + b).drop_last() =~= a + b.drop_last());
    }
}

/// Each indicator adds between `lo` and `hi` to the sum.
proof fn lemma_indicator_sum(
    before: Seq<char>,
    after: Seq<char>,
    inds: Seq<Seq<char>>,
    bw: int,
    aw: int,
    lo: int,
    hi: int,
)
    requires
        lo <= 0 && lo <= bw && lo <= aw && lo <= bw + aw,
        0 <= hi && bw <= hi && aw <= hi && bw + aw <= hi,
    ensures
        inds.len() * lo <= sum_of(indicator_terms(before, after, inds, bw, aw)) <= inds.len() * hi,
    decreases inds.len(),
{
    if inds.len() > 0 {
        let n = inds.len() as int;
        lemma_indicator_sum(before, after, inds.drop_last(), bw, aw, lo, hi);
        let prev = indicator_terms(before, after, inds.drop_last(), bw, aw);
        let b = if contains_seq(before, inds.last()) { seq![bw] } else { seq![] };
        let a = if contains_seq(after, inds.last()) { seq![aw] } else { seq![] };
        lemma_sum_concat(prev, b);
        lemma_sum_concat(prev + b, a);
        assert(sum_of(seq![bw]) == bw) by {
            assert(seq![bw].drop_last() =~= Seq::<int>::empty());
        }
        assert(sum_of(seq![aw]) == aw) by {
            assert(seq![aw].drop_last() =~= Seq::<int>::empty());
        }
        assert((n - 1) * lo + lo == n * lo) by (nonlinear_arith);
        assert((n - 1) * hi + hi == n * hi) by (nonlinear_arith);
    }
}

/// The context boost of a span, in hundredths, lies between -765 (every
/// search and stock word before and after it) and 253 (every purchase word
/// before and after it).
pub proof fn lemma_context_boost_bounded(input: Seq<char>, s: int, e: int)
    ensures
        -765 <= sum_of(context_terms(input, s, e)) <= 253,
{
    let l = lowercase_of(input);
    let before = byte_slice(l, window_start(s), s);
    let after = byte_slice(l, e, window_end(l, e));
    let p = indicator_terms(before, after, purchase_indicators(), 15, 8);
    let d = indicator_terms(before, after, distractor_indicators(), -30, -15);
    let k = indicator_terms(before, after, stock_indicators(), -35, -20);
    lemma_indicator_sum(before, after, purchase_indicators(), 15, 8, 0, 23);
    lemma_indicator_sum(before, after, distractor_indicators(), -30, -15, -45, 0);
    lemma_indicator_sum(before, after, stock_indicators(), -35, -20, -55, 0);
    lemma_sum_concat(p, d);
    lemma_sum_concat(p + d, k);
}

fn indicator_list(which: u8) -> (v: Vec<Vec<char>>)
    ensures
        which == 0 ==> views_of(v@) == purchase_indicators(),
        which == 1 ==> views_of(v@) == distractor_indicators(),
        which >= 2 ==> views_of(v@) == stock_indicators(),
{
    if which == 0 {
        let v = vec![
            str_chars("purchase"),
        str_chars("purchased"),
        str_chars("buy"),
        str_chars("bought"),
        str_chars("order"),
        str_chars("ordered"),
        str_chars("kept"),
        str_chars("product named"),
        str_chars("called"),
        str_chars("title"),
        str_chars("item named")
        ];
        assert(views_of(v@) =~= purchase_indicators());
        v
    } else if which == 1 {
        let v = vec![
            str_chars("keyword"),
        str_chars("keywords"),
        str_chars("filter"),
        str_chars("filters"),
        str_chars("search for"),
        str_chars("find")
        ];
        assert(views_of(v@) =~= distractor_indicators());
        v
    } else {
        let v = vec![
            str_chars("price for"),
        str_chars("price of"),
        str_chars("earnings like for"),
        str_chars("earnings for"),
        str_chars("earnings of"),
        str_chars("stock"),
        str_chars("shares"),
        str_chars("ticker"),
        str_chars("dividend")
        ];
        assert(views_of(v@) =~= stock_indicators());
        v
    }
}

fn push_terms(
    out: &mut Vec<i32>,
    before: &Vec<char>,
    after: &Vec<char>,
    inds: &Vec<Vec<char>>,
    before_weight: i32,
    after_weight: i32,
)
    ensures
        final(out)@.map_values(|x: i32| x as int) == old(out)@.map_values(|x: i32| x as int)
            + indicator_terms(before@, after@, views_of(inds@), before_weight as int, after_weight as int),
{
    let ghost base = out@.map_values(|x: i32| x as int);
    let ghost iv = views_of(inds@);
    let mut i: usize = 0;
    while i < inds.len()
        invariant
            i <= inds@.len(),
            iv == views_of(inds@),
            out@.map_values(|x: i32| x as int) == base + indicator_terms(
                before@,
                after@,
                iv.take(i as int),
                before_weight as int,
                after_weight as int,
            ),
        decreases inds@.len() - i,
    {
        assert(iv.take(i + 1).drop_last() =~= iv.take(i as int));
        assert(iv.take(i + 1).last() == inds@[i as int]@);
        let ghost prev = out@.map_values(|x: i32| x as int);
        if contains_chars(before, &inds[i]) {
            out.push(before_weight);
        }
        let ghost mid = out@.map_values(|x: i32| x as int);
        if contains_chars(after, &inds[i]) {
            out.push(after_weight);
        }
        assert(out@.map_values(|x: i32| x as int) =~= prev + (if contains_seq(before@, inds@[i as int]@) {
            seq![before_weight as int]
        } else {
            seq![]
        }) + (if contains_seq(after@, inds@[i as int]@) {
            seq![after_weight as int]
        } else {
            seq![]
        }));
        i = i + 1;
    }
    assert(iv.take(inds@.len() as int) =~= iv);
}

/// In an ASCII text every offset up to its length is a character
/// boundary, so the windows around a span inside it are defined.
proof fn lemma_ascii_context_defined(l: Seq<char>, s: int, e: int)
    requires
        is_ascii_text(l),
        0 <= s <= l.len(),
        0 <= e <= l.len(),
        l.len() <= usize::MAX,
    ensures
        bytes_len(l) <= u64::MAX,
        is_boundary(l, window_start(s)),
        is_boundary(l, s),
        is_boundary(l, e),
        is_boundary(l, window_end(l, e)),
        e <= window_end(l, e),
{
    lemma_ascii_bytes_len(l);
    lemma_ascii_byte_offset(l, window_start(s));
    lemma_ascii_byte_offset(l, s);
    lemma_ascii_byte_offset(l, e);
    lemma_ascii_byte_offset(l, window_end(l, e));
}

/// The context boost of a string span at byte offsets `[span_start,
/// span_end)` of the lowercased input, as its increments in hundredths,
/// in the order they add up. `None` where a window's ends are not
/// character boundaries in order (see `context_defined`).
pub fn calculate_context_boost(input: &str, span_start: usize, span_end: usize) -> (r: Option<Vec<i32>>)
    ensures
        r is Some <==> context_defined(input@, span_start as int, span_end as int),
        is_ascii_text(input@) && span_start <= input@.len() && span_end <= input@.len() ==> r is Some,
        r matches Some(t) ==> t@.map_values(|x: i32| x as int) == context_terms(
            input@,
            span_start as int,
            span_end as int,
        ),
{
    let l = lowercase_chars(input);
    let ll = l.len();
    proof {
        if is_ascii_text(input@) && span_start <= input@.len() && span_end <= input@.len() {
            lemma_ascii_lowercase_ascii(input@);
            lemma_ascii_context_defined(l@, span_start as int, span_end as int);
        }
    }
    let total = match bytes_len_capped(&l, u64::MAX) {
        Some(t) => t,
        None => {
            return None;
        },
    };
    let offs = byte_offsets(&l);
    assert(l@.take(l@.len() as int) =~= l@);
    assert(offs@[l@.len() as int] == total);
    let s = span_start as u64;
    let e = span_end as u64;
    let ws: u64 = if s > 30 {
        s - 30
    } else {
        0
    };
    let we: u64 = if e < total && total - e > 30 {
        e + 30
    } else {
        total
    };
    assert(we as int == window_end(l@, e as int));
    let k_ws = char_index_for(&l, &offs, ws);
    let k_s = char_index_for(&l, &offs, s);
    let k_e = char_index_for(&l, &offs, e);
    let k_we = char_index_for(&l, &offs, we);
    match (k_ws, k_s, k_e, k_we) {
        (Some(a), Some(b), Some(c), Some(d)) => {
            if e > we {
                return None;
            }
            proof {
                crate::text::lemma_char_index_at(l@, a as int);
                crate::text::lemma_char_index_at(l@, b as int);
                crate::text::lemma_char_index_at(l@, c as int);
                crate::text::lemma_char_index_at(l@, d as int);
                if b < a {
                    crate::text::lemma_byte_offset_monotone(l@, b as int, a as int);
                }
                if d < c {
                    crate::text::lemma_byte_offset_monotone(l@, d as int, c as int);
                }
            }
            let before = sub_chars(&l, a, b);
            let after = sub_chars(&l, c, d);
            let mut out: Vec<i32> = Vec::new();
            assert(out@.map_values(|x: i32| x as int) =~= Seq::<int>::empty());
            push_terms(&mut out, &before, &after, &indicator_list(0), 15, 8);
            push_terms(&mut out, &before, &after, &indicator_list(1), -30, -15);
            push_terms(&mut out, &before, &after, &indicator_list(2), -35, -20);
            Some(out)
        },
        _ => None,
    }
}

} // verus!
