//! Greedy assignment of candidates to fields by score.
use vstd::prelude::*;

verus! {

/// A field, a candidate, and the score of pairing them (lower is better).
pub struct ScoredPair {
    pub field: int,
    pub cand: int,
    pub score: int,
}

/// The pairs of the first `n` rows of a score table: row `f` holds the
/// scores of field `f` against each candidate, and its pairs come in
/// candidate order after those of the rows before it.
pub open spec fn pairs_from(rows: Seq<Seq<int>>, n: int) -> Seq<ScoredPair>
    decreases n,
{
    if n <= 0 {
        seq![]
    } else {
        pairs_from(rows, n - 1) + Seq::new(
            rows[n - 1].len(),
            |j: int| ScoredPair { field: n - 1, cand: j, score: rows[n - 1][j] },
        )
    }
}

/// All pairs of a score table.
pub open spec fn table_pairs(rows: Seq<Seq<int>>) -> Seq<ScoredPair> {
    pairs_from(rows, rows.len() as int)
}

/// The index of the first pair with the least score.
pub open spec fn first_min(ps: Seq<ScoredPair>) -> int
    decreases ps.len(),
{
    if ps.len() <= 1 {
        0
    } else {
        let m = first_min(ps.drop_last());
        if ps.last().score < ps[m].score {
            ps.len() - 1
        } else {
            m
        }
    }
}

/// Some field holds candidate `c`.
pub open spec fn cand_taken(assign: Seq<Option<int>>, c: int) -> bool {
    exists|f: int| 0 <= f < assign.len() && #[trigger] assign[f] == Some(c)
}

/// Greedy assignment: take the pairs from the lowest score up (ties in
/// list order, as a stable sort leaves them); a pair is kept when its
/// field has no candidate yet and its candidate is not yet used.
pub open spec fn greedy(ps: Seq<ScoredPair>, assign: Seq<Option<int>>) -> Seq<Option<int>>
    decreases ps.len(),
{
    if ps.len() == 0 {
        assign
    } else {
        let m = first_min(ps);
        proof {
            lemma_first_min_bounds(ps);
        }
        let p = ps[m];
        let next = if 0 <= p.field < assign.len() && assign[p.field] is None && !cand_taken(
            assign,
            p.cand,
        ) {
            assign.update(p.field, Some(p.cand))
        } else {
            assign
        };
        greedy(ps.remove(m), next)
    }
}

/// No field holds a candidate.
pub open spec fn unassigned(n: int) -> Seq<Option<int>> {
    Seq::new(n as nat, |i: int| None::<int>)
}

/// The greedy assignment of `ps` over `n` fields: entry `f` holds the
/// candidate given to field `f`, if any.
pub open spec fn assignment(ps: Seq<ScoredPair>, n: int) -> Seq<Option<int>> {
    greedy(ps, unassigned(n))
}

/// No candidate is held by two fields.
pub open spec fn one_to_one(assign: Seq<Option<int>>) -> bool {
    forall|f: int, g: int|
        0 <= f < assign.len() && 0 <= g < assign.len() && f != g && #[trigger] assign[f] is Some
            && #[trigger] assign[g] is Some ==> assign[f] != assign[g]
}

/// Every held candidate comes from a pair of `ps` for that field.
pub open spec fn from_pairs(assign: Seq<Option<int>>, ps: Seq<ScoredPair>) -> bool {
    forall|f: int|
        0 <= f < assign.len() && #[trigger] assign[f] is Some ==> exists|k: int|
            0 <= k < ps.len() && ps[k].field == f && ps[k].cand == assign[f]->0
}

/// The first least pair lies in the sequence and no earlier pair scores as low.
pub proof fn lemma_first_min_bounds(ps: Seq<ScoredPair>)
    requires
        ps.len() > 0,
    ensures
        0 <= first_min(ps) < ps.len(),
        forall|k: int| 0 <= k < ps.len() ==> ps[first_min(ps)].score <= #[trigger] ps[k].score,
        forall|k: int| 0 <= k < first_min(ps) ==> ps[first_min(ps)].score < #[trigger] ps[k].score,
    decreases ps.len(),
{
    if ps.len() > 1 {
        let d = ps.drop_last();
        lemma_first_min_bounds(d);
        let m = first_min(d);
        assert(ps[m] == d[m]);
        assert forall|k: int| 0 <= k < ps.len() - 1 implies ps[k] == #[trigger] d[k] by {}
        if ps.last().score < ps[m].score {
            assert(first_min(ps) == ps.len() - 1);
            assert forall|k: int| 0 <= k < ps.len() implies ps[first_min(ps)].score
                <= #[trigger] ps[k].score by {
                if k < ps.len() - 1 {
                    assert(d[m].score <= d[k].score);
                }
            }
            assert forall|k: int| 0 <= k < first_min(ps) implies ps[first_min(ps)].score
                < #[trigger] ps[k].score by {
                assert(d[m].score <= d[k].score);
            }
        } else {
            assert(first_min(ps) == m);
            assert forall|k: int| 0 <= k < ps.len() implies ps[first_min(ps)].score
                <= #[trigger] ps[k].score by {
                if k < ps.len() - 1 {
                    assert(d[m].score <= d[k].score);
                }
            }
            assert forall|k: int| 0 <= k < first_min(ps) implies ps[first_min(ps)].score
                < #[trigger] ps[k].score by {
                assert(d[m].score < d[k].score);
            }
        }
    }
}

/// Greedy assignment never gives one candidate to two fields, and every
/// field it fills is filled from one of its own pairs.
pub proof fn lemma_greedy_one_to_one(ps: Seq<ScoredPair>, assign: Seq<Option<int>>, all: Seq<ScoredPair>)
    requires
        one_to_one(assign),
        from_pairs(assign, all),
        forall|k: int| 0 <= k < ps.len() ==> all.contains(#[trigger] ps[k]),
    ensures
        one_to_one(greedy(ps, assign)),
        from_pairs(greedy(ps, assign), all),
        greedy(ps, assign).len() == assign.len(),
    decreases ps.len(),
{
    if ps.len() > 0 {
        lemma_first_min_bounds(ps);
        let m = first_min(ps);
        let p = ps[m];
        let next = if 0 <= p.field < assign.len() && assign[p.field] is None && !cand_taken(
            assign,
            p.cand,
        ) {
            assign.update(p.field, Some(p.cand))
        } else {
            assign
        };
        assert(all.contains(p));
        assert(one_to_one(next)) by {
            if next != assign {
                assert forall|f: int, g: int|
                    0 <= f < next.len() && 0 <= g < next.len() && f != g && #[trigger] next[f] is Some
                        && #[trigger] next[g] is Some implies next[f] != next[g] by {
                    if f == p.field {
                        assert(assign[g] == next[g]);
                        if next[g] == Some(p.cand) {
                            assert(cand_taken(assign, p.cand));
                        }
                    } else if g == p.field {
                        assert(assign[f] == next[f]);
                        if next[f] == Some(p.cand) {
                            assert(cand_taken(assign, p.cand));
                        }
                    } else {
                        assert(assign[f] == next[f] && assign[g] == next[g]);
                    }
                }
            }
        }
        assert(from_pairs(next, all)) by {
            assert forall|f: int| 0 <= f < next.len() && #[trigger] next[f] is Some implies exists|
                k: int,
            | 0 <= k < all.len() && all[k].field == f && all[k].cand == next[f]->0 by {
                if next != assign && f == p.field {
                    let k = choose|k: int| 0 <= k < all.len() && all[k] == p;
                    assert(all[k].field == f && all[k].cand == next[f]->0);
                } else {
                    assert(next[f] == assign[f]);
                }
            }
        }
        let rest = ps.remove(m);
        assert forall|k: int| 0 <= k < rest.len() implies all.contains(#[trigger] rest[k]) by {
            if k < m {
                assert(rest[k] == ps[k]);
            } else {
                assert(rest[k] == ps[k + 1]);
            }
        }
        lemma_greedy_one_to_one(rest, next, all);
    }
}

/// A field and a candidate with their score.
#[derive(Debug, Clone, Copy)]
pub struct Pair {
    pub field: usize,
    pub cand: usize,
    pub score: i128,
}

impl View for Pair {
    type V = ScoredPair;

    open spec fn view(&self) -> ScoredPair {
        ScoredPair { field: self.field as int, cand: self.cand as int, score: self.score as int }
    }
}

/// The views of a sequence of pairs.
pub open spec fn pair_views(v: Seq<Pair>) -> Seq<ScoredPair> {
    v.map_values(|p: Pair| p@)
}

/// The scores of a table as integers.
pub open spec fn table_view(rows: Seq<Vec<i128>>) -> Seq<Seq<int>> {
    rows.map_values(|r: Vec<i128>| r@.map_values(|x: i128| x as int))
}

/// An assignment as integers.
pub open spec fn assign_view(a: Seq<Option<usize>>) -> Seq<Option<int>> {
    a.map_values(|o: Option<usize>| crate::proximity::words::opt_int(o))
}

/// The pairs of a score table, row by row.
pub fn build_pairs(rows: &Vec<Vec<i128>>) -> (out: Vec<Pair>)
    ensures
        pair_views(out@) == table_pairs(table_view(rows@)),
        forall|k: int|
            0 <= k < out@.len() ==> #[trigger] out@[k].field < rows@.len() && out@[k].cand
                < rows@[out@[k].field as int]@.len(),
{
    let ghost t = table_view(rows@);
    let mut out: Vec<Pair> = Vec::new();
    let mut f: usize = 0;
    while f < rows.len()
        invariant
            f <= rows@.len(),
            t == table_view(rows@),
            pair_views(out@) == pairs_from(t, f as int),
            forall|k: int|
                0 <= k < out@.len() ==> #[trigger] out@[k].field < f && out@[k].cand
                    < rows@[out@[k].field as int]@.len(),
        decreases rows@.len() - f,
    {
        let ghost base = pair_views(out@);
        let row = &rows[f];
        assert(t[f as int] == row@.map_values(|x: i128| x as int));
        let mut j: usize = 0;
        while j < row.len()
            invariant
                f < rows@.len(),
                j <= row@.len(),
                row == rows@[f as int],
                t == table_view(rows@),
                t[f as int] == row@.map_values(|x: i128| x as int),
                pair_views(out@) == base + Seq::new(
                    j as nat,
                    |c: int| ScoredPair { field: f as int, cand: c, score: t[f as int][c] },
                ),
                forall|k: int|
                    0 <= k < out@.len() ==> #[trigger] out@[k].field <= f && out@[k].cand
                        < rows@[out@[k].field as int]@.len(),
            decreases row@.len() - j,
        {
            let ghost before = pair_views(out@);
            let ghost prev = out@;
            out.push(Pair { field: f, cand: j, score: row[j] });
            assert(pair_views(out@) =~= before.push(
                ScoredPair { field: f as int, cand: j as int, score: row@[j as int] as int },
            ));
            assert(base + Seq::new(
                (j + 1) as nat,
                |c: int| ScoredPair { field: f as int, cand: c, score: t[f as int][c] },
            ) =~= (base + Seq::new(
                j as nat,
                |c: int| ScoredPair { field: f as int, cand: c, score: t[f as int][c] },
            )).push(ScoredPair { field: f as int, cand: j as int, score: row@[j as int] as int }));
            assert(forall|k: int| 0 <= k < prev.len() ==> out@[k] == prev[k]);
            j = j + 1;
        }
        assert(Seq::new(
            row@.len(),
            |c: int| ScoredPair { field: f as int, cand: c, score: t[f as int][c] },
        ) =~= Seq::new(
            t[f as int].len(),
            |c: int| ScoredPair { field: f as int, cand: c, score: t[f as int][c] },
        ));
        f = f + 1;
    }
    out
}

/// The index of the first pair with the least score.
fn find_first_min(ps: &Vec<Pair>) -> (m: usize)
    requires
        ps@.len() > 0,
    ensures
        m as int == first_min(pair_views(ps@)),
        m < ps@.len(),
{
    let ghost v = pair_views(ps@);
    let mut m: usize = 0;
    let mut i: usize = 1;
    while i < ps.len()
        invariant
            1 <= i <= ps@.len(),
            v == pair_views(ps@),
            m < i,
            m as int == first_min(v.take(i as int)),
        decreases ps@.len() - i,
    {
        assert(v.take(i + 1).drop_last() =~= v.take(i as int));
        assert(v.take(i + 1)[m as int] == v[m as int]);
        if ps[i].score < ps[m].score {
            m = i;
        }
        i = i + 1;
    }
    assert(v.take(ps@.len() as int) =~= v);
    m
}

/// Removing a pair keeps every remaining pair within the bounds.
proof fn lemma_remove_keeps_bounds(ps: Seq<Pair>, m: int, nfields: usize, ncands: usize)
    requires
        0 <= m < ps.len(),
        forall|k: int| 0 <= k < ps.len() ==> #[trigger] ps[k].field < nfields && ps[k].cand < ncands,
    ensures
        forall|k: int|
            0 <= k < ps.remove(m).len() ==> #[trigger] ps.remove(m)[k].field < nfields && ps.remove(m)[k].cand
                < ncands,
{
    let r = ps.remove(m);
    assert forall|k: int| 0 <= k < r.len() implies #[trigger] r[k].field < nfields && r[k].cand < ncands by {
        if k < m {
            assert(r[k] == ps[k]);
        } else {
            assert(r[k] == ps[k + 1]);
        }
    }
}

/// The greedy assignment of `pairs` over `nfields` fields and `ncands`
/// candidates.
pub fn greedy_assign(pairs: Vec<Pair>, nfields: usize, ncands: usize) -> (out: Vec<Option<usize>>)
    requires
        forall|k: int|
            0 <= k < pairs@.len() ==> #[trigger] pairs@[k].field < nfields && pairs@[k].cand
                < ncands,
    ensures
        assign_view(out@) == assignment(pair_views(pairs@), nfields as int),
        out@.len() == nfields,
        forall|f: int| 0 <= f < out@.len() ==> (#[trigger] out@[f] matches Some(c) ==> c < ncands),
{
    let ghost target = assignment(pair_views(pairs@), nfields as int);
    let mut assign: Vec<Option<usize>> = Vec::new();
    let mut f: usize = 0;
    while f < nfields
        invariant
            f <= nfields,
            assign@.len() == f,
            forall|g: int| 0 <= g < f ==> #[trigger] assign@[g] is None,
        decreases nfields - f,
    {
        assign.push(None);
        f = f + 1;
    }
    assert(assign_view(assign@) =~= unassigned(nfields as int));
    let mut taken: Vec<bool> = Vec::new();
    let mut c: usize = 0;
    while c < ncands
        invariant
            c <= ncands,
            taken@.len() == c,
            forall|g: int| 0 <= g < c ==> !#[trigger] taken@[g],
        decreases ncands - c,
    {
        taken.push(false);
        c = c + 1;
    }
    let mut rest = pairs;
    while rest.len() > 0
        invariant
            assign@.len() == nfields,
            taken@.len() == ncands,
            greedy(pair_views(rest@), assign_view(assign@)) == target,
            forall|k: int|
                0 <= k < rest@.len() ==> #[trigger] rest@[k].field < nfields && rest@[k].cand
                    < ncands,
            forall|g: int| 0 <= g < nfields ==> (#[trigger] assign@[g] matches Some(x) ==> x < ncands),
            forall|x: int|
                0 <= x < ncands ==> #[trigger] taken@[x] == cand_taken(assign_view(assign@), x),
        decreases rest@.len(),
    {
        let m = find_first_min(&rest);
        let p = rest[m];
        let ghost av = assign_view(assign@);
        let ghost pv = pair_views(rest@);
        assert(pv[m as int] == p@);
        assert(av[p.field as int] == crate::proximity::words::opt_int(assign@[p.field as int]));
        if assign[p.field].is_none() && !taken[p.cand] {
            assign[p.field] = Some(p.cand);
            taken[p.cand] = true;
            assert(assign_view(assign@) =~= av.update(p.field as int, Some(p.cand as int)));
            assert forall|x: int| 0 <= x < ncands implies #[trigger] taken@[x] == cand_taken(
                assign_view(assign@),
                x,
            ) by {
                let nv = assign_view(assign@);
                if x == p.cand {
                    assert(nv[p.field as int] == Some(x));
                } else {
                    if cand_taken(nv, x) {
                        let g = choose|g: int| 0 <= g < nv.len() && #[trigger] nv[g] == Some(x);
                        assert(av[g] == Some(x));
                    }
                    if cand_taken(av, x) {
                        let g = choose|g: int| 0 <= g < av.len() && #[trigger] av[g] == Some(x);
                        assert(nv[g] == Some(x));
                    }
                }
            }
        }
        let ghost before = rest@;
        rest.remove(m);
        assert(rest@ == before.remove(m as int));
        assert(pair_views(rest@) =~= pv.remove(m as int));
        proof {
            lemma_remove_keeps_bounds(before, m as int, nfields, ncands);
        }
    }
    assign
}

} // verus!
