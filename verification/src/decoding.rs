//! Greedy autoregressive decoding: the decisions of the generation loops
//! of the sequence-to-sequence and the grammar-constrained layers. The
//! caller runs the model and reports each token it picks; this state says
//! whether to run another step and which tokens were generated.
use vstd::prelude::*;

verus! {

/// The state of a greedy decoding: the tokens so far (the given prefix,
/// then each generated token), the model steps run, the step budget, the
/// end token, and whether the end token has come.
pub struct GreedyDecoding {
    pub tokens: Vec<i64>,
    pub prefix_len: usize,
    pub steps: usize,
    pub max_steps: usize,
    pub eos: i64,
    pub stopped: bool,
}

/// A decoding state in terms of sequences.
pub struct DecodingView {
    pub tokens: Seq<i64>,
    pub prefix_len: int,
    pub steps: int,
    pub max_steps: int,
    pub eos: i64,
    pub stopped: bool,
}

impl View for GreedyDecoding {
    type V = DecodingView;

    open spec fn view(&self) -> DecodingView {
        DecodingView {
            tokens: self.tokens@,
            prefix_len: self.prefix_len as int,
            steps: self.steps as int,
            max_steps: self.max_steps as int,
            eos: self.eos,
            stopped: self.stopped,
        }
    }
}

/// Decoding is over: the end token came or the budget is spent.
pub open spec fn view_finished(d: DecodingView) -> bool {
    d.stopped || d.steps >= d.max_steps
}

/// One model step that picked `t`: the end token stops the decoding and
/// is not kept; any other token is appended.
pub open spec fn step_view(d: DecodingView, t: i64) -> DecodingView {
    if t == d.eos {
        DecodingView { steps: d.steps + 1, stopped: true, ..d }
    } else {
        DecodingView { tokens: d.tokens.push(t), steps: d.steps + 1, ..d }
    }
}

/// A whole decoding run: the model picks `picks[0]`, `picks[1]`, ... one
/// per step, for as long as the decoding is not over.
pub open spec fn run(d: DecodingView, picks: Seq<i64>) -> DecodingView
    decreases picks.len(),
{
    if picks.len() == 0 || view_finished(d) {
        d
    } else {
        run(step_view(d, picks[0]), picks.drop_first())
    }
}

impl GreedyDecoding {
    /// The state is consistent: every step but a final one that met the
    /// end token appended one token, none of the appended tokens is the end
    /// token, and the budget is not exceeded.
    pub open spec fn wf(&self) -> bool {
        &&& self.steps <= self.max_steps
        &&& self.prefix_len <= self.tokens@.len()
        &&& self.tokens@.len() - self.prefix_len + (if self.stopped { 1int } else { 0int }) == self.steps
        &&& forall|i: int| self.prefix_len <= i < self.tokens@.len() ==> #[trigger] self.tokens@[i] != self.eos
    }

    /// Decoding is over: the end token came or the budget is spent.
    pub open spec fn finished(&self) -> bool {
        self.stopped || self.steps >= self.max_steps
    }

    /// The tokens generated after the prefix.
    pub open spec fn generated(&self) -> Seq<i64> {
        self.tokens@.subrange(self.prefix_len as int, self.tokens@.len() as int)
    }

    /// A decoding that starts from `prefix`, stops at `eos`, and runs at
    /// most `max_steps` model steps.
    pub fn new(prefix: Vec<i64>, eos: i64, max_steps: usize) -> (d: Self)
        ensures
            d.wf(),
            d.tokens@ == prefix@,
            d.prefix_len == prefix@.len(),
            d.steps == 0,
            d.max_steps == max_steps,
            d.eos == eos,
            !d.stopped,
    {
        let n = prefix.len();
        GreedyDecoding { tokens: prefix, prefix_len: n, steps: 0, max_steps, eos, stopped: false }
    }

    /// Whether the model should run another step.
    pub fn wants_step(&self) -> (r: bool)
        ensures
            r == !self.finished(),
            r == !view_finished(self@),
    {
        !self.stopped && self.steps < self.max_steps
    }

    /// Takes the token the model picked at this step: the end token stops
    /// the decoding and is not kept; any other token is appended.
    pub fn observe(&mut self, token: i64)
        requires
            old(self).wf(),
            !old(self).finished(),
        ensures
            final(self).wf(),
            final(self).steps == old(self).steps + 1,
            final(self).max_steps == old(self).max_steps,
            final(self).eos == old(self).eos,
            final(self).prefix_len == old(self).prefix_len,
            token == old(self).eos ==> final(self).stopped && final(self).tokens@ == old(self).tokens@,
            token != old(self).eos ==> !final(self).stopped && final(self).tokens@ == old(self).tokens@.push(token),
            final(self)@ == step_view(old(self)@, token),
    {
        self.steps = self.steps + 1;
        if token == self.eos {
            self.stopped = true;
        } else {
            self.tokens.push(token);
        }
    }
}

/// The decoding of the sequence-to-sequence layer: from the decoder start
/// token `0`, until the end token `1`, for at most 128 steps.
pub fn flan_decoding() -> (d: GreedyDecoding)
    ensures
        d.wf(),
        d@ == flan_start(),
        d.tokens@ == seq![0i64],
        d.prefix_len == 1,
        d.steps == 0,
        d.max_steps == 128,
        d.eos == 1,
        !d.stopped,
{
    let mut prefix: Vec<i64> = Vec::new();
    prefix.push(0);
    GreedyDecoding::new(prefix, 1, 128)
}

/// The decoding of the grammar-constrained layer: no prefix, until the
/// model's end token `eos`, for at most 256 steps.
pub fn qwen_decoding(eos: i64) -> (d: GreedyDecoding)
    ensures
        d.wf(),
        d@ == qwen_start(eos),
        d.tokens@ == Seq::<i64>::empty(),
        d.prefix_len == 0,
        d.steps == 0,
        d.max_steps == 256,
        d.eos == eos,
        !d.stopped,
{
    GreedyDecoding::new(Vec::new(), eos, 256)
}

/// A finished decoding generated at most `max_steps` tokens, none of them
/// the end token, after its unchanged prefix.
pub proof fn lemma_generated_bounded(d: GreedyDecoding)
    requires
        d.wf(),
    ensures
        d.generated().len() <= d.max_steps,
        forall|i: int| 0 <= i < d.generated().len() ==> #[trigger] d.generated()[i] != d.eos,
{
    assert forall|i: int| 0 <= i < d.generated().len() implies #[trigger] d.generated()[i] != d.eos by {
        assert(d.generated()[i] == d.tokens@[d.prefix_len + i]);
    }
}

/// A run from a state that has not stopped appends the picks before the
/// first end token, within the budget; it stops at the first end token.
pub proof fn lemma_run_appends_picks(d: DecodingView, picks: Seq<i64>)
    requires
        !d.stopped,
        d.steps <= d.max_steps,
    ensures
        ({
            let r = run(d, picks);
            let m = r.tokens.len() - d.tokens.len();
            &&& 0 <= m <= picks.len()
            &&& r.tokens == d.tokens + picks.take(m)
            &&& forall|i: int| 0 <= i < m ==> #[trigger] picks[i] != d.eos
            &&& r.prefix_len == d.prefix_len && r.max_steps == d.max_steps && r.eos == d.eos
            &&& r.steps <= r.max_steps
            &&& r.stopped ==> m < picks.len() && picks[m] == d.eos && r.steps == d.steps + m + 1
            &&& !r.stopped ==> r.steps == d.steps + m && (m == picks.len() || r.steps >= r.max_steps)
        }),
    decreases picks.len(),
{
    if picks.len() == 0 || view_finished(d) {
        assert(picks.take(0) =~= Seq::<i64>::empty());
        assert(d.tokens + picks.take(0) =~= d.tokens);
    } else {
        let t = picks[0];
        let d1 = step_view(d, t);
        let rest = picks.drop_first();
        if t == d.eos {
            assert(run(d1, rest) == d1);
            assert(picks.take(0) =~= Seq::<i64>::empty());
            assert(d.tokens + picks.take(0) =~= d.tokens);
        } else {
            lemma_run_appends_picks(d1, rest);
            let r = run(d1, rest);
            let m1 = r.tokens.len() - d1.tokens.len();
            assert(r.tokens =~= d.tokens + picks.take(m1 + 1)) by {
                assert(picks.take(m1 + 1) =~= seq![t] + rest.take(m1));
            }
            assert forall|i: int| 0 <= i < m1 + 1 implies #[trigger] picks[i] != d.eos by {
                if i > 0 {
                    assert(picks[i] == rest[i - 1]);
                }
            }
            if r.stopped {
                assert(picks[m1 + 1] == rest[m1]);
            }
        }
    }
}

/// The state the sequence-to-sequence layer starts from.
pub open spec fn flan_start() -> DecodingView {
    DecodingView { tokens: seq![0i64], prefix_len: 1, steps: 0, max_steps: 128, eos: 1, stopped: false }
}

/// The state the grammar-constrained layer starts from.
pub open spec fn qwen_start(eos: i64) -> DecodingView {
    DecodingView { tokens: seq![], prefix_len: 0, steps: 0, max_steps: 256, eos, stopped: false }
}

/// A whole run of the sequence-to-sequence decoding takes at most 128
/// model steps; its tokens begin with the start token `0` followed by the
/// model's picks up to, and not including, the first end token `1`, which
/// never appears among them.
pub proof fn lemma_flan_run(picks: Seq<i64>)
    ensures
        ({
            let r = run(flan_start(), picks);
            let m = r.tokens.len() - 1;
            &&& r.steps <= 128
            &&& r.tokens == seq![0i64] + picks.take(m)
            &&& forall|i: int| 1 <= i < r.tokens.len() ==> #[trigger] r.tokens[i] != 1
            &&& r.stopped ==> picks[m] == 1
            &&& !r.stopped ==> m == picks.len() || r.steps == 128
        }),
{
    lemma_run_appends_picks(flan_start(), picks);
    let r = run(flan_start(), picks);
    let m = r.tokens.len() - 1;
    assert forall|i: int| 1 <= i < r.tokens.len() implies #[trigger] r.tokens[i] != 1 by {
        assert(r.tokens[i] == picks[i - 1]);
    }
}

/// A whole run of the grammar-constrained decoding samples at most 256
/// tokens; it keeps the picks before the model's end token, which never
/// appears among them.
pub proof fn lemma_qwen_run(eos: i64, picks: Seq<i64>)
    ensures
        ({
            let r = run(qwen_start(eos), picks);
            &&& r.steps <= 256
            &&& r.tokens == picks.take(r.tokens.len() as int)
            &&& forall|i: int| 0 <= i < r.tokens.len() ==> #[trigger] r.tokens[i] != eos
            &&& r.stopped ==> picks[r.tokens.len() as int] == eos
        }),
{
    lemma_run_appends_picks(qwen_start(eos), picks);
    let r = run(qwen_start(eos), picks);
    assert(r.tokens =~= picks.take(r.tokens.len() as int));
    assert forall|i: int| 0 <= i < r.tokens.len() implies #[trigger] r.tokens[i] != eos by {
        assert(r.tokens[i] == picks[i]);
    }
}

} // verus!
