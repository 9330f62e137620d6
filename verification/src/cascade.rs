//! The order in which the cascade tries its layers. The caller runs each
//! layer this module names and reports whether it produced a result; the
//! proximity heuristic always produces one.
use vstd::prelude::*;
use crate::schema::ExtractionLayer;

verus! {

/// Which model layers are loaded.
#[derive(Debug, Clone, Copy)]
pub struct LayerAvailability {
    pub gliner: bool,
    pub flan: bool,
    pub qwen: bool,
}

/// A layer can run: its model is loaded, or it needs none.
pub open spec fn layer_ready(av: LayerAvailability, layer: ExtractionLayer) -> bool {
    match layer {
        ExtractionLayer::Gliner => av.gliner,
        ExtractionLayer::Flan => av.flan,
        ExtractionLayer::Qwen => av.qwen,
        ExtractionLayer::ProximityHeuristic => true,
    }
}

/// The first position at or after `from` whose layer can run.
pub open spec fn next_runnable(order: Seq<ExtractionLayer>, av: LayerAvailability, from: int) -> Option<int>
    decreases order.len() - from,
{
    if from < 0 || from >= order.len() {
        None
    } else if layer_ready(av, order[from]) {
        Some(from)
    } else {
        next_runnable(order, av, from + 1)
    }
}

/// What the cascade does next.
#[derive(Debug, Clone, Copy, PartialEq, Eq, Structural)]
pub enum CascadeStep {
    /// Run the model layer at this position of the order.
    Run { index: usize, layer: ExtractionLayer },
    /// Answer with the proximity heuristic.
    Heuristic,
}

/// The position of the model layer the cascade runs next from `from`:
/// the first runnable one, unless the heuristic comes first or none is
/// left (then `None`: the heuristic answers).
pub open spec fn step_index(order: Seq<ExtractionLayer>, av: LayerAvailability, from: int) -> Option<int> {
    match next_runnable(order, av, from) {
        Some(j) => if order[j] == ExtractionLayer::ProximityHeuristic {
            None
        } else {
            Some(j)
        },
        None => None,
    }
}

/// Position `k` of the order succeeds.
pub open spec fn succeeded(succeeds: Seq<bool>, k: int) -> bool {
    0 <= k < succeeds.len() && succeeds[k]
}

/// The layer that answers when the layer at each position would succeed
/// or fail as `succeeds` says: the cascade runs the layers `step_index`
/// names, from `from`, until one succeeds; otherwise the heuristic.
pub open spec fn cascade_from(
    order: Seq<ExtractionLayer>,
    av: LayerAvailability,
    succeeds: Seq<bool>,
    from: int,
) -> ExtractionLayer
    decreases order.len() - from,
{
    match step_index(order, av, from) {
        Some(j) => if succeeded(succeeds, j) {
            order[j]
        } else if from <= j < order.len() {
            cascade_from(order, av, succeeds, j + 1)
        } else {
            ExtractionLayer::ProximityHeuristic
        },
        None => ExtractionLayer::ProximityHeuristic,
    }
}

/// The next step of the cascade from position `from` of `order`.
pub fn next_step(order: &Vec<ExtractionLayer>, from: usize, av: &LayerAvailability) -> (s: CascadeStep)
    ensures
        match s {
            CascadeStep::Run { index, layer } => step_index(order@, *av, from as int) == Some(index as int)
                && index < order@.len() && order@[index as int] == layer,
            CascadeStep::Heuristic => step_index(order@, *av, from as int) is None,
        },
{
    let mut j = from;
    while j < order.len()
        invariant
            from <= j,
            next_runnable(order@, *av, from as int) == next_runnable(order@, *av, j as int),
        decreases order@.len() - j,
    {
        let layer = order[j];
        let ready = match layer {
            ExtractionLayer::Gliner => av.gliner,
            ExtractionLayer::Flan => av.flan,
            ExtractionLayer::Qwen => av.qwen,
            ExtractionLayer::ProximityHeuristic => true,
        };
        if ready {
            if layer == ExtractionLayer::ProximityHeuristic {
                return CascadeStep::Heuristic;
            }
            return CascadeStep::Run { index: j, layer };
        }
        j = j + 1;
    }
    CascadeStep::Heuristic
}

/// The runnable position found lies at or after `from`, and every
/// position before it cannot run.
pub proof fn lemma_next_runnable_bounds(order: Seq<ExtractionLayer>, av: LayerAvailability, from: int)
    ensures
        next_runnable(order, av, from) matches Some(j) ==> 0 <= from <= j < order.len() && layer_ready(
            av,
            order[j],
        ) && forall|k: int| from <= k < j ==> !layer_ready(av, #[trigger] order[k]),
        next_runnable(order, av, from) is None && 0 <= from ==> forall|k: int|
            from <= k < order.len() ==> !layer_ready(av, #[trigger] order[k]),
    decreases order.len() - from,
{
    if from < 0 || from >= order.len() {
    } else if layer_ready(av, order[from]) {
    } else {
        lemma_next_runnable_bounds(order, av, from + 1);
    }
}

/// The cascade moves past position `k`: a model layer that is not loaded
/// or that failed.
pub open spec fn passed_over(
    order: Seq<ExtractionLayer>,
    av: LayerAvailability,
    succeeds: Seq<bool>,
    k: int,
) -> bool {
    order[k] != ExtractionLayer::ProximityHeuristic && (!layer_ready(av, order[k]) || !succeeded(
        succeeds,
        k,
    ))
}

/// The model layer at `j` answers: it is loaded and succeeds, and the
/// cascade moved past every position from `from` before it.
pub open spec fn answers_at(
    order: Seq<ExtractionLayer>,
    av: LayerAvailability,
    succeeds: Seq<bool>,
    from: int,
    j: int,
) -> bool {
    &&& from <= j < order.len()
    &&& order[j] != ExtractionLayer::ProximityHeuristic
    &&& layer_ready(av, order[j])
    &&& succeeded(succeeds, j)
    &&& forall|k: int| from <= k < j ==> #[trigger] passed_over(order, av, succeeds, k)
}

/// The cascade answers with the first layer of the order, from `from`,
/// that is loaded and succeeds, having moved past every layer before it;
/// it answers with the heuristic exactly when no model layer does.
pub proof fn lemma_cascade_first_success(
    order: Seq<ExtractionLayer>,
    av: LayerAvailability,
    succeeds: Seq<bool>,
    from: int,
)
    requires
        0 <= from,
    ensures
        (exists|j: int| #[trigger] answers_at(order, av, succeeds, from, j) && order[j] == cascade_from(order, av, succeeds, from))
            || (cascade_from(order, av, succeeds, from) == ExtractionLayer::ProximityHeuristic
            && forall|j: int| !#[trigger] answers_at(order, av, succeeds, from, j)),
    decreases order.len() - from,
{
    lemma_next_runnable_bounds(order, av, from);
    match next_runnable(order, av, from) {
        Some(j) => {
            if order[j] == ExtractionLayer::ProximityHeuristic {
                assert forall|w: int| !#[trigger] answers_at(order, av, succeeds, from, w) by {
                    if answers_at(order, av, succeeds, from, w) {
                        if w < j {
                            assert(!layer_ready(av, order[w]));
                        } else if w > j {
                            assert(passed_over(order, av, succeeds, j));
                        }
                    }
                }
            } else if succeeded(succeeds, j) {
                assert forall|k: int| from <= k < j implies #[trigger] passed_over(order, av, succeeds, k) by {
                    assert(!layer_ready(av, order[k]));
                }
                assert(answers_at(order, av, succeeds, from, j));
            } else {
                lemma_cascade_first_success(order, av, succeeds, j + 1);
                assert forall|k: int| from <= k <= j implies #[trigger] passed_over(order, av, succeeds, k) by {
                    if k < j {
                        assert(!layer_ready(av, order[k]));
                    }
                }
                if exists|w: int| #[trigger] answers_at(order, av, succeeds, j + 1, w) && order[w] == cascade_from(order, av, succeeds, j + 1) {
                    let w = choose|w: int| #[trigger] answers_at(order, av, succeeds, j + 1, w) && order[w] == cascade_from(order, av, succeeds, j + 1);
                    assert forall|k: int| from <= k < w implies #[trigger] passed_over(order, av, succeeds, k) by {
                        if k > j {
                            assert(passed_over(order, av, succeeds, k));
                        }
                    }
                    assert(answers_at(order, av, succeeds, from, w));
                } else {
                    assert forall|w: int| !#[trigger] answers_at(order, av, succeeds, from, w) by {
                        if answers_at(order, av, succeeds, from, w) {
                            if w < j {
                                assert(!layer_ready(av, order[w]));
                            } else if w == j {
                            } else {
                                assert(answers_at(order, av, succeeds, j + 1, w));
                            }
                        }
                    }
                }
            }
        },
        None => {
            assert forall|w: int| !#[trigger] answers_at(order, av, succeeds, from, w) by {
                if answers_at(order, av, succeeds, from, w) {
                    assert(!layer_ready(av, order[w]));
                }
            }
        },
    }
}

/// The availability with `layer` not loaded.
pub open spec fn without_layer(av: LayerAvailability, layer: ExtractionLayer) -> LayerAvailability {
    match layer {
        ExtractionLayer::Gliner => LayerAvailability { gliner: false, ..av },
        ExtractionLayer::Flan => LayerAvailability { flan: false, ..av },
        ExtractionLayer::Qwen => LayerAvailability { qwen: false, ..av },
        ExtractionLayer::ProximityHeuristic => av,
    }
}

/// Skipping positions that cannot run does not change the next runnable
/// position.
proof fn lemma_next_runnable_skip(order: Seq<ExtractionLayer>, av: LayerAvailability, from: int, j: int)
    requires
        0 <= from <= j <= order.len(),
        forall|k: int| from <= k < j ==> !layer_ready(av, #[trigger] order[k]),
    ensures
        next_runnable(order, av, from) == next_runnable(order, av, j),
    decreases j - from,
{
    if from < j {
        lemma_next_runnable_skip(order, av, from + 1, j);
    }
}

/// Starting from positions with the same next step gives the same answer.
proof fn lemma_cascade_same_step(
    order: Seq<ExtractionLayer>,
    av: LayerAvailability,
    succeeds: Seq<bool>,
    from: int,
    j: int,
)
    requires
        0 <= from <= j,
        next_runnable(order, av, from) == next_runnable(order, av, j),
        next_runnable(order, av, j) matches Some(w) ==> j <= w,
    ensures
        cascade_from(order, av, succeeds, from) == cascade_from(order, av, succeeds, j),
{
}

/// A model layer that fails wherever it runs is passed over exactly as if
/// it were not loaded: the cascade gives the same answer either way.
pub proof fn lemma_failing_layer_as_unloaded(
    order: Seq<ExtractionLayer>,
    av: LayerAvailability,
    succeeds: Seq<bool>,
    from: int,
    layer: ExtractionLayer,
)
    requires
        0 <= from,
        layer != ExtractionLayer::ProximityHeuristic,
        forall|k: int| 0 <= k < order.len() && order[k] == layer ==> !#[trigger] succeeded(succeeds, k),
    ensures
        cascade_from(order, av, succeeds, from) == cascade_from(order, without_layer(av, layer), succeeds, from),
    decreases order.len() - from,
{
    let av2 = without_layer(av, layer);
    assert(forall|x: ExtractionLayer| #[trigger] layer_ready(av2, x) == (layer_ready(av, x) && x != layer));
    lemma_next_runnable_bounds(order, av, from);
    match next_runnable(order, av, from) {
        Some(j) => {
            assert forall|k: int| from <= k < j implies !layer_ready(av2, #[trigger] order[k]) by {
                assert(!layer_ready(av, order[k]));
            }
            if order[j] == layer {
                assert(!layer_ready(av2, order[j]));
                lemma_next_runnable_skip(order, av2, from, j + 1);
                lemma_next_runnable_bounds(order, av2, j + 1);
                lemma_cascade_same_step(order, av2, succeeds, from, j + 1);
                lemma_failing_layer_as_unloaded(order, av, succeeds, j + 1, layer);
            } else {
                lemma_next_runnable_skip(order, av2, from, j);
                assert(layer_ready(av2, order[j]));
                assert(next_runnable(order, av2, j) == Some(j));
                if j + 1 <= order.len() {
                    lemma_failing_layer_as_unloaded(order, av, succeeds, j + 1, layer);
                }
            }
        },
        None => {
            assert forall|k: int| from <= k < order.len() implies !layer_ready(av2, #[trigger] order[k]) by {
                assert(!layer_ready(av, order[k]));
            }
            if from <= order.len() {
                lemma_next_runnable_skip(order, av2, from, order.len() as int);
            } else {
            }
        },
    }
}

} // verus!
