//! The pipeline: an ordered list of stages, run one after the other on one
//! value until a stage fails.

use crate::error::{FlameError, FlameErrorView};
use crate::text::{decimal_digits, decimal_string};
use crate::number::Real;
use crate::transform::{scaled_integer, ScaleTransform, Transform};
use crate::value::{outcome_view, FlameType, FlameValue};
use vstd::prelude::*;

verus! {

/// One stage of a pipeline, owned by the pipeline that it was added to.
pub struct Layer {
    pub stage: Box<dyn Transform>,
}

/// The layer that holds `transform`.
pub open spec fn layer_of<T: Transform + 'static>(transform: T) -> Layer {
    Layer { stage: Box::new(transform) }
}

/// An ordered list of stages with a name.
///
/// Stages run in the order in which they were added. None is ever removed or
/// moved, and running the pipeline leaves it as it was.
pub struct Pipeline {
    layers: Vec<Layer>,
    pub name: String,
}

/// A pipeline as contracts see it.
pub struct PipelineView {
    pub name: Seq<char>,
    pub stages: Seq<Layer>,
}

impl View for Pipeline {
    type V = PipelineView;

    closed spec fn view(&self) -> PipelineView {
        PipelineView { name: self.name@, stages: self.layers@ }
    }
}

/// The message of the error for the stage at `index`, named `name`, that
/// failed its bound check.
pub open spec fn validation_message(index: nat, name: Seq<char>) -> Seq<char> {
    "Layer "@ + decimal_digits(index) + ": "@ + name + " failed bound validation"@
}

/// The error for the stage at `index`, named `name`, that failed its bound check.
pub fn validation_error(index: usize, name: &str) -> (e: FlameError)
    ensures
        e@ == FlameErrorView::BoundError(validation_message(index as nat, name@)),
{
    let message = String::from_str("Layer ").concat(decimal_string(index).as_str()).concat(
        ": ",
    ).concat(name).concat(" failed bound validation");
    FlameError::BoundError(message)
}

/// What the stage at `index` makes of `input`: a bound error that names the
/// stage where its check fails, without applying it; else what the stage returns.
pub open spec fn stage_outcome(layer: Layer, index: nat, input: FlameValue) -> Result<
    FlameValue,
    FlameErrorView,
> {
    if layer.stage.bounds_valid() {
        layer.stage.transformed(input)
    } else {
        Err(FlameErrorView::BoundError(validation_message(index, layer.stage.name_text())))
    }
}

/// What running `stages` in order on `seed` returns: each stage gets what the
/// one before it returned, and the first error ends the run.
pub open spec fn run_stages(stages: Seq<Layer>, seed: FlameValue) -> Result<
    FlameValue,
    FlameErrorView,
>
    decreases stages.len(),
{
    if stages.len() == 0 {
        Ok(seed)
    } else {
        match run_stages(stages.drop_last(), seed) {
            Ok(value) => stage_outcome(stages.last(), (stages.len() - 1) as nat, value),
            Err(e) => Err(e),
        }
    }
}

/// An error is final: where the first `k` stages fail, the whole run fails
/// with their error.
pub proof fn lemma_failure_is_final(stages: Seq<Layer>, seed: FlameValue, k: int)
    requires
        0 <= k <= stages.len(),
        run_stages(stages.take(k), seed) is Err,
    ensures
        run_stages(stages, seed) == run_stages(stages.take(k), seed),
    decreases stages.len(),
{
    if k == stages.len() {
        assert(stages.take(k) =~= stages);
    } else {
        assert(stages.drop_last().take(k) =~= stages.take(k));
        lemma_failure_is_final(stages.drop_last(), seed, k);
    }
}

/// Fail-fast: where the stages before `k` succeed and the stage at `k` fails,
/// the run returns exactly that stage's error, whatever stages follow.
pub proof fn lemma_fail_fast(stages: Seq<Layer>, seed: FlameValue, k: int)
    requires
        0 <= k < stages.len(),
        run_stages(stages.take(k), seed) is Ok,
        stage_outcome(stages[k], k as nat, run_stages(stages.take(k), seed)->Ok_0) is Err,
    ensures
        run_stages(stages, seed) == stage_outcome(
            stages[k],
            k as nat,
            run_stages(stages.take(k), seed)->Ok_0,
        ),
{
    assert(stages.take(k + 1).drop_last() =~= stages.take(k));
    lemma_failure_is_final(stages, seed, k + 1);
}

/// The stages after a failure have no part in the result: two lists of stages
/// that agree up to a failing stage return the same error.
pub proof fn lemma_later_stages_ignored(a: Seq<Layer>, b: Seq<Layer>, seed: FlameValue, k: int)
    requires
        0 <= k <= a.len(),
        k <= b.len(),
        a.take(k) == b.take(k),
        run_stages(a.take(k), seed) is Err,
    ensures
        run_stages(a, seed) == run_stages(b, seed),
{
    lemma_failure_is_final(a, seed, k);
    lemma_failure_is_final(b, seed, k);
}

/// Determinism: what a run returns is decided by the stages and the seed. Two
/// results of running the same stages on the same seed are the same.
pub proof fn lemma_runs_agree(
    p: Pipeline,
    q: Pipeline,
    seed_p: FlameType,
    seed_q: FlameType,
    result_p: Result<FlameType, FlameError>,
    result_q: Result<FlameType, FlameError>,
)
    requires
        p@.stages == q@.stages,
        seed_p@ == seed_q@,
        outcome_view(result_p) == run_stages(p@.stages, seed_p@),
        outcome_view(result_q) == run_stages(q@.stages, seed_q@),
    ensures
        outcome_view(result_p) == outcome_view(result_q),
{
}

/// Two scaling stages in a row work on an integer one after the other: the
/// product of the first stage is cut to an integer before the second stage
/// multiplies it. This need not be the integer that one stage with the product
/// of the two factors would return.
pub proof fn lemma_scale_chain(first: Real, second: Real, n: i64)
    ensures
        run_stages(
            seq![
                layer_of(ScaleTransform { factor: first }),
                layer_of(ScaleTransform { factor: second }),
            ],
            FlameValue::Integer(n),
        ) == Ok::<FlameValue, FlameErrorView>(
            FlameValue::Integer(scaled_integer(scaled_integer(n, first), second)),
        ),
{
    let stages = seq![
        layer_of(ScaleTransform { factor: first }),
        layer_of(ScaleTransform { factor: second }),
    ];
    assert(stages.drop_last() =~= seq![layer_of(ScaleTransform { factor: first })]);
    assert(stages.drop_last().drop_last() =~= Seq::<Layer>::empty());
    reveal_with_fuel(run_stages, 3);
}

impl Pipeline {
    /// Makes a pipeline without stages.
    pub fn new(name: String) -> (r: Self)
        ensures
            r@.name == name@,
            r@.stages == Seq::<Layer>::empty(),
    {
        Pipeline { layers: Vec::new(), name }
    }

    /// Adds a stage after the stages that are there.
    pub fn add_layer<T: Transform + 'static>(&mut self, transform: T)
        ensures
            final(self)@.name == old(self)@.name,
            final(self)@.stages == old(self)@.stages.push(layer_of(transform)),
    {
        self.layers.push(Layer { stage: Box::new(transform) });
    }

    /// The name of the pipeline.
    pub fn name(&self) -> (r: &str)
        ensures
            r@ == self@.name,
    {
        self.name.as_str()
    }

    /// The name of the stage at `index`, or nothing where there is no such stage.
    pub fn layer_name(&self, index: usize) -> (r: Option<&str>)
        ensures
            index >= self@.stages.len() ==> r is None,
            index < self@.stages.len() ==> r is Some && r->Some_0@
                == self@.stages[index as int].stage.name_text(),
    {
        if index < self.layers.len() {
            Some(self.layers[index].stage.name())
        } else {
            None
        }
    }

    /// Runs the one stage at `index` on `value`, or nothing where there is no
    /// such stage.
    ///
    /// The bound check of the stage is asked first; where that fails, the
    /// stage is not applied and a bound error that names it is returned. Else
    /// the stage is applied, and what it returns is returned unchanged. A run
    /// of the pipeline is this step for each stage in order, up to the first
    /// error.
    pub fn run_layer(&self, index: usize, value: &FlameType) -> (r: Option<
        Result<FlameType, FlameError>,
    >)
        ensures
            index >= self@.stages.len() ==> r is None,
            index < self@.stages.len() ==> r is Some && outcome_view(r->Some_0) == stage_outcome(
                self@.stages[index as int],
                index as nat,
                value@,
            ),
            r is Some && r->Some_0 is Ok && value@.wf() ==> r->Some_0->Ok_0@.wf(),
    {
        if index >= self.layers.len() {
            return None;
        }
        let layer = &self.layers[index];
        if !layer.stage.validate_bounds() {
            return Some(Err(validation_error(index, layer.stage.name())));
        }
        Some(layer.stage.apply(value))
    }

    /// Runs the stages in order on `value`.
    ///
    /// Before a stage is applied its bound check is asked; where that fails,
    /// the run ends with a bound error that names the stage. Where a stage
    /// returns an error, the run ends with that error, unchanged. Else the
    /// value of the last stage is returned.
    pub fn execute(&self, value: FlameType) -> (r: Result<FlameType, FlameError>)
        ensures
            outcome_view(r) == run_stages(self@.stages, value@),
            value@.wf() && r is Ok ==> r.unwrap()@.wf(),
    {
        let ghost seed = value@;
        let mut current = value;
        let mut idx: usize = 0;
        while idx < self.layers.len()
            invariant
                seed == value@,
                idx <= self.layers@.len(),
                run_stages(self.layers@.take(idx as int), seed) == Ok::<
                    FlameValue,
                    FlameErrorView,
                >(current@),
                seed.wf() ==> current@.wf(),
            decreases self.layers@.len() - idx,
        {
            proof {
                let prefix = self.layers@.take(idx + 1);
                assert(prefix.drop_last() =~= self.layers@.take(idx as int));
                assert(prefix.last() == self.layers@[idx as int]);
                assert(run_stages(prefix, seed) == stage_outcome(
                    self.layers@[idx as int],
                    idx as nat,
                    current@,
                ));
            }
            match self.run_layer(idx, &current) {
                Some(Ok(next)) => {
                    current = next;
                },
                Some(Err(e)) => {
                    proof {
                        lemma_failure_is_final(self.layers@, seed, idx + 1);
                    }
                    return Err(e);
                },
                None => {
                    // there is a stage at every index below the count
                    return Ok(current);
                },
            }
            idx = idx + 1;
        }
        proof {
            assert(self.layers@.take(idx as int) =~= self.layers@);
        }
        Ok(current)
    }

    /// The number of stages.
    pub fn layer_count(&self) -> (r: usize)
        ensures
            r == self@.stages.len(),
    {
        self.layers.len()
    }
}

} // verus!
