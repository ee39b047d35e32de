//! Control of the radiance estimator: when a path is traced further and how it
//! ends.
//!
//! The estimator follows one path of light backward from the camera. Each
//! traced ray either escapes to the sky, is absorbed by the surface it strikes,
//! or is scattered on, and every scatter spends one unit of the depth budget.
//! The colors along the way are floating-point work done by the caller; this
//! module decides, from the budget and what each traced ray did, whether to
//! trace again and what the path's last term is.
use vstd::prelude::*;

verus! {

/// What became of one traced ray.
#[derive(Clone, Copy, Debug, PartialEq, Eq, Structural)]
pub enum Bounce {
    /// It struck nothing and left the scene.
    Escaped,
    /// It struck a surface that absorbed it.
    Absorbed,
    /// It struck a surface that sent a scattered ray on.
    Scattered,
}

/// How a path ends, which fixes its last term.
#[derive(Clone, Copy, Debug, PartialEq, Eq, Structural)]
pub enum PathEnd {
    /// The depth budget is spent: black.
    Exhausted,
    /// A surface absorbed the ray: black.
    Absorbed,
    /// The ray escaped: the sky gradient in the ray's direction.
    Sky,
}

/// The estimator's next move.
#[derive(Clone, Copy, Debug, PartialEq, Eq, Structural)]
pub enum PathStep {
    /// Trace the current ray against the scene, with `depth_left` units of
    /// budget, at least one.
    Trace { depth_left: i32 },
    /// The path is complete.
    Finish(PathEnd),
}

pub open spec fn start_spec(depth_budget: int) -> PathStep {
    if depth_budget <= 0 {
        PathStep::Finish(PathEnd::Exhausted)
    } else {
        PathStep::Trace { depth_left: depth_budget as i32 }
    }
}

pub open spec fn after_bounce_spec(depth_left: int, bounce: Bounce) -> PathStep {
    match bounce {
        Bounce::Escaped => PathStep::Finish(PathEnd::Sky),
        Bounce::Absorbed => PathStep::Finish(PathEnd::Absorbed),
        Bounce::Scattered => start_spec(depth_left - 1),
    }
}

/// First move of a path with the given depth budget: a budget of zero or less
/// ends it at once, black.
pub fn start(depth_budget: i32) -> (step: PathStep)
    ensures
        step == start_spec(depth_budget as int),
{
    if depth_budget <= 0 {
        PathStep::Finish(PathEnd::Exhausted)
    } else {
        PathStep::Trace { depth_left: depth_budget }
    }
}

/// Next move after a ray traced with `depth_left` units of budget did
/// `bounce`. A scattered ray is traced on with one unit less, as a path of its
/// own with that budget.
pub fn after_bounce(depth_left: i32, bounce: Bounce) -> (step: PathStep)
    ensures
        step == after_bounce_spec(depth_left as int, bounce),
{
    match bounce {
        Bounce::Escaped => PathStep::Finish(PathEnd::Sky),
        Bounce::Absorbed => PathStep::Finish(PathEnd::Absorbed),
        Bounce::Scattered => {
            if depth_left <= 1 {
                PathStep::Finish(PathEnd::Exhausted)
            } else {
                PathStep::Trace { depth_left: depth_left - 1 }
            }
        },
    }
}

/// The move reached from `step` when the traced rays do `bounces` in turn; a
/// finished path stays finished.
pub open spec fn replay(step: PathStep, bounces: Seq<Bounce>) -> PathStep
    decreases bounces.len(),
{
    if bounces.len() == 0 {
        step
    } else {
        match step {
            PathStep::Finish(end) => PathStep::Finish(end),
            PathStep::Trace { depth_left } => replay(
                after_bounce_spec(depth_left as int, bounces[0]),
                bounces.drop_first(),
            ),
        }
    }
}

proof fn lemma_traced_bound(d: int, bounces: Seq<Bounce>)
    requires
        0 < d <= i32::MAX,
        bounces.len() >= d,
    ensures
        replay(PathStep::Trace { depth_left: d as i32 }, bounces) is Finish,
    decreases bounces.len(),
{
    let next = after_bounce_spec(d, bounces[0]);
    if next is Trace {
        lemma_traced_bound(d - 1, bounces.drop_first());
    } else {
        lemma_finished_stays(next, bounces.drop_first());
    }
}

proof fn lemma_finished_stays(step: PathStep, bounces: Seq<Bounce>)
    requires
        step is Finish,
    ensures
        replay(step, bounces) == step,
    decreases bounces.len(),
{
}

/// However the traced rays behave, a path with budget `d` traces at most `d`
/// rays: after `d` of them it is finished.
pub proof fn lemma_budget_bounds_tracing(depth_budget: i32, bounces: Seq<Bounce>)
    requires
        bounces.len() >= depth_budget,
    ensures
        replay(start_spec(depth_budget as int), bounces) is Finish,
{
    if depth_budget <= 0 {
        lemma_finished_stays(start_spec(depth_budget as int), bounces);
    } else {
        lemma_traced_bound(depth_budget as int, bounces);
    }
}

proof fn lemma_scatter_run(d: int, k: int, bounces: Seq<Bounce>)
    requires
        0 < d <= i32::MAX,
        0 <= k <= d,
        bounces.len() == k,
        forall|i: int| 0 <= i < k ==> bounces[i] == Bounce::Scattered,
    ensures
        k < d ==> replay(PathStep::Trace { depth_left: d as i32 }, bounces) == (PathStep::Trace {
            depth_left: (d - k) as i32,
        }),
        k == d ==> replay(PathStep::Trace { depth_left: d as i32 }, bounces) == PathStep::Finish(
            PathEnd::Exhausted,
        ),
    decreases k,
{
    if k > 0 {
        if d > 1 {
            lemma_scatter_run(d - 1, k - 1, bounces.drop_first());
        } else {
            lemma_finished_stays(PathStep::Finish(PathEnd::Exhausted), bounces.drop_first());
        }
    }
}

/// A path whose rays all scatter, as between two mirrors facing each other,
/// is still tracing after each of its first `depth_budget - 1` rays and ends,
/// black, exactly when its `depth_budget`-th ray has scattered.
pub proof fn lemma_scattering_path_exhausts_budget(depth_budget: i32, bounces: Seq<Bounce>)
    requires
        depth_budget > 0,
        bounces.len() == depth_budget,
        forall|i: int| 0 <= i < bounces.len() ==> bounces[i] == Bounce::Scattered,
    ensures
        forall|k: int|
            0 <= k < depth_budget ==> #[trigger] replay(
                start_spec(depth_budget as int),
                bounces.take(k),
            ) is Trace,
        replay(start_spec(depth_budget as int), bounces) == PathStep::Finish(PathEnd::Exhausted),
{
    let d = depth_budget as int;
    assert forall|k: int| 0 <= k < d implies #[trigger] replay(start_spec(d), bounces.take(k)) is Trace by {
        lemma_scatter_run(d, k, bounces.take(k));
    }
    lemma_scatter_run(d, d, bounces);
}

} // verus!
