//! The iteration of the chaos game: from a starting state, one step per
//! chosen transformation, keeping the states reached after a warm-up.
use vstd::prelude::*;

verus! {

/// The state step `t` of `trail` starts from: `start` for the first step,
/// the state the previous step reached for the others.
pub open spec fn step_origin<S>(start: S, trail: Seq<S>, t: int) -> S {
    if t == 0 {
        start
    } else {
        trail[t - 1]
    }
}

/// Whether `trail` holds one state per choice, each a possible result of
/// `step` run on the state before it (on `start` for the first) with the
/// transformation chosen for that step.
pub open spec fn is_step_trail<S, F: Fn(&S, usize) -> S>(
    step: &F,
    start: S,
    choices: Seq<usize>,
    trail: Seq<S>,
) -> bool {
    &&& trail.len() == choices.len()
    &&& forall|t: int|
        0 <= t < trail.len() ==> call_ensures(
            step,
            (&step_origin(start, trail, t), choices[t]),
            #[trigger] trail[t],
        )
}

/// Whether `points` is what the chaos game keeps: along some trail of steps
/// made with `choices`, the states after the first `warmup` steps, each with
/// the transformation chosen for the step that reached it.
pub open spec fn is_chaos_outcome<S, F: Fn(&S, usize) -> S>(
    step: &F,
    start: S,
    choices: Seq<usize>,
    warmup: int,
    points: Seq<(S, usize)>,
) -> bool {
    exists|trail: Seq<S>|
        {
            &&& #[trigger] is_step_trail(step, start, choices, trail)
            &&& points.len() == choices.len() - warmup
            &&& forall|k: int|
                0 <= k < points.len() ==> #[trigger] points[k] == (
                    trail[warmup + k],
                    choices[warmup + k],
                )
        }
}

/// Whether `step` gives one result for each state and choice.
pub open spec fn is_deterministic<S, F: Fn(&S, usize) -> S>(step: &F) -> bool {
    forall|s: &S, i: usize, a: S, b: S|
        #[trigger] call_ensures(step, (s, i), a) && #[trigger] call_ensures(step, (s, i), b) ==> a == b
}

/// Runs one step of `step` per entry of `choices`, in order, from `start`:
/// each step maps the current state and the transformation chosen for it to
/// the next state. The states reached after the first `warmup_iterations`
/// steps are returned, each with the transformation that reached it.
pub fn chaos_game<S: Copy, F: Fn(&S, usize) -> S>(
    start: S,
    num_points: usize,
    warmup_iterations: usize,
    choices: &[usize],
    step: &F,
) -> (points: Vec<(S, usize)>)
    requires
        choices@.len() == num_points + warmup_iterations,
        forall|s: &S, i: usize| #[trigger] step.requires((s, i)),
    ensures
        points@.len() == num_points,
        forall|k: int| 0 <= k < num_points ==> #[trigger] points@[k].1 == choices@[warmup_iterations + k],
        is_chaos_outcome(step, start, choices@, warmup_iterations as int, points@),
        forall|k: int|
            1 <= k < num_points ==> call_ensures(
                step,
                (&points@[k - 1].0, choices@[warmup_iterations + k]),
                #[trigger] points@[k].0,
            ),
        warmup_iterations == 0 && num_points > 0 ==> call_ensures(
            step,
            (&start, choices@[0]),
            points@[0].0,
        ),
{
    let mut points: Vec<(S, usize)> = Vec::with_capacity(num_points);
    let mut current_point = start;
    let total_iterations = choices.len();
    let ghost mut trail: Seq<S> = Seq::empty();
    let mut iteration: usize = 0;
    while iteration < total_iterations
        invariant
            total_iterations == choices@.len(),
            total_iterations == num_points + warmup_iterations,
            forall|s: &S, i: usize| #[trigger] step.requires((s, i)),
            0 <= iteration <= total_iterations,
            is_step_trail(step, start, choices@.take(iteration as int), trail),
            current_point == step_origin(start, trail, iteration as int),
            iteration <= warmup_iterations ==> points@.len() == 0,
            iteration >= warmup_iterations ==> points@.len() == iteration - warmup_iterations,
            forall|k: int|
                0 <= k < points@.len() ==> #[trigger] points@[k] == (
                    trail[warmup_iterations + k],
                    choices@[warmup_iterations + k],
                ),
        decreases total_iterations - iteration,
    {
        let chosen_index = choices[iteration];
        let next_point = step(&current_point, chosen_index);
        let ghost prev = trail;
        proof {
            trail = trail.push(next_point);
            assert forall|t: int| 0 <= t < trail.len() implies call_ensures(
                step,
                (&step_origin(start, trail, t), choices@.take(iteration + 1)[t]),
                #[trigger] trail[t],
            ) by {
                if t < prev.len() {
                    assert(trail[t] == prev[t]);
                    assert(step_origin(start, trail, t) == step_origin(start, prev, t));
                    assert(choices@.take(iteration + 1)[t] == choices@.take(iteration as int)[t]);
                }
            }
        }
        current_point = next_point;
        if iteration >= warmup_iterations {
            points.push((current_point, chosen_index));
        }
        iteration = iteration + 1;
    }
    proof {
        assert(choices@.take(total_iterations as int) =~= choices@);
        assert(is_step_trail(step, start, choices@, trail));
        assert forall|k: int| 1 <= k < num_points implies call_ensures(
            step,
            (&points@[k - 1].0, choices@[warmup_iterations + k]),
            #[trigger] points@[k].0,
        ) by {
            let t = warmup_iterations + k;
            assert(call_ensures(step, (&step_origin(start, trail, t), choices@[t]), trail[t]));
            assert(points@[k - 1] == (trail[t - 1], choices@[t - 1]));
            assert(points@[k] == (trail[t], choices@[t]));
        }
        if warmup_iterations == 0 && num_points > 0 {
            assert(call_ensures(step, (&step_origin(start, trail, 0), choices@[0]), trail[0]));
            assert(points@[0] == (trail[0], choices@[0]));
        }
    }
    points
}

/// Two states after the same number of steps from the same start agree when
/// the step is deterministic and the choices agree up to there.
proof fn lemma_trails_agree<S, F: Fn(&S, usize) -> S>(
    step: &F,
    start: S,
    c1: Seq<usize>,
    t1: Seq<S>,
    c2: Seq<usize>,
    t2: Seq<S>,
    t: int,
)
    requires
        is_deterministic(step),
        is_step_trail(step, start, c1, t1),
        is_step_trail(step, start, c2, t2),
        0 <= t < c1.len(),
        t < c2.len(),
        forall|i: int| 0 <= i <= t ==> c1[i] == c2[i],
    ensures
        t1[t] == t2[t],
    decreases t,
{
    if t > 0 {
        lemma_trails_agree(step, start, c1, t1, c2, t2, t - 1);
    }
    assert(step_origin(start, t1, t) == step_origin(start, t2, t));
    assert(call_ensures(step, (&step_origin(start, t1, t), c1[t]), t1[t]));
    assert(call_ensures(step, (&step_origin(start, t2, t), c2[t]), t2[t]));
}

/// Two chaos games from the same start with a deterministic step, whose
/// choices agree as far as both go, pass through the same states: a point
/// kept by one at some iteration is the point kept by the other at the same
/// iteration. With one warm-up this says a shorter run is a prefix of a
/// longer one; with warm-ups `w` and `w + k` it says the second run is the
/// first with its first `k` points dropped.
pub proof fn lemma_chaos_outcomes_agree<S, F: Fn(&S, usize) -> S>(
    step: &F,
    start: S,
    c1: Seq<usize>,
    w1: int,
    p1: Seq<(S, usize)>,
    c2: Seq<usize>,
    w2: int,
    p2: Seq<(S, usize)>,
)
    requires
        is_deterministic(step),
        is_chaos_outcome(step, start, c1, w1, p1),
        is_chaos_outcome(step, start, c2, w2, p2),
        0 <= w1,
        0 <= w2,
        forall|i: int| 0 <= i < c1.len() && i < c2.len() ==> c1[i] == c2[i],
    ensures
        forall|k: int, j: int|
            0 <= k < p1.len() && 0 <= j < p2.len() && w1 + k == w2 + j ==> #[trigger] p1[k]
                == #[trigger] p2[j],
{
    let t1 = choose|trail: Seq<S>|
        {
            &&& #[trigger] is_step_trail(step, start, c1, trail)
            &&& p1.len() == c1.len() - w1
            &&& forall|k: int|
                0 <= k < p1.len() ==> #[trigger] p1[k] == (trail[w1 + k], c1[w1 + k])
        };
    let t2 = choose|trail: Seq<S>|
        {
            &&& #[trigger] is_step_trail(step, start, c2, trail)
            &&& p2.len() == c2.len() - w2
            &&& forall|k: int|
                0 <= k < p2.len() ==> #[trigger] p2[k] == (trail[w2 + k], c2[w2 + k])
        };
    assert forall|k: int, j: int|
        0 <= k < p1.len() && 0 <= j < p2.len() && w1 + k == w2 + j implies #[trigger] p1[k]
            == #[trigger] p2[j] by {
        lemma_trails_agree(step, start, c1, t1, c2, t2, w1 + k);
        assert(p1[k] == (t1[w1 + k], c1[w1 + k]));
        assert(p2[j] == (t2[w2 + j], c2[w2 + j]));
    }
}

} // verus!
