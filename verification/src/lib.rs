//! An AlphaZero-style Monte Carlo Tree Search engine.
//!
//! The engine owns a search tree of visit statistics, walks it with the PUCT
//! selection rule, expands leaves from an evaluator's value/policy output,
//! backpropagates values with perspective-correct flips, and finally turns
//! the root's visit distribution into a move — sampled proportionally to
//! visits early in a game, the most-visited action afterwards.
//!
//! All probabilities and values are fixed-point integers: a quantity in the
//! real interval `[0, 1]` is stored as an integer numerator over the constant
//! denominator [`fixed::VSCALE`]. This keeps every statistic exact, and every
//! public function's contract pins its result down as a function of its
//! inputs: two searches over the same state, configuration, evaluator, noise
//! draw and sampling draw return the same action and the same visit counts.

use vstd::prelude::*;

pub mod alpha_config;
pub mod engine;
pub mod fixed;
pub mod game;
pub mod tree;

use crate::alpha_config::{AlphaZeroConfig, SimulationParameters};
use crate::engine::{noise_view, noise_wf, run_search, spec_search};
use crate::fixed::{sum_from, sum_int, SIM_LIMIT};
use crate::game::{Evaluator, GameState};
use crate::tree::{
    child_scores, first_argmax, tree_wf, visits_bounded, ChildKey, LeafNode, NodeModel, Tree,
};

verus! {

/// Why a move decision was aborted: selection on an unexpanded root — an
/// engine contract violation — or an evaluator that could not price a
/// position. Either is fatal to the move in progress and never papered over.
#[derive(Clone, Copy, Debug, PartialEq, Eq, Structural)]
pub enum SearchError {
    LeafNode,
    EvaluatorFailure,
}

/// The position drawn from a cumulative distribution: the first entry whose
/// cumulative range `[visits[0] + .. + visits[j-1], .. + visits[j])`
/// contains `u` — an entry is drawn with probability proportional to its
/// weight when `u` is uniform.
pub open spec fn spec_sampled_index(visits: Seq<int>, u: int) -> int
    decreases visits.len(),
{
    if visits.len() == 0 {
        0
    } else if u < visits[0] {
        0
    } else {
        1 + spec_sampled_index(visits.skip(1), u - visits[0])
    }
}

/// Shifting the start of a tail sum over a dropped head element.
proof fn lemma_sum_from_shift(s: Seq<int>, i: int)
    requires
        0 <= i,
        s.len() >= 1,
    ensures
        sum_from(s.skip(1), i) == sum_from(s, i + 1),
    decreases s.len() - i,
{
    assert(s.skip(1).len() == s.len() - 1);
    if i < s.len() - 1 {
        assert(s.skip(1)[i] == s[i + 1]);
        lemma_sum_from_shift(s, i + 1);
    }
}

/// Visit-proportional sampling: for a draw `u` anywhere inside the total
/// visit mass, the sampled position `j` is a real child position and `u`
/// lies inside child `j`'s cumulative visit range — so each child is drawn
/// for exactly `visits[j]` of the `total` equally likely draw values.
pub proof fn lemma_sampling_is_visit_proportional(visits: Seq<int>, u: int)
    requires
        forall|k: int| 0 <= k < visits.len() ==> #[trigger] visits[k] >= 0,
        0 <= u < sum_int(visits),
    ensures
        ({
            let j = spec_sampled_index(visits, u);
            &&& 0 <= j < visits.len()
            &&& sum_int(visits.take(j)) <= u < sum_int(visits.take(j)) + visits[j]
        }),
    decreases visits.len(),
{
    if visits.len() == 0 {
        assert(sum_int(visits) == 0);
    } else if u < visits[0] {
        assert(visits.take(0) =~= Seq::<int>::empty());
        assert(sum_int(visits.take(0)) == 0);
    } else {
        let rest = visits.skip(1);
        let su = u - visits[0];
        assert(sum_from(visits, 0) == visits[0] + sum_from(visits, 1));
        lemma_sum_from_shift(visits, 0);
        assert(sum_int(rest) == sum_from(visits, 1));
        assert forall|k: int| 0 <= k < rest.len() implies #[trigger] rest[k] >= 0 by {
            assert(rest[k] == visits[k + 1]);
        }
        lemma_sampling_is_visit_proportional(rest, su);
        let jr = spec_sampled_index(rest, su);
        let j = 1 + jr;
        assert(spec_sampled_index(visits, u) == j);
        let pre = visits.take(j);
        assert(pre[0] == visits[0]);
        assert(pre.skip(1) =~= rest.take(jr));
        assert(sum_from(pre, 0) == pre[0] + sum_from(pre, 1));
        lemma_sum_from_shift(pre, 0);
        assert(sum_int(pre) == visits[0] + sum_int(rest.take(jr)));
        assert(visits[j] == rest[jr]);
    }
}

/// The visit counts of the root's children, in canonical action order.
pub open spec fn root_child_visits(nodes: Seq<NodeModel>) -> Seq<int> {
    match nodes[0].children {
        Some(cs) => Seq::new(cs.len(), |k: int| nodes[cs[k].1].visit_count),
        None => Seq::empty(),
    }
}

/// The move choice on an expanded root: for an early move (index below
/// `number_of_sampling_moves`) with at least one root visit, the action
/// sampled from the categorical distribution `visits(a) / total_visits`
/// using the supplied draw; otherwise the action of greatest visit count,
/// ties broken towards the canonically smallest action.
pub open spec fn spec_select_action(
    sim: SimulationParameters,
    nodes: Seq<NodeModel>,
    move_index: int,
    draw: int,
) -> u64 {
    let cs = nodes[0].children.unwrap();
    let visits = root_child_visits(nodes);
    let total = sum_int(visits);
    if move_index < sim.number_of_sampling_moves && total > 0 {
        cs[spec_sampled_index(visits, draw % total)].0
    } else {
        cs[first_argmax(visits)].0
    }
}

/// A whole move decision as a function of its inputs.
pub open spec fn spec_run_mcts<S: GameState, E: Evaluator<S>>(
    config: AlphaZeroConfig,
    s0: S,
    e: E,
    move_index: int,
    draw: int,
    noise: Option<Seq<int>>,
) -> Result<u64, SearchError> {
    match spec_search(
        config.ucb_parameter,
        config.simulation_parameters.number_of_simulations as nat,
        config.noise_parameters.exploration_fraction as int,
        s0,
        e,
        noise,
    ) {
        None => Err(SearchError::EvaluatorFailure),
        Some(ns) => match ns[0].children {
            None => Err(SearchError::LeafNode),
            Some(_) => Ok(spec_select_action(config.simulation_parameters, ns, move_index, draw)),
        },
    }
}

/// The engine: one configuration, one move decision per `run_mcts` call,
/// one tree per decision, discarded afterwards.
pub struct AlphaZero {
    pub config: AlphaZeroConfig,
}

impl AlphaZero {
    /// An engine with the given configuration.
    pub fn new(config: AlphaZeroConfig) -> (a: AlphaZero)
        ensures
            a.config == config,
    {
        AlphaZero { config }
    }

    /// Root-level move choice from a searched tree. Asking this of a root
    /// without children is a contract violation answered by `Err(LeafNode)`,
    /// never by a silent default.
    #[verifier::loop_isolation(false)]
    pub fn select_action(&self, tree: &Tree, move_index: usize, draw: u64) -> (r: Result<
        u64,
        LeafNode,
    >)
        requires
            tree_wf(tree@),
            visits_bounded(tree@, SIM_LIMIT as int),
        ensures
            match r {
                Ok(a) => tree@[0].children is Some && a == spec_select_action(
                    self.config.simulation_parameters,
                    tree@,
                    move_index as int,
                    draw as int,
                ),
                Err(_) => tree@[0].children is None,
            },
    {
        let has_children: bool = match &tree.nodes[0].children {
            Some(_) => true,
            None => false,
        };
        proof {
            assert(tree@[0] == tree.nodes@[0]@);
        }
        if !has_children {
            return Err(LeafNode);
        }
        let ghost cs = tree@[0].children.unwrap();
        let ghost visits = root_child_visits(tree@);
        let n: usize = match &tree.nodes[0].children {
            Some(list) => list.len(),
            None => 0,
        };
        proof {
            assert(crate::tree::node_wf(tree@, 0));
            assert(n == cs.len());
        }
        let mut total: u128 = 0;
        let mut k: usize = 0;
        while k < n
            invariant
                0 <= k <= n,
                total + sum_from(visits, k as int) == sum_int(visits),
                total <= (k as int) * (SIM_LIMIT as int),
            decreases n - k,
        {
            let ck: usize = match &tree.nodes[0].children {
                Some(list) => list[k].1,
                None => 0,
            };
            proof {
                assert(cs[k as int].1 == ck as int);
                assert(0 <= cs[k as int].1 < tree@.len());
                assert(tree@[ck as int] == tree.nodes@[ck as int]@);
                assert(visits[k as int] == tree@[ck as int].visit_count);
                assert(tree@[ck as int].visit_count <= SIM_LIMIT);
                assert((k as int) * (SIM_LIMIT as int) + SIM_LIMIT == (k as int + 1) * (
                SIM_LIMIT as int)) by (nonlinear_arith);
                assert((k as int + 1) * (SIM_LIMIT as int) <= 0x1_0000_0000_0000_0000
                    * 1_000_000_000) by (nonlinear_arith)
                    requires k as int + 1 <= 0x1_0000_0000_0000_0000;
            }
            total = total + (tree.nodes[ck].statistics.visit_count as u128);
            k = k + 1;
        }
        proof {
            assert(sum_from(visits, n as int) == 0);
            assert(total == sum_int(visits));
        }
        let sampling: bool = move_index < self.config.simulation_parameters.number_of_sampling_moves
            && total > 0;
        if sampling {
            let u: u128 = (draw as u128) % total;
            proof {
                assert(u as int == (draw as int) % (total as int));
                assert(visits.skip(0) =~= visits);
            }
            let mut acc: u128 = 0;
            let mut j: usize = 0;
            while j < n
                invariant
                    0 <= j <= n,
                    acc + sum_from(visits, j as int) == sum_int(visits),
                    acc <= u,
                    u < total,
                    u as int - acc < sum_from(visits, j as int),
                    spec_sampled_index(visits, u as int) == j + spec_sampled_index(
                        visits.skip(j as int),
                        u as int - acc,
                    ),
                decreases n - j,
            {
                let (a, cj): (u64, usize) = match &tree.nodes[0].children {
                    Some(list) => list[j],
                    None => (0, 0),
                };
                proof {
                    assert(cs[j as int] == (a, cj as int));
                    assert(0 <= cs[j as int].1 < tree@.len());
                    assert(tree@[cj as int] == tree.nodes@[cj as int]@);
                    assert(visits[j as int] == tree@[cj as int].visit_count);
                    assert(visits.skip(j as int)[0] == visits[j as int]);
                }
                let vj: u64 = tree.nodes[cj].statistics.visit_count;
                if u < acc + (vj as u128) {
                    proof {
                        assert(u as int - acc < visits.skip(j as int)[0]);
                        assert(spec_sampled_index(visits.skip(j as int), u as int - acc) == 0);
                        assert(spec_sampled_index(visits, u as int) == j as int);
                    }
                    return Ok(a);
                }
                proof {
                    assert(visits.skip(j as int).skip(1) =~= visits.skip(j as int + 1));
                    assert(spec_sampled_index(visits.skip(j as int), u as int - acc) == 1
                        + spec_sampled_index(
                        visits.skip(j as int + 1),
                        u as int - acc - visits[j as int],
                    ));
                    assert(sum_from(visits, j as int) == visits[j as int] + sum_from(
                        visits,
                        j as int + 1,
                    ));
                }
                acc = acc + (vj as u128);
                j = j + 1;
            }
            proof {
                assert(sum_from(visits, n as int) == 0);
                assert(false);
            }
            Err(LeafNode)
        } else {
            let res = tree.best_child(0, &ChildKey::VisitCount);
            match res {
                Ok((a, _)) => {
                    proof {
                        assert(child_scores(ChildKey::VisitCount, tree@, 0) =~= visits);
                    }
                    Ok(a)
                },
                Err(_) => {
                    proof {
                        assert(false);
                    }
                    Err(LeafNode)
                },
            }
        }
    }

    /// One whole move decision: build and evaluate the root, perturb its
    /// priors towards the exploration-noise draw (training mode), run
    /// exactly `number_of_simulations` guided simulations, and convert the
    /// root's visit distribution into an action. The result is pinned to a
    /// spec-level function of the inputs, so two calls with equal state,
    /// configuration, evaluator, noise and draw decide the same move over
    /// identical final visit counts.
    pub fn run_mcts<S: GameState, E: Evaluator<S>>(
        &self,
        state: &S,
        evaluator: &E,
        move_index: usize,
        draw: u64,
        noise: Option<&Vec<u64>>,
    ) -> (r: Result<u64, SearchError>)
        requires
            self.config.wf(),
            match noise_view(noise) {
                Some(d) => !state.spec_is_terminal() ==> noise_wf(
                    d,
                    state.spec_legal_actions().len() as int,
                ),
                None => true,
            },
        ensures
            r == spec_run_mcts(
                self.config,
                *state,
                *evaluator,
                move_index as int,
                draw as int,
                noise_view(noise),
            ),
    {
        let tree: Tree = match run_search(&self.config, state, evaluator, noise) {
            Err(_) => {
                return Err(SearchError::EvaluatorFailure);
            },
            Ok(t) => t,
        };
        proof {
            assert(visits_bounded(tree@, SIM_LIMIT as int)) by {
                assert forall|i: int| 0 <= i < tree@.len() implies #[trigger] tree@[i].visit_count
                    <= SIM_LIMIT by {
                    assert(tree@[i].visit_count
                        <= self.config.simulation_parameters.number_of_simulations);
                }
            }
        }
        match self.select_action(&tree, move_index, draw) {
            Err(_) => Err(SearchError::LeafNode),
            Ok(a) => Ok(a),
        }
    }
}

} // verus!
