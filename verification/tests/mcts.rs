//! End-to-end and component tests for the search engine, built around a tiny
//! two-action game and a constant evaluator.

use alpha_mcts::alpha_config::{
    AlphaZeroConfig, NoiseParameters, SimulationParameters, UCBParameters,
};
use alpha_mcts::engine::run_search;
use alpha_mcts::fixed::{ilog2, isqrt, PSCALE, VSCALE};
use alpha_mcts::game::{Evaluation, Evaluator, EvaluatorFailure, GameState, Player};
use alpha_mcts::tree::{ChildKey, SearchNode, Stats, Tree};
use alpha_mcts::{AlphaZero, SearchError};

/// A two-action game that ends after `max_depth` moves; the terminal value
/// is always 0.5 for the player to move there.
#[derive(Clone, Copy)]
struct ToyState {
    depth: u64,
    max_depth: u64,
    player: u8,
}

impl ToyState {
    fn fresh(max_depth: u64) -> ToyState {
        ToyState { depth: 0, max_depth, player: 0 }
    }
}

impl GameState for ToyState {
    // The `spec_` items are the trait's ghost interface: they exist only for
    // the verifier and are never called at runtime, so a test implementation
    // stubs them out.
    fn spec_perspective(&self) -> Player {
        unreachable!()
    }

    fn spec_is_terminal(&self) -> bool {
        unreachable!()
    }

    fn spec_terminal_value(&self) -> vstd::prelude::int {
        unreachable!()
    }

    fn spec_legal_actions(&self) -> vstd::prelude::Seq<u64> {
        unreachable!()
    }

    fn spec_apply(&self, _action: u64) -> ToyState {
        unreachable!()
    }

    fn perspective(&self) -> Player {
        if self.player == 0 {
            Player::Left
        } else {
            Player::Right
        }
    }

    fn is_terminal(&self) -> bool {
        self.depth >= self.max_depth
    }

    fn terminal_value(&self) -> u64 {
        5_000
    }

    fn legal_actions(&self) -> Vec<u64> {
        if self.depth >= self.max_depth {
            Vec::new()
        } else {
            vec![1, 2]
        }
    }

    fn apply(&mut self, _action: u64) {
        self.depth += 1;
        self.player = 1 - self.player;
    }

    fn duplicate(&self) -> ToyState {
        *self
    }
}

/// Always answers value 0.5 and priors {first: 0.6, second: 0.4}.
struct ConstEvaluator;

impl Evaluator<ToyState> for ConstEvaluator {
    fn spec_evaluate(&self, _s: ToyState) -> Option<alpha_mcts::game::EvalModel> {
        unreachable!()
    }

    fn evaluate(&self, s: &ToyState) -> Result<Evaluation, EvaluatorFailure> {
        let n = s.legal_actions().len();
        assert_eq!(n, 2);
        Ok(Evaluation { value: 5_000, priors: vec![6_000, 4_000] })
    }
}

/// Never manages to price a position.
struct FailingEvaluator;

impl Evaluator<ToyState> for FailingEvaluator {
    fn spec_evaluate(&self, _s: ToyState) -> Option<alpha_mcts::game::EvalModel> {
        unreachable!()
    }

    fn evaluate(&self, _s: &ToyState) -> Result<Evaluation, EvaluatorFailure> {
        Err(EvaluatorFailure)
    }
}

fn config_with_sims(sims: usize, sampling_moves: usize) -> AlphaZeroConfig {
    let mut c = AlphaZeroConfig::default();
    c.simulation_parameters = SimulationParameters {
        number_of_sampling_moves: sampling_moves,
        maximum_number_of_moves: 512,
        number_of_simulations: sims,
    };
    c
}

/// A small deterministic generator for sampling draws.
fn lcg_next(state: &mut u64) -> u64 {
    *state = state.wrapping_mul(6364136223846793005).wrapping_add(1442695040888963407);
    *state >> 16
}

#[test]
fn default_config_reference_constants() {
    let c = AlphaZeroConfig::default();
    assert_eq!(c.actor_count, 5000);
    assert_eq!(c.ucb_parameter.c_base, 196_520_000);
    assert_eq!(c.ucb_parameter.c_init, 12_500);
    assert_eq!(c.noise_parameters.dirichlet_alpha, 3_000);
    assert_eq!(c.noise_parameters.exploration_fraction, 2_500);
    assert_eq!(c.simulation_parameters.number_of_sampling_moves, 30);
    assert_eq!(c.simulation_parameters.maximum_number_of_moves, 512);
    assert_eq!(c.simulation_parameters.number_of_simulations, 800);
    assert_eq!(c.training_parameters.steps, 700_000);
    assert_eq!(c.training_parameters.checkpoint_interval, 1_000);
    assert_eq!(c.training_parameters.window_size, 1_000_000);
    assert_eq!(c.training_parameters.batch_size, 4096);
    assert_eq!(c.training_parameters.weight_decay, 1);
    assert_eq!(c.training_parameters.momentum, 9_000);
    assert_eq!(
        c.training_parameters.learning_rate_schedule,
        vec![(0, 2_000), (100_000, 200), (300_000, 20), (500_000, 2)]
    );
}

#[test]
fn learning_rate_schedule_lookup() {
    let c = AlphaZeroConfig::default();
    let t = &c.training_parameters;
    assert_eq!(t.effective_learning_rate(0), 2_000);
    assert_eq!(t.effective_learning_rate(99_999), 2_000);
    assert_eq!(t.effective_learning_rate(100_000), 200);
    assert_eq!(t.effective_learning_rate(299_999), 200);
    assert_eq!(t.effective_learning_rate(300_000), 20);
    assert_eq!(t.effective_learning_rate(500_000), 2);
    assert_eq!(t.effective_learning_rate(700_000), 2);
}

#[test]
fn integer_sqrt_and_log() {
    assert_eq!(isqrt(0), 0);
    assert_eq!(isqrt(1), 1);
    assert_eq!(isqrt(2), 1);
    assert_eq!(isqrt(100_000_000), 10_000);
    assert_eq!(isqrt(200_000_000), 14_142);
    assert_eq!(ilog2(1), 0);
    assert_eq!(ilog2(2), 1);
    assert_eq!(ilog2(3), 1);
    assert_eq!(ilog2(1024), 10);
    assert_eq!(ilog2(u64::MAX), 63);
}

#[test]
fn stats_init_zeroes_counts() {
    let s = Stats::init(123);
    assert_eq!(s.visit_count, 0);
    assert_eq!(s.total_action_value, 0);
    assert_eq!(s.prior_probability, 123);
}

fn two_child_tree(
    stats_a: Stats,
    stats_b: Stats,
    root_to_play: Player,
    child_to_play: Player,
) -> Tree {
    let mut t = Tree::new(Stats::init(0), root_to_play);
    t.nodes[0].children = Some(vec![(5, 1), (7, 2)]);
    t.nodes.push(SearchNode { statistics: stats_a, to_play: child_to_play, children: None });
    t.nodes.push(SearchNode { statistics: stats_b, to_play: child_to_play, children: None });
    t
}

#[test]
fn perspective_flip_in_backpropagation() {
    // Root and child disagree on who is to move; backpropagating 0.7 from
    // the child's perspective credits 0.7 to the child and 0.3 to the root.
    let mut t = Tree::new(Stats::init(0), Player::Left);
    t.nodes[0].children = Some(vec![(1, 1)]);
    t.nodes.push(SearchNode {
        statistics: Stats::init(0),
        to_play: Player::Right,
        children: None,
    });
    t.backpropagate(&vec![0, 1], 7_000, Player::Right);
    assert_eq!(t.nodes[1].statistics.total_action_value, 7_000);
    assert_eq!(t.nodes[0].statistics.total_action_value, 3_000);
    assert_eq!(t.nodes[0].statistics.visit_count, 1);
    assert_eq!(t.nodes[1].statistics.visit_count, 1);
}

#[test]
fn backpropagation_skips_nodes_off_the_path() {
    let t0 = Stats { visit_count: 4, total_action_value: 9_000, prior_probability: 0 };
    let mut t = two_child_tree(t0, t0, Player::Left, Player::Right);
    t.backpropagate(&vec![0, 1], 2_500, Player::Left);
    // On-path nodes gain one visit; the node off the path is untouched.
    assert_eq!(t.nodes[0].statistics.visit_count, 1);
    assert_eq!(t.nodes[0].statistics.total_action_value, 2_500);
    assert_eq!(t.nodes[1].statistics.visit_count, 5);
    assert_eq!(t.nodes[1].statistics.total_action_value, 16_500);
    assert_eq!(t.nodes[2].statistics.visit_count, 4);
    assert_eq!(t.nodes[2].statistics.total_action_value, 9_000);
}

#[test]
fn tie_break_prefers_canonically_smaller_action() {
    // Identical (Q, U) for both children: the smaller action must win, on
    // the PUCT key and on the visit-count key alike, run after run.
    let s = Stats { visit_count: 3, total_action_value: 1_500, prior_probability: 50_000_000 };
    let t = two_child_tree(s, s, Player::Left, Player::Right);
    let ucb = UCBParameters { c_base: 196_520_000, c_init: 12_500 };
    for _ in 0..10 {
        let (action, child) = t.best_child(0, &ChildKey::Ucb(ucb)).unwrap();
        assert_eq!(action, 5);
        assert_eq!(child, 1);
        let (action, child) = t.best_child(0, &ChildKey::VisitCount).unwrap();
        assert_eq!(action, 5);
        assert_eq!(child, 1);
    }
}

#[test]
fn unvisited_children_have_no_value_term() {
    // Freshly expanded children: visit_count == 0, so Q is 0 by convention
    // and only the prior-weighted bonus differentiates them.
    let sa = Stats { visit_count: 0, total_action_value: 0, prior_probability: 40_000_000 };
    let sb = Stats { visit_count: 0, total_action_value: 0, prior_probability: 60_000_000 };
    let mut t = two_child_tree(sa, sb, Player::Left, Player::Right);
    t.nodes[0].statistics.visit_count = 1;
    let ucb = UCBParameters { c_base: 196_520_000, c_init: 12_500 };
    let (action, child) = t.best_child(0, &ChildKey::Ucb(ucb)).unwrap();
    // The larger prior wins purely on the exploration bonus.
    assert_eq!(action, 7);
    assert_eq!(child, 2);
}

#[test]
fn best_child_on_leaf_is_an_error() {
    let t = Tree::new(Stats::init(0), Player::Left);
    assert!(t.best_child(0, &ChildKey::VisitCount).is_err());
    let engine = AlphaZero::new(AlphaZeroConfig::default());
    assert!(engine.select_action(&t, 0, 0).is_err());
}

#[test]
fn root_visit_count_equals_simulation_budget() {
    let config = config_with_sims(50, 0);
    let state = ToyState::fresh(4);
    let tree = run_search(&config, &state, &ConstEvaluator, None).unwrap();
    assert_eq!(tree.nodes[0].statistics.visit_count, 50);
}

#[test]
fn search_is_deterministic() {
    let state = ToyState::fresh(4);
    let t1 = run_search(&config_with_sims(100, 0), &state, &ConstEvaluator, None).unwrap();
    let t2 = run_search(&config_with_sims(100, 0), &state, &ConstEvaluator, None).unwrap();
    assert_eq!(t1.nodes.len(), t2.nodes.len());
    for (a, b) in t1.nodes.iter().zip(t2.nodes.iter()) {
        assert_eq!(a.statistics.visit_count, b.statistics.visit_count);
        assert_eq!(a.statistics.total_action_value, b.statistics.total_action_value);
        assert_eq!(a.statistics.prior_probability, b.statistics.prior_probability);
    }
    let engine = AlphaZero::new(config_with_sims(100, 0));
    let m1 = engine.run_mcts(&state, &ConstEvaluator, 40, 17, None).unwrap();
    let m2 = engine.run_mcts(&state, &ConstEvaluator, 40, 17, None).unwrap();
    assert_eq!(m1, m2);
}

#[test]
fn noise_injection_preserves_normalization() {
    // Expand a fresh root, perturb with eps = 0.25 towards the draw
    // {0.2, 0.8}, and check the exact blended priors and their sum.
    let state = ToyState::fresh(2);
    let mut tree = Tree::new(Stats::init(0), Player::Left);
    let ev = Evaluation { value: 5_000, priors: vec![6_000, 4_000] };
    tree.expand(0, &state, &ev);
    assert_eq!(tree.nodes[1].statistics.prior_probability, 6_000 * VSCALE);
    assert_eq!(tree.nodes[2].statistics.prior_probability, 4_000 * VSCALE);
    let params = NoiseParameters { dirichlet_alpha: 3_000, exploration_fraction: 2_500 };
    tree.add_exploration_noise(&params, &vec![2_000, 8_000]);
    let pa = tree.nodes[1].statistics.prior_probability;
    let pb = tree.nodes[2].statistics.prior_probability;
    assert_eq!(pa, 7_500 * 6_000 + 2_500 * 2_000);
    assert_eq!(pb, 7_500 * 4_000 + 2_500 * 8_000);
    assert_eq!(pa + pb, PSCALE);
}

#[test]
fn noise_normalization_across_fractions() {
    // For any exploration fraction in [0, 1], the perturbed priors still
    // sum to exactly 1.
    for eps in [0, 1, 2_500, 5_000, 9_999, VSCALE] {
        let state = ToyState::fresh(2);
        let mut tree = Tree::new(Stats::init(0), Player::Left);
        let ev = Evaluation { value: 5_000, priors: vec![6_000, 4_000] };
        tree.expand(0, &state, &ev);
        let params = NoiseParameters { dirichlet_alpha: 3_000, exploration_fraction: eps };
        tree.add_exploration_noise(&params, &vec![9_000, 1_000]);
        let sum: u64 = tree.nodes[1].statistics.prior_probability
            + tree.nodes[2].statistics.prior_probability;
        assert_eq!(sum, PSCALE);
    }
}

#[test]
fn sampling_converges_to_visit_proportions() {
    // Children with visits {700, 300}: 10,000 draws must land within a few
    // percentage points of 70% / 30%.
    let sa = Stats { visit_count: 700, total_action_value: 0, prior_probability: 0 };
    let sb = Stats { visit_count: 300, total_action_value: 0, prior_probability: 0 };
    let mut t = two_child_tree(sa, sb, Player::Left, Player::Right);
    t.nodes[0].statistics.visit_count = 1_000;
    let engine = AlphaZero::new(AlphaZeroConfig::default());
    let mut seed: u64 = 42;
    let mut first: u64 = 0;
    let rounds: u64 = 10_000;
    for _ in 0..rounds {
        let draw = lcg_next(&mut seed);
        match engine.select_action(&t, 0, draw).unwrap() {
            5 => first += 1,
            7 => {}
            other => panic!("unexpected action {}", other),
        }
    }
    let share = first as f64 / rounds as f64;
    assert!(share > 0.67 && share < 0.73, "first-action share was {}", share);
}

#[test]
fn late_moves_take_the_most_visited_action() {
    let sa = Stats { visit_count: 300, total_action_value: 0, prior_probability: 0 };
    let sb = Stats { visit_count: 700, total_action_value: 0, prior_probability: 0 };
    let mut t = two_child_tree(sa, sb, Player::Left, Player::Right);
    t.nodes[0].statistics.visit_count = 1_000;
    let engine = AlphaZero::new(AlphaZeroConfig::default());
    // Move index beyond the sampling window: argmax by visits, always.
    assert_eq!(engine.select_action(&t, 30, 999).unwrap(), 7);
    assert_eq!(engine.select_action(&t, 1_000, 0).unwrap(), 7);
}

#[test]
fn evaluator_failure_aborts_the_move() {
    let engine = AlphaZero::new(config_with_sims(3, 0));
    let state = ToyState::fresh(4);
    let r = engine.run_mcts(&state, &FailingEvaluator, 0, 0, None);
    assert_eq!(r, Err(SearchError::EvaluatorFailure));
}

#[test]
fn end_to_end_three_simulations() {
    // Depth-2 game, constant evaluator (value 0.5, priors {0.6, 0.4}).
    // Hand computation with c_init = 1.25, c_base = 19652:
    //   sim 1: root unvisited, sqrt(0) = 0, all scores 0 -> first child;
    //          the child is expanded and 0.5 backed up.
    //   sim 2: Q(first) = 0.5, U(first) = 0.0375 > Q(second) 0 + U(second)
    //          0.05 -> first child again; inside it the 0.6-prior grandchild
    //          wins, is terminal, and 0.5 flows back.
    //   sim 3: first child again (0.5 + 0.0354 > 0.0707), same grandchild.
    let config = config_with_sims(3, 0);
    let state = ToyState::fresh(2);
    let tree = run_search(&config, &state, &ConstEvaluator, None).unwrap();
    // Root was expanded by its own evaluation (not counted), then visited
    // once per simulation.
    assert_eq!(tree.nodes[0].statistics.visit_count, 3);
    assert_eq!(tree.nodes[0].statistics.total_action_value, 15_000);
    let children = tree.nodes[0].children.as_ref().unwrap().clone();
    assert_eq!(children, vec![(1, 1), (2, 2)]);
    // Every simulation went through the first (higher-prior) child.
    assert_eq!(tree.nodes[1].statistics.visit_count, 3);
    assert_eq!(tree.nodes[1].statistics.total_action_value, 15_000);
    assert_eq!(tree.nodes[2].statistics.visit_count, 0);
    // The first child was expanded into two grandchildren; only the
    // 0.6-prior one was ever visited, and, being terminal, never expanded.
    let grandchildren = tree.nodes[1].children.as_ref().unwrap().clone();
    assert_eq!(grandchildren, vec![(1, 3), (2, 4)]);
    assert_eq!(tree.nodes[3].statistics.visit_count, 2);
    assert!(tree.nodes[3].children.is_none());
    assert_eq!(tree.nodes[4].statistics.visit_count, 0);
    assert!(tree.nodes[4].children.is_none());
    // The move decision takes the most-visited root action.
    let engine = AlphaZero::new(config_with_sims(3, 0));
    assert_eq!(engine.run_mcts(&state, &ConstEvaluator, 0, 0, None).unwrap(), 1);
}

#[test]
fn terminal_root_stays_a_leaf() {
    // A root handed a finished game is never expanded; every simulation
    // backpropagates the terminal value through the root alone, and the
    // move decision reports the contract violation.
    let config = config_with_sims(5, 0);
    let state = ToyState::fresh(0);
    let tree = run_search(&config, &state, &ConstEvaluator, None).unwrap();
    assert_eq!(tree.nodes.len(), 1);
    assert!(tree.nodes[0].children.is_none());
    assert_eq!(tree.nodes[0].statistics.visit_count, 5);
    assert_eq!(tree.nodes[0].statistics.total_action_value, 25_000);
    let engine = AlphaZero::new(config_with_sims(5, 0));
    assert_eq!(
        engine.run_mcts(&state, &ConstEvaluator, 0, 0, None),
        Err(SearchError::LeafNode)
    );
}

#[test]
fn noise_changes_exploration_but_keeps_budget() {
    // A heavily skewed draw pushes the second action's prior up; the search
    // still spends exactly its budget, and the root priors stay normalized.
    let config = config_with_sims(20, 0);
    let state = ToyState::fresh(2);
    let tree = run_search(
        &config,
        &state,
        &ConstEvaluator,
        Some(&vec![0, VSCALE]),
    )
    .unwrap();
    assert_eq!(tree.nodes[0].statistics.visit_count, 20);
    let pa = tree.nodes[1].statistics.prior_probability;
    let pb = tree.nodes[2].statistics.prior_probability;
    assert_eq!(pa + pb, PSCALE);
    assert_eq!(pa, 7_500 * 6_000);
    assert_eq!(pb, 7_500 * 4_000 + 2_500 * VSCALE);
}

#[test]
fn zero_simulations_fall_back_to_argmax() {
    // With no simulations the root is expanded but unvisited: the sampling
    // branch is skipped (no visit mass) and the argmax tie-break picks the
    // canonically smallest action.
    let engine = AlphaZero::new(config_with_sims(0, 30));
    let state = ToyState::fresh(2);
    let tree = run_search(&engine.config, &state, &ConstEvaluator, None).unwrap();
    assert_eq!(tree.nodes[0].statistics.visit_count, 0);
    assert_eq!(engine.run_mcts(&state, &ConstEvaluator, 0, 123, None).unwrap(), 1);
}

#[test]
fn sampling_draw_wraps_modulo_total_visits() {
    // The draw is reduced modulo the total visit mass, so draws that differ
    // by a multiple of the total pick the same action.
    let sa = Stats { visit_count: 700, total_action_value: 0, prior_probability: 0 };
    let sb = Stats { visit_count: 300, total_action_value: 0, prior_probability: 0 };
    let mut t = two_child_tree(sa, sb, Player::Left, Player::Right);
    t.nodes[0].statistics.visit_count = 1_000;
    let engine = AlphaZero::new(AlphaZeroConfig::default());
    for offset in [0u64, 250, 699, 700, 999] {
        let base = engine.select_action(&t, 0, offset).unwrap();
        assert_eq!(engine.select_action(&t, 0, offset + 1_000).unwrap(), base);
        assert_eq!(engine.select_action(&t, 0, offset + 7_000).unwrap(), base);
    }
    // The cumulative ranges themselves: draws 0..699 take the first child,
    // 700..999 the second.
    assert_eq!(engine.select_action(&t, 0, 699).unwrap(), 5);
    assert_eq!(engine.select_action(&t, 0, 700).unwrap(), 7);
}

#[test]
fn single_child_is_always_selected() {
    let mut t = Tree::new(Stats::init(0), Player::Left);
    t.nodes[0].children = Some(vec![(9, 1)]);
    t.nodes.push(SearchNode {
        statistics: Stats { visit_count: 4, total_action_value: 0, prior_probability: 0 },
        to_play: Player::Right,
        children: None,
    });
    t.nodes[0].statistics.visit_count = 4;
    let engine = AlphaZero::new(AlphaZeroConfig::default());
    assert_eq!(engine.select_action(&t, 0, 3).unwrap(), 9);
    assert_eq!(engine.select_action(&t, 50, 0).unwrap(), 9);
}
