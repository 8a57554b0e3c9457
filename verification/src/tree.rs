//! The search tree: an arena of nodes addressed by stable integer indices,
//! per-node visit statistics, the PUCT score, and maximizing-child selection.

use vstd::prelude::*;

use crate::alpha_config::{NoiseParameters, UCBParameters};
use crate::fixed::{ilog2, isqrt, lemma_sum_linear_comb, lemma_sum_scale, log2_floor, sqrt_floor, sum_int, PSCALE, SIM_LIMIT, VSCALE};
use crate::game::Player;

verus! {

/// Per-node visit statistics. `visit_count` is a plain count;
/// `total_action_value` is a sum of per-visit values, fixed-point over
/// `VSCALE`; `prior_probability` is fixed-point over `PSCALE`.
#[derive(Clone, Copy)]
pub struct Stats {
    pub visit_count: u64,
    pub total_action_value: u64,
    pub prior_probability: u64,
}

impl Stats {
    /// A fresh node's statistics: no visits, no accumulated value, the prior
    /// handed down from the parent's evaluation.
    pub fn init(prior: u64) -> (s: Self)
        ensures
            s.visit_count == 0,
            s.total_action_value == 0,
            s.prior_probability == prior,
    {
        Stats { visit_count: 0, total_action_value: 0, prior_probability: prior }
    }
}

/// Spec-level image of one tree node. A child entry pairs the edge action
/// with the child's index in the arena.
pub ghost struct NodeModel {
    pub visit_count: int,
    pub total_action_value: int,
    pub prior_probability: int,
    pub to_play: Player,
    pub children: Option<Seq<(u64, int)>>,
}

/// One tree vertex: statistics, the player to move at its state, and, once
/// expanded, the edge actions with the child indices, in canonical action
/// order. `children` transitions `None` to `Some` exactly once and its shape
/// never changes afterwards.
pub struct SearchNode {
    pub statistics: Stats,
    pub to_play: Player,
    pub children: Option<Vec<(u64, usize)>>,
}

impl View for SearchNode {
    type V = NodeModel;

    open spec fn view(&self) -> NodeModel {
        NodeModel {
            visit_count: self.statistics.visit_count as int,
            total_action_value: self.statistics.total_action_value as int,
            prior_probability: self.statistics.prior_probability as int,
            to_play: self.to_play,
            children: match self.children {
                Some(cs) => Some(cs@.map_values(|c: (u64, usize)| (c.0, c.1 as int))),
                None => None,
            },
        }
    }
}

/// Selection or action choice was asked of a node without children: an
/// engine contract violation, fatal to the move decision in progress.
#[derive(Clone, Copy, Debug, PartialEq, Eq, Structural)]
pub struct LeafNode;

/// The search tree. The node at index `0` is the root; children always sit
/// at strictly larger indices than their parent, so every root-to-leaf walk
/// strictly ascends.
pub struct Tree {
    pub nodes: Vec<SearchNode>,
}

impl View for Tree {
    type V = Seq<NodeModel>;

    open spec fn view(&self) -> Seq<NodeModel> {
        self.nodes@.map_values(|n: SearchNode| n@)
    }
}

/// Structural and arithmetic well-formedness of the node at `i`: an expanded
/// node has at least one child; child entries ascend strictly both in action
/// (the canonical order) and in index (children are newer than the parent);
/// the prior is a probability and the value sum is bounded by the visits.
pub open spec fn node_wf(nodes: Seq<NodeModel>, i: int) -> bool {
    &&& match nodes[i].children {
        Some(cs) => {
            &&& cs.len() > 0
            &&& forall|k: int| 0 <= k < cs.len() ==> i < #[trigger] cs[k].1 < nodes.len()
            &&& forall|k: int| 0 < k < cs.len() ==> #[trigger] cs[k - 1].0 < cs[k].0
            &&& forall|k: int| 0 < k < cs.len() ==> #[trigger] cs[k - 1].1 < cs[k].1
        },
        None => true,
    }
    &&& 0 <= nodes[i].prior_probability <= PSCALE
    &&& 0 <= nodes[i].visit_count
    &&& 0 <= nodes[i].total_action_value <= nodes[i].visit_count * VSCALE
}

/// The whole arena is well-formed.
pub open spec fn tree_wf(nodes: Seq<NodeModel>) -> bool {
    &&& nodes.len() > 0
    &&& forall|i: int| 0 <= i < nodes.len() ==> node_wf(nodes, i)
}

/// Every node has been visited at most `b` times.
pub open spec fn visits_bounded(nodes: Seq<NodeModel>, b: int) -> bool {
    forall|i: int| 0 <= i < nodes.len() ==> #[trigger] nodes[i].visit_count <= b
}

/// The PUCT exploration coefficient, fixed-point over `VSCALE`:
/// `c = log2((1 + N_parent + c_base) / c_base) + c_init`, with the logarithm
/// taken as the integer floor of the rounded-down ratio.
pub open spec fn exploration_coefficient(ucb: UCBParameters, parent_visits: int) -> int {
    VSCALE * log2_floor((VSCALE + parent_visits * VSCALE + ucb.c_base) / (ucb.c_base as int))
        + ucb.c_init
}

/// The prior-weighted exploration bonus, fixed-point over `PSCALE`:
/// `U = c * P * sqrt(N_parent) / (1 + N_child)`, with the square root taken
/// at `VSCALE` precision and the quotient rounded down.
pub open spec fn exploration_term(ucb: UCBParameters, parent_visits: int, child: NodeModel) -> int {
    exploration_coefficient(ucb, parent_visits) * child.prior_probability * sqrt_floor(
        parent_visits * PSCALE,
    ) / (PSCALE * (1 + child.visit_count))
}

/// The mean action value `Q`, fixed-point over `PSCALE`. An unvisited child
/// contributes no value term: `Q` is `0` by explicit convention, never an
/// undefined `0 / 0`.
pub open spec fn mean_value_term(child: NodeModel) -> int {
    if child.visit_count == 0 {
        0
    } else {
        child.total_action_value * VSCALE / child.visit_count
    }
}

/// The PUCT score of a child under its parent: `Q + U`.
pub open spec fn puct_score(ucb: UCBParameters, parent_visits: int, child: NodeModel) -> int {
    mean_value_term(child) + exploration_term(ucb, parent_visits, child)
}

/// A freshly expanded, never-visited child contributes no value term: its
/// mean action value is `0` by explicit convention — never an undefined
/// `0 / 0` — so its PUCT score is exactly the prior-weighted exploration
/// bonus, and comparing such scores is always well defined.
pub proof fn lemma_unvisited_child_score(ucb: UCBParameters, parent_visits: int, child: NodeModel)
    requires
        child.visit_count == 0,
    ensures
        mean_value_term(child) == 0,
        puct_score(ucb, parent_visits, child) == exploration_term(ucb, parent_visits, child),
{
}

/// What `best_child` maximizes: the PUCT score during simulations, the bare
/// visit count for the final move choice.
#[derive(Clone, Copy)]
pub enum ChildKey {
    Ucb(UCBParameters),
    VisitCount,
}

/// The key's value for one child.
pub open spec fn key_score(key: ChildKey, parent_visits: int, child: NodeModel) -> int {
    match key {
        ChildKey::Ucb(ucb) => puct_score(ucb, parent_visits, child),
        ChildKey::VisitCount => child.visit_count,
    }
}

/// The scores of the children of node `i`, in canonical order.
pub open spec fn child_scores(key: ChildKey, nodes: Seq<NodeModel>, i: int) -> Seq<int> {
    match nodes[i].children {
        Some(cs) => Seq::new(
            cs.len(),
            |k: int| key_score(key, nodes[i].visit_count, nodes[cs[k].1]),
        ),
        None => Seq::empty(),
    }
}

/// The position of the first maximum of a non-empty score sequence: ties are
/// broken towards the earlier (canonically smaller) child.
pub open spec fn first_argmax(scores: Seq<int>) -> int
    decreases scores.len(),
{
    if scores.len() <= 1 {
        0
    } else {
        let b = first_argmax(scores.drop_last());
        if scores.last() > scores[b] {
            scores.len() - 1
        } else {
            b
        }
    }
}

/// `first_argmax` names a maximal entry, and every strictly earlier entry is
/// strictly smaller: the tie-break is stable and deterministic.
pub proof fn lemma_first_argmax(scores: Seq<int>)
    requires
        scores.len() > 0,
    ensures
        0 <= first_argmax(scores) < scores.len(),
        forall|k: int| 0 <= k < scores.len() ==> #[trigger] scores[k] <= scores[first_argmax(scores)],
        forall|k: int| 0 <= k < first_argmax(scores) ==> #[trigger] scores[k] < scores[first_argmax(scores)],
    decreases scores.len(),
{
    if scores.len() > 1 {
        lemma_first_argmax(scores.drop_last());
        assert(forall|k: int| 0 <= k < scores.len() - 1 ==> scores.drop_last()[k] == #[trigger] scores[k]);
    }
}

/// The child index selected by the key at node `i`: the position, in the
/// child list, of the first maximal score.
pub open spec fn spec_best_child(key: ChildKey, nodes: Seq<NodeModel>, i: int) -> int {
    first_argmax(child_scores(key, nodes, i))
}

/// Whether `j` is the index of one of the first `k` entries of the child
/// list `cs`.
pub open spec fn is_child_index_upto(cs: Seq<(u64, int)>, j: int, k: int) -> bool {
    exists|m: int| 0 <= m < k && #[trigger] cs[m].1 == j
}

/// Whether `j` is the index of one of the entries of the child list `cs`.
pub open spec fn is_child_index(cs: Seq<(u64, int)>, j: int) -> bool {
    is_child_index_upto(cs, j, cs.len() as int)
}

/// The stored priors of the children of node `i`, in canonical order.
pub open spec fn child_priors(nodes: Seq<NodeModel>, i: int) -> Seq<int> {
    match nodes[i].children {
        Some(cs) => Seq::new(cs.len(), |k: int| nodes[cs[k].1].prior_probability),
        None => Seq::empty(),
    }
}

/// The stored priors of the root's children, in canonical order.
pub open spec fn root_child_priors(nodes: Seq<NodeModel>) -> Seq<int> {
    child_priors(nodes, 0)
}

/// A node with its prior probability replaced and all else kept.
pub open spec fn with_prior(node: NodeModel, prior: int) -> NodeModel {
    NodeModel {
        visit_count: node.visit_count,
        total_action_value: node.total_action_value,
        prior_probability: prior,
        to_play: node.to_play,
        children: node.children,
    }
}

/// The noise-perturbed prior of root child `k`:
/// `P'(a) = (1 - eps) * P(a) + eps * d(a)`, written over the fixed-point
/// scales, where the stored prior is still the whole multiple
/// `VSCALE * P(a)` it received at expansion.
pub open spec fn noised_prior(nodes: Seq<NodeModel>, eps: int, noise: Seq<int>, k: int) -> int {
    let cs = nodes[0].children.unwrap();
    (VSCALE - eps) * (nodes[cs[k].1].prior_probability / (VSCALE as int)) + eps * noise[k]
}

/// The key's value for one child, computed in machine integers. Every
/// intermediate is bounded by the `wf` side conditions, so the fixed-point
/// score is exact.
fn score_of(key: &ChildKey, parent_visits: u64, child: &SearchNode) -> (s: u64)
    requires
        parent_visits <= SIM_LIMIT,
        match *key {
            ChildKey::Ucb(ucb) => ucb.wf(),
            ChildKey::VisitCount => true,
        },
        child@.visit_count <= SIM_LIMIT,
        child@.prior_probability <= PSCALE,
        child@.total_action_value <= child@.visit_count * VSCALE,
    ensures
        s == key_score(*key, parent_visits as int, child@),
{
    match key {
        ChildKey::VisitCount => child.statistics.visit_count,
        ChildKey::Ucb(ucb) => {
            let num_ratio: u64 = VSCALE + parent_visits * VSCALE + ucb.c_base;
            proof {
                assert((num_ratio as int) / (ucb.c_base as int) >= 1) by (nonlinear_arith)
                    requires num_ratio >= ucb.c_base >= 1;
            }
            let ratio: u64 = num_ratio / ucb.c_base;
            let c: u64 = VSCALE * ilog2(ratio) + ucb.c_init;
            let sq: u64 = isqrt(parent_visits * PSCALE);
            proof {
                assert(sq as int <= 320_000_000) by (nonlinear_arith)
                    requires
                        0 <= sq,
                        (sq as int) * (sq as int) <= 100_000_000_000_000_000,
                ;
            }
            let n1: u64 = 1 + child.statistics.visit_count;
            proof {
                assert((c as int) * (child.statistics.prior_probability as int)
                    <= 1_000_630_000 * 100_000_000) by (nonlinear_arith)
                    requires
                        0 <= c <= 1_000_630_000,
                        0 <= child.statistics.prior_probability <= 100_000_000,
                ;
            }
            let cp: u128 = (c as u128) * (child.statistics.prior_probability as u128);
            proof {
                assert((cp as int) * (sq as int) <= 1_000_630_000 * 100_000_000 * 320_000_000)
                    by (nonlinear_arith)
                    requires
                        0 <= cp <= 1_000_630_000 * 100_000_000,
                        0 <= sq <= 320_000_000,
                ;
            }
            let num: u128 = cp * (sq as u128);
            let den: u128 = (PSCALE as u128) * (n1 as u128);
            proof {
                assert(den >= PSCALE) by (nonlinear_arith)
                    requires den == (PSCALE as int) * (n1 as int), n1 >= 1;
                vstd::arithmetic::div_mod::lemma_div_is_ordered_by_denominator(
                    num as int,
                    PSCALE as int,
                    den as int,
                );
            }
            let u_term: u64 = (num / den) as u64;
            let q_term: u64 = if child.statistics.visit_count == 0 {
                0
            } else {
                proof {
                    let v = child.statistics.visit_count as int;
                    let t = child.statistics.total_action_value as int;
                    vstd::arithmetic::div_mod::lemma_div_is_ordered(
                        t * VSCALE,
                        v * VSCALE * VSCALE,
                        v,
                    );
                    assert((v * VSCALE * VSCALE) / v == VSCALE * VSCALE) by (nonlinear_arith)
                        requires v >= 1;
                }
                (child.statistics.total_action_value * VSCALE) / child.statistics.visit_count
            };
            q_term + u_term
        },
    }
}

impl Tree {
    /// A fresh tree: the given root statistics and perspective, no children.
    pub fn new(statistics: Stats, to_play: Player) -> (t: Tree)
        ensures
            t@.len() == 1,
            t@[0].visit_count == statistics.visit_count,
            t@[0].total_action_value == statistics.total_action_value,
            t@[0].prior_probability == statistics.prior_probability,
            t@[0].to_play == to_play,
            t@[0].children is None,
    {
        let nodes = vec![SearchNode { statistics, to_play, children: None }];
        Tree { nodes }
    }

    /// The child of node `idx` that maximizes the key, together with its edge
    /// action. Exact ties go to the earliest child in canonical action order.
    /// Asking this of an unexpanded node is a contract violation and answers
    /// `Err(LeafNode)`.
    pub fn best_child(&self, idx: usize, key: &ChildKey) -> (r: Result<(u64, usize), LeafNode>)
        requires
            tree_wf(self@),
            idx < self@.len(),
            visits_bounded(self@, SIM_LIMIT as int),
            match *key {
                ChildKey::Ucb(ucb) => ucb.wf(),
                ChildKey::VisitCount => true,
            },
        ensures
            match r {
                Ok((action, child)) => {
                    &&& self@[idx as int].children is Some
                    &&& {
                        let cs = self@[idx as int].children.unwrap();
                        let k = spec_best_child(*key, self@, idx as int);
                        &&& 0 <= k < cs.len()
                        &&& action == cs[k].0
                        &&& child == cs[k].1
                    }
                },
                Err(_) => self@[idx as int].children is None,
            },
    {
        let parent_visits: u64 = self.nodes[idx].statistics.visit_count;
        match &self.nodes[idx].children {
            None => Err(LeafNode),
            Some(cs) => {
                let ghost scores = child_scores(*key, self@, idx as int);
                let ghost model_cs = self@[idx as int].children.unwrap();
                proof {
                    assert(model_cs.len() == cs@.len());
                    assert(scores.len() == cs@.len());
                }
                let n: usize = cs.len();
                proof {
                    assert(node_wf(self@, idx as int));
                    assert(model_cs[0] == (cs@[0].0, cs@[0].1 as int));
                    assert(0 <= model_cs[0].1 < self@.len());
                }
                let c0: usize = cs[0].1;
                proof {
                    assert(self@[c0 as int] == self.nodes@[c0 as int]@);
                    assert(node_wf(self@, c0 as int));
                    assert(visits_bounded(self@, SIM_LIMIT as int));
                    assert(self@[c0 as int].visit_count <= SIM_LIMIT);
                }
                let mut best_score: u64 = score_of(key, parent_visits, &self.nodes[c0]);
                let mut best_k: usize = 0;
                proof {
                    assert(scores[0] == key_score(*key, self@[idx as int].visit_count, self@[model_cs[0].1]));
                    assert(best_score == scores[0]);
                    assert(scores.take(1) =~= seq![scores[0]]);
                    assert(first_argmax(scores.take(1)) == 0);
                }
                let mut k: usize = 1;
                while k < n
                    invariant
                        tree_wf(self@),
                        visits_bounded(self@, SIM_LIMIT as int),
                        idx < self@.len(),
                        match *key {
                            ChildKey::Ucb(ucb) => ucb.wf(),
                            ChildKey::VisitCount => true,
                        },
                        parent_visits == self@[idx as int].visit_count,
                        self@[idx as int].children == Some(model_cs),
                        cs@.map_values(|c: (u64, usize)| (c.0, c.1 as int)) == model_cs,
                        n == cs@.len(),
                        scores == child_scores(*key, self@, idx as int),
                        1 <= k <= n,
                        best_k < k,
                        best_k == first_argmax(scores.take(k as int)),
                        best_score == scores[best_k as int],
                    decreases n - k,
                {
                    proof {
                        assert(node_wf(self@, idx as int));
                        assert(model_cs[k as int] == (cs@[k as int].0, cs@[k as int].1 as int));
                        assert(0 <= model_cs[k as int].1 < self@.len());
                    }
                    let ck: usize = cs[k].1;
                    proof {
                        assert(self@[ck as int] == self.nodes@[ck as int]@);
                        assert(node_wf(self@, ck as int));
                        assert(self@[ck as int].visit_count <= SIM_LIMIT);
                    }
                    let s = score_of(key, parent_visits, &self.nodes[ck]);
                    proof {
                        assert(self.nodes@[ck as int]@ == self@[ck as int]);
                        assert(s == scores[k as int]);
                        let pre = scores.take(k as int + 1);
                        assert(pre.drop_last() =~= scores.take(k as int));
                        assert(pre.last() == scores[k as int]);
                        lemma_first_argmax(scores.take(k as int));
                    }
                    if s > best_score {
                        best_k = k;
                        best_score = s;
                    }
                    k = k + 1;
                }
                proof {
                    assert(scores.take(n as int) =~= scores);
                    lemma_first_argmax(scores);
                }
                Ok((cs[best_k].0, cs[best_k].1))
            },
        }
    }
}

impl Tree {
    /// Perturbs each root child's prior towards one exploration-noise draw:
    /// `P'(a) = (1 - eps) * P(a) + eps * d(a)` with `eps` the exploration
    /// fraction. Applied exactly once per move decision, right after root
    /// expansion while every stored prior is still a whole multiple of
    /// `VSCALE`; the draw `d` is handed in by the caller and must itself be
    /// a distribution over the root's children. Because the blend is a
    /// convex combination of two distributions, the perturbed priors again
    /// sum to exactly `PSCALE` — nothing needs renormalizing.
    pub fn add_exploration_noise(&mut self, params: &NoiseParameters, noise: &Vec<u64>)
        requires
            tree_wf(old(self)@),
            old(self)@[0].children is Some,
            params.wf(),
            noise@.len() == old(self)@[0].children.unwrap().len(),
            forall|k: int| 0 <= k < noise@.len() ==> #[trigger] noise@[k] <= VSCALE,
            sum_int(noise@.map_values(|d: u64| d as int)) == VSCALE,
            forall|k: int|
                0 <= k < noise@.len() ==> #[trigger] old(self)@[old(self)@[0].children.unwrap()[k].1].prior_probability
                    % (VSCALE as int) == 0,
            sum_int(root_child_priors(old(self)@)) == PSCALE,
        ensures
            final(self)@.len() == old(self)@.len(),
            forall|k: int|
                0 <= k < noise@.len() ==> #[trigger] final(self)@[old(self)@[0].children.unwrap()[k].1] == with_prior(
                    old(self)@[old(self)@[0].children.unwrap()[k].1],
                    noised_prior(
                        old(self)@,
                        params.exploration_fraction as int,
                        noise@.map_values(|d: u64| d as int),
                        k,
                    ),
                ),
            forall|j: int|
                0 <= j < old(self)@.len() && !is_child_index(
                    old(self)@[0].children.unwrap(),
                    j,
                ) ==> final(self)@[j] == old(self)@[j],
            sum_int(root_child_priors(final(self)@)) == PSCALE,
            tree_wf(final(self)@),
    {
        let ghost orig = self@;
        let ghost cs = orig[0].children.unwrap();
        let ghost dseq = noise@.map_values(|d: u64| d as int);
        let eps: u64 = params.exploration_fraction;
        proof {
            assert(self@[0] == self.nodes@[0]@);
            assert(node_wf(orig, 0));
        }
        let n: usize = match &self.nodes[0].children {
            Some(list) => list.len(),
            None => 0,
        };
        let mut k: usize = 0;
        while k < n
            invariant
                self@.len() == orig.len(),
                orig[0].children == Some(cs),
                n == cs.len(),
                n == noise@.len(),
                dseq == noise@.map_values(|d: u64| d as int),
                eps == params.exploration_fraction <= VSCALE,
                tree_wf(orig),
                node_wf(orig, 0),
                forall|m: int|
                    0 <= m < n ==> #[trigger] orig[cs[m].1].prior_probability % (
                    VSCALE as int) == 0,
                forall|m: int| 0 <= m < n ==> #[trigger] noise@[m] <= VSCALE,
                0 <= k <= n,
                forall|m: int|
                    0 <= m < k ==> #[trigger] self@[cs[m].1] == with_prior(
                        orig[cs[m].1],
                        noised_prior(orig, eps as int, dseq, m),
                    ),
                forall|j: int|
                    0 <= j < orig.len() && !is_child_index_upto(cs, j, k as int)
                        ==> self@[j] == orig[j],
            decreases n - k,
        {
            proof {
                assert(!is_child_index_upto(cs, 0, k as int)) by {
                    assert forall|m: int| !(0 <= m < k && #[trigger] cs[m].1 == 0) by {
                        if 0 <= m < k {
                            assert(node_wf(orig, 0));
                            assert(cs[m].1 > 0);
                        }
                    }
                }
                assert(self@[0] == orig[0]);
                assert(self@[0] == self.nodes@[0]@);
            }
            let (jk, dk): (usize, u64) = match &self.nodes[0].children {
                Some(list) => (list[k].1, noise[k]),
                None => (0, 0),
            };
            proof {
                assert(cs[k as int].1 == jk as int);
                assert(0 < jk < orig.len());
                assert(!is_child_index_upto(cs, jk as int, k as int)) by {
                    assert forall|m: int| !(0 <= m < k && #[trigger] cs[m].1 == jk as int) by {
                        if 0 <= m < k {
                            lemma_child_indices_increase(cs, m, k as int);
                        }
                    }
                }
                assert(self@[jk as int] == orig[jk as int]);
                assert(self@[jk as int] == self.nodes@[jk as int]@);
                assert(node_wf(orig, jk as int));
            }
            let p: u64 = self.nodes[jk].statistics.prior_probability;
            let q: u64 = p / VSCALE;
            proof {
                assert(q <= VSCALE) by (nonlinear_arith)
                    requires q == p as int / (VSCALE as int), 0 <= p <= PSCALE == VSCALE * VSCALE;
                assert((VSCALE - eps) * q + eps * dk <= VSCALE * VSCALE) by (nonlinear_arith)
                    requires 0 <= eps <= VSCALE, 0 <= q <= VSCALE, 0 <= dk <= VSCALE;
            }
            let newp: u64 = (VSCALE - eps) * q + eps * dk;
            let ghost before = self@;
            self.nodes[jk].statistics.prior_probability = newp;
            proof {
                assert forall|j: int| 0 <= j < orig.len() && j != jk as int implies self@[j]
                    == before[j] by {
                    assert(self@[j] == self.nodes@[j]@);
                }
                assert(self@[jk as int] == self.nodes@[jk as int]@);
                assert(self@[jk as int].children == orig[jk as int].children);
                assert(dk == dseq[k as int]);
                assert(self@[jk as int] == with_prior(
                    orig[jk as int],
                    noised_prior(orig, eps as int, dseq, k as int),
                ));
                assert forall|j: int|
                    0 <= j < orig.len() && !is_child_index_upto(cs, j, k as int + 1) implies self@[j]
                    == orig[j] by {
                    assert(!is_child_index_upto(cs, j, k as int));
                    assert(j != jk as int);
                }
                assert forall|m: int|
                    0 <= m < k + 1 implies #[trigger] self@[cs[m].1] == with_prior(
                        orig[cs[m].1],
                        noised_prior(orig, eps as int, dseq, m),
                    ) by {
                    assert(node_wf(orig, 0));
                    assert(0 <= cs[m].1 < orig.len());
                    if m < k {
                        lemma_child_indices_increase(cs, m, k as int);
                        assert(cs[m].1 != jk as int);
                        assert(self@[cs[m].1] == before[cs[m].1]);
                    }
                }
            }
            k = k + 1;
        }
        proof {
            assert(!is_child_index(cs, 0)) by {
                assert forall|m: int| !(0 <= m < cs.len() && #[trigger] cs[m].1 == 0) by {
                    if 0 <= m < cs.len() {
                        assert(node_wf(orig, 0));
                        assert(cs[m].1 > 0);
                    }
                }
            }
            assert(self@[0] == orig[0]);
            lemma_noise_sum(orig, self@, cs, params.exploration_fraction as int, dseq);
            assert forall|i: int| 0 <= i < self@.len() implies node_wf(self@, i) by {
                lemma_noise_node_wf(orig, self@, cs, params.exploration_fraction as int, dseq, i);
            }
        }
    }
}

/// In a strictly ascending index sequence, an earlier entry is smaller.
pub proof fn lemma_path_increases(s: Seq<int>, m: int, k: int)
    requires
        forall|t: int| 0 < t < s.len() ==> #[trigger] s[t - 1] < s[t],
        0 <= m < k < s.len(),
    ensures
        s[m] < s[k],
    decreases k - m,
{
    assert(s[k - 1] < s[k]);
    if m + 1 < k {
        lemma_path_increases(s, m + 1, k);
        assert(s[(m + 1) - 1] < s[m + 1]);
    }
}

/// Child indices ascend strictly, so an earlier entry's index is smaller.
pub proof fn lemma_child_indices_increase(cs: Seq<(u64, int)>, m: int, k: int)
    requires
        forall|t: int| 0 < t < cs.len() ==> #[trigger] cs[t - 1].1 < cs[t].1,
        0 <= m < k < cs.len(),
    ensures
        cs[m].1 < cs[k].1,
    decreases k - m,
{
    assert(cs[k - 1].1 < cs[k].1);
    if m + 1 < k {
        lemma_child_indices_increase(cs, m + 1, k);
        assert(cs[(m + 1) - 1].1 < cs[m + 1].1);
    }
}

/// After the noise perturbation the root children's priors still sum to
/// `PSCALE`: the blend is a convex combination of two exact distributions.
proof fn lemma_noise_sum(
    orig: Seq<NodeModel>,
    cur: Seq<NodeModel>,
    cs: Seq<(u64, int)>,
    eps: int,
    dseq: Seq<int>,
)
    requires
        tree_wf(orig),
        orig[0].children == Some(cs),
        cur.len() == orig.len(),
        cur[0] == orig[0],
        dseq.len() == cs.len(),
        0 <= eps <= VSCALE,
        forall|m: int| 0 <= m < dseq.len() ==> 0 <= #[trigger] dseq[m] <= VSCALE,
        sum_int(dseq) == VSCALE,
        forall|m: int|
            0 <= m < cs.len() ==> #[trigger] orig[cs[m].1].prior_probability % (VSCALE as int)
                == 0,
        sum_int(root_child_priors(orig)) == PSCALE,
        forall|m: int|
            0 <= m < cs.len() ==> #[trigger] cur[cs[m].1] == with_prior(
                orig[cs[m].1],
                noised_prior(orig, eps, dseq, m),
            ),
    ensures
        sum_int(root_child_priors(cur)) == PSCALE,
{
    let n = cs.len() as int;
    let oldp = root_child_priors(orig);
    let q = Seq::new(n as nat, |m: int| orig[cs[m].1].prior_probability / (VSCALE as int));
    let scaled = Seq::new(n as nat, |m: int| (VSCALE as int) * q[m]);
    assert forall|m: int| 0 <= m < n implies #[trigger] oldp[m] == scaled[m] by {
        let p = orig[cs[m].1].prior_probability;
        vstd::arithmetic::div_mod::lemma_fundamental_div_mod(p, VSCALE as int);
    }
    assert(oldp =~= scaled);
    lemma_sum_scale(q, scaled, VSCALE as int);
    assert((VSCALE as int) * sum_int(q) == PSCALE);
    assert(sum_int(q) == VSCALE);
    let newp = root_child_priors(cur);
    let comb = Seq::new(n as nat, |m: int| (VSCALE - eps) * q[m] + eps * dseq[m]);
    assert forall|m: int| 0 <= m < n implies #[trigger] newp[m] == comb[m] by {
        assert(cur[cs[m].1] == with_prior(orig[cs[m].1], noised_prior(orig, eps, dseq, m)));
    }
    assert(newp =~= comb);
    lemma_sum_linear_comb(q, dseq, comb, VSCALE - eps, eps);
}

/// The noise perturbation preserves node well-formedness everywhere.
proof fn lemma_noise_node_wf(
    orig: Seq<NodeModel>,
    cur: Seq<NodeModel>,
    cs: Seq<(u64, int)>,
    eps: int,
    dseq: Seq<int>,
    i: int,
)
    requires
        tree_wf(orig),
        orig[0].children == Some(cs),
        cur.len() == orig.len(),
        dseq.len() == cs.len(),
        0 <= eps <= VSCALE,
        forall|m: int| 0 <= m < dseq.len() ==> 0 <= #[trigger] dseq[m] <= VSCALE,
        forall|m: int|
            0 <= m < cs.len() ==> #[trigger] cur[cs[m].1] == with_prior(
                orig[cs[m].1],
                noised_prior(orig, eps, dseq, m),
            ),
        forall|j: int|
            0 <= j < orig.len() && !is_child_index(cs, j) ==> #[trigger] cur[j] == orig[j],
        0 <= i < cur.len(),
    ensures
        node_wf(cur, i),
{
    assert(node_wf(orig, i));
    if is_child_index(cs, i) {
        let m = choose|m: int| 0 <= m < cs.len() && #[trigger] cs[m].1 == i;
        assert(cur[i] == with_prior(orig[i], noised_prior(orig, eps, dseq, m)));
        let p = orig[i].prior_probability;
        let qq = p / (VSCALE as int);
        assert(0 <= qq <= VSCALE) by (nonlinear_arith)
            requires qq == p / (VSCALE as int), 0 <= p <= PSCALE == VSCALE * VSCALE;
        assert(0 <= (VSCALE - eps) * qq + eps * dseq[m] <= VSCALE * VSCALE) by (nonlinear_arith)
            requires 0 <= eps <= VSCALE, 0 <= qq <= VSCALE, 0 <= dseq[m] <= VSCALE;
    } else {
        assert(cur[i] == orig[i]);
    }
}

} // verus!
