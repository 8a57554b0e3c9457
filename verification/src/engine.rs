//! The simulation engine: root-to-leaf descent under the PUCT rule,
//! expansion of leaves from evaluator output, perspective-correct
//! backpropagation, and the fixed-budget simulation loop.
//!
//! Every executable step is proved equal to a spec-level function of the
//! engine's inputs, so a whole search is one mathematical function of the
//! configuration, the start state, the evaluator and the noise draw: searches
//! are reproducible by contract.

use vstd::prelude::*;

use crate::alpha_config::{AlphaZeroConfig, UCBParameters};
use crate::fixed::{sum_int, PSCALE, SIM_LIMIT, VSCALE};
use crate::game::{actions_canonical, eval_wf, EvalModel, Evaluation, Evaluator, EvaluatorFailure, GameState, Player};
use crate::tree::{
    child_priors, child_scores, is_child_index, lemma_child_indices_increase, lemma_first_argmax,
    node_wf, noised_prior, spec_best_child, tree_wf, visits_bounded, with_prior, ChildKey,
    NodeModel, SearchNode, Stats, Tree,
};

verus! {

/// What one root-to-leaf walk produces: the node indices visited, in order,
/// and the game state reached at the leaf.
pub ghost struct DescentModel<S> {
    pub path: Seq<int>,
    pub leaf_state: S,
}

/// The selection walk as a function of the tree: starting at node `i`, keep
/// taking the PUCT-maximizing child until an unexpanded node is reached,
/// applying each edge action to the walked state. Well-formedness makes
/// every child index larger than its parent, so the walk terminates.
pub open spec fn spec_descend<S: GameState>(
    ucb: UCBParameters,
    nodes: Seq<NodeModel>,
    i: int,
    s: S,
) -> DescentModel<S>
    decreases nodes.len() - i,
        when tree_wf(nodes) && 0 <= i < nodes.len()
        via spec_descend_decreases::<S>
{
    match nodes[i].children {
        None => DescentModel { path: seq![i], leaf_state: s },
        Some(cs) => {
            let k = spec_best_child(ChildKey::Ucb(ucb), nodes, i);
            if 0 <= k < cs.len() {
                let rest = spec_descend(ucb, nodes, cs[k].1, s.spec_apply(cs[k].0));
                DescentModel { path: seq![i] + rest.path, leaf_state: rest.leaf_state }
            } else {
                DescentModel { path: seq![i], leaf_state: s }
            }
        },
    }
}

#[via_fn]
proof fn spec_descend_decreases<S: GameState>(
    ucb: UCBParameters,
    nodes: Seq<NodeModel>,
    i: int,
    s: S,
) {
    assert(node_wf(nodes, i));
}

/// One node after a backpropagation step: one more visit, and the leaf's
/// value folded in from this node's own perspective — the value itself when
/// the node is to play at the leaf's perspective, the zero-sum complement
/// `VSCALE - value` otherwise.
pub open spec fn backprop_node(node: NodeModel, value: int, persp: Player) -> NodeModel {
    NodeModel {
        visit_count: node.visit_count + 1,
        total_action_value: node.total_action_value + (if node.to_play == persp {
            value
        } else {
            (VSCALE as int) - value
        }),
        prior_probability: node.prior_probability,
        to_play: node.to_play,
        children: node.children,
    }
}

/// Backpropagation over a visited path, front to back: every node on the
/// path is updated exactly once.
pub open spec fn spec_backprop(
    nodes: Seq<NodeModel>,
    path: Seq<int>,
    value: int,
    persp: Player,
) -> Seq<NodeModel>
    decreases path.len(),
{
    if path.len() == 0 {
        nodes
    } else {
        let stepped = if 0 <= path[0] < nodes.len() {
            nodes.update(path[0], backprop_node(nodes[path[0]], value, persp))
        } else {
            nodes
        };
        spec_backprop(stepped, path.skip(1), value, persp)
    }
}

/// A path of strictly ascending node indices, all inside the arena: what
/// every selection walk produces, and what makes each node on it distinct.
pub open spec fn path_wf(path: Seq<int>, len: int) -> bool {
    &&& forall|t: int| 0 <= t < path.len() ==> 0 <= #[trigger] path[t] < len
    &&& forall|t: int| 0 < t < path.len() ==> #[trigger] path[t - 1] < path[t]
}

/// Visit accounting: backpropagation adds exactly one visit to every node on
/// the path and leaves every node off the path untouched; the value sum
/// grows by the perspective-corrected value on the path and by nothing off
/// it; priors, perspectives and tree shape never change.
pub proof fn lemma_backprop_effect(nodes: Seq<NodeModel>, path: Seq<int>, value: int, persp: Player)
    requires
        path_wf(path, nodes.len() as int),
    ensures
        spec_backprop(nodes, path, value, persp).len() == nodes.len(),
        forall|i: int|
            0 <= i < nodes.len() ==> #[trigger] spec_backprop(nodes, path, value, persp)[i]
                == if path.contains(i) {
                backprop_node(nodes[i], value, persp)
            } else {
                nodes[i]
            },
    decreases path.len(),
{
    let out = spec_backprop(nodes, path, value, persp);
    if path.len() == 0 {
        assert forall|i: int| !path.contains(i) by {
            assert(forall|t: int| !(0 <= t < path.len() && #[trigger] path[t] == i));
        }
    } else {
        let j = path[0];
        let stepped = nodes.update(j, backprop_node(nodes[j], value, persp));
        let rest = path.skip(1);
        assert(path_wf(rest, nodes.len() as int)) by {
            assert forall|t: int| 0 <= t < rest.len() implies 0 <= #[trigger] rest[t]
                < nodes.len() by {
                assert(rest[t] == path[t + 1]);
            }
            assert forall|t: int| 0 < t < rest.len() implies #[trigger] rest[t - 1] < rest[t] by {
                assert(rest[t - 1] == path[t]);
                assert(rest[t] == path[t + 1]);
                assert(path[(t + 1) - 1] < path[t + 1]);
            }
        }
        lemma_backprop_effect(stepped, rest, value, persp);
        assert forall|i: int| 0 <= i < nodes.len() implies #[trigger] out[i] == (if path.contains(
            i,
        ) {
            backprop_node(nodes[i], value, persp)
        } else {
            nodes[i]
        }) by {
            if i == j {
                assert(path.contains(i)) by {
                    assert(path[0] == i);
                }
                assert(!rest.contains(i)) by {
                    assert forall|t: int| !(0 <= t < rest.len() && #[trigger] rest[t] == i) by {
                        if 0 <= t < rest.len() {
                            assert(rest[t] == path[t + 1]);
                            crate::tree::lemma_path_increases(path, 0, t + 1);
                        }
                    }
                }
                assert(out[i] == stepped[i]);
            } else {
                assert(stepped[i] == nodes[i]);
                if path.contains(i) {
                    let t = choose|t: int| 0 <= t < path.len() && #[trigger] path[t] == i;
                    assert(t != 0);
                    assert(rest[t - 1] == path[t]);
                    assert(rest.contains(i));
                } else {
                    assert(!rest.contains(i)) by {
                        assert forall|t: int| !(0 <= t < rest.len() && #[trigger] rest[t] == i)
                            by {
                            if 0 <= t < rest.len() {
                                assert(rest[t] == path[t + 1]);
                            }
                        }
                    }
                }
            }
        }
    }
}

/// A fresh child produced at expansion: zero statistics, the evaluator's
/// prior lifted to the `PSCALE` scale, and the perspective of the state the
/// edge action leads to.
pub open spec fn expanded_child<S: GameState>(s: S, action: u64, prior: int) -> NodeModel {
    NodeModel {
        visit_count: 0,
        total_action_value: 0,
        prior_probability: (VSCALE as int) * prior,
        to_play: s.spec_apply(action).spec_perspective(),
        children: None,
    }
}

/// Expansion of the leaf at index `leaf` with state `s`: one child per legal
/// action of `s`, appended to the arena in canonical action order, and the
/// full child list installed on the leaf in a single step — a node is
/// expanded at most once and its shape never changes afterwards.
pub open spec fn spec_expand<S: GameState>(
    nodes: Seq<NodeModel>,
    leaf: int,
    s: S,
    ev: EvalModel,
) -> Seq<NodeModel> {
    let acts = s.spec_legal_actions();
    let base = nodes.len() as int;
    let entries = Seq::new(acts.len(), |k: int| (acts[k], base + k));
    let relinked = if 0 <= leaf < nodes.len() {
        nodes.update(
            leaf,
            NodeModel {
                visit_count: nodes[leaf].visit_count,
                total_action_value: nodes[leaf].total_action_value,
                prior_probability: nodes[leaf].prior_probability,
                to_play: nodes[leaf].to_play,
                children: Some(entries),
            },
        )
    } else {
        nodes
    };
    relinked + Seq::new(acts.len(), |k: int| expanded_child(s, acts[k], ev.priors[k]))
}

/// The expanded arena is well-formed, and expansion adds no visit anywhere.
proof fn lemma_expand_wf<S: GameState>(
    orig: Seq<NodeModel>,
    cur: Seq<NodeModel>,
    leaf: int,
    s: S,
    ev: EvalModel,
    sacts: Seq<u64>,
    entries_spec: Seq<(u64, int)>,
    base: int,
)
    requires
        tree_wf(orig),
        0 <= leaf < orig.len(),
        orig[leaf].children is None,
        sacts == s.spec_legal_actions(),
        actions_canonical(sacts),
        sacts.len() > 0,
        eval_wf(ev, sacts),
        base == orig.len(),
        entries_spec == Seq::new(sacts.len(), |m: int| (sacts[m], base + m)),
        cur.len() == base + sacts.len(),
        forall|i: int| 0 <= i < base && i != leaf ==> #[trigger] cur[i] == orig[i],
        cur[leaf].children == Some(entries_spec),
        cur[leaf].visit_count == orig[leaf].visit_count,
        cur[leaf].total_action_value == orig[leaf].total_action_value,
        cur[leaf].prior_probability == orig[leaf].prior_probability,
        forall|m: int|
            0 <= m < sacts.len() ==> #[trigger] cur[base + m] == expanded_child(
                s,
                sacts[m],
                ev.priors[m],
            ),
    ensures
        tree_wf(cur),
        forall|b: int| visits_bounded(orig, b) && b >= 0 ==> visits_bounded(cur, b),
{
    assert forall|i: int| 0 <= i < cur.len() implies node_wf(cur, i) by {
        if i < base && i != leaf {
            assert(node_wf(orig, i));
        } else if i == leaf {
            assert(node_wf(orig, leaf));
            assert forall|k: int| 0 < k < entries_spec.len() implies #[trigger] entries_spec[k
                - 1].0 < entries_spec[k].0 by {
                assert(sacts[k - 1] < sacts[k]);
            }
        } else {
            let m = i - base;
            assert(cur[base + m] == expanded_child(s, sacts[m], ev.priors[m]));
            assert(base + m == i);
            assert(0 <= ev.priors[m] <= VSCALE);
        }
    }
    assert forall|b: int| visits_bounded(orig, b) && b >= 0 implies visits_bounded(cur, b) by {
        assert forall|i: int| 0 <= i < cur.len() implies #[trigger] cur[i].visit_count <= b by {
            if i < base && i != leaf {
                assert(cur[i] == orig[i]);
                assert(orig[i].visit_count <= b);
            } else if i == leaf {
                assert(orig[leaf].visit_count <= b);
            } else {
                let m = i - base;
                assert(cur[base + m] == expanded_child(s, sacts[m], ev.priors[m]));
                assert(base + m == i);
            }
        }
    }
}

impl Tree {
    /// Materializes the children of an unexpanded, non-terminal leaf from
    /// the evaluator's policy output: for every legal action, a new node
    /// with `Stats::init(prior)` and the successor state's perspective. The
    /// children's stored priors are whole multiples of `VSCALE` that sum to
    /// exactly `PSCALE`, because the evaluator's priors sum to `VSCALE`.
    pub fn expand<S: GameState>(&mut self, leaf: usize, s: &S, ev: &Evaluation)
        requires
            tree_wf(old(self)@),
            leaf < old(self)@.len(),
            old(self)@[leaf as int].children is None,
            !s.spec_is_terminal(),
            eval_wf(ev@, s.spec_legal_actions()),
        ensures
            final(self)@ == spec_expand(old(self)@, leaf as int, *s, ev@),
            final(self)@.len() == old(self)@.len() + s.spec_legal_actions().len(),
            tree_wf(final(self)@),
            forall|b: int|
                visits_bounded(old(self)@, b) && b >= 0 ==> visits_bounded(final(self)@, b),
            final(self)@[leaf as int].children is Some,
            final(self)@[leaf as int].visit_count == old(self)@[leaf as int].visit_count,
            forall|i: int|
                0 <= i < old(self)@.len() && i != leaf as int ==> #[trigger] final(self)@[i]
                    == old(self)@[i],
            forall|k: int|
                0 <= k < s.spec_legal_actions().len() ==> #[trigger] child_priors(
                    final(self)@,
                    leaf as int,
                )[k] % (VSCALE as int) == 0,
            sum_int(child_priors(final(self)@, leaf as int)) == PSCALE,
    {
        let ghost orig = self@;
        let ghost base = self@.len() as int;
        let ghost sacts = s.spec_legal_actions();
        let acts = s.legal_actions();
        let n: usize = acts.len();
        let mut entries: Vec<(u64, usize)> = Vec::new();
        let mut k: usize = 0;
        while k < n
            invariant
                0 <= k <= n,
                n == acts@.len(),
                acts@ == sacts,
                sacts == s.spec_legal_actions(),
                eval_wf(ev@, sacts),
                self@.len() == base + k,
                base == orig.len(),
                forall|i: int| 0 <= i < base ==> #[trigger] self@[i] == orig[i],
                forall|m: int|
                    0 <= m < k ==> #[trigger] self@[base + m] == expanded_child(
                        *s,
                        sacts[m],
                        ev@.priors[m],
                    ),
                entries@.len() == k,
                forall|m: int|
                    0 <= m < k ==> #[trigger] entries@[m].0 == sacts[m] && entries@[m].1 as int
                        == base + m,
            decreases n - k,
        {
            let idx: usize = self.nodes.len();
            let a: u64 = acts[k];
            let mut succ = s.duplicate();
            succ.apply(a);
            let tp = succ.perspective();
            let pk: u64 = ev.priors[k];
            proof {
                assert(ev@.priors[k as int] == pk as int);
                assert(pk <= VSCALE);
            }
            let node = SearchNode {
                statistics: Stats::init(VSCALE * pk),
                to_play: tp,
                children: None,
            };
            let ghost before = self@;
            self.nodes.push(node);
            proof {
                assert forall|i: int| 0 <= i < base + k implies #[trigger] self@[i]
                    == before[i] by {
                    assert(self@[i] == self.nodes@[i]@);
                }
                assert(self@[base + k] == self.nodes@[base + k]@);
                assert(self@[base + k] == expanded_child(*s, sacts[k as int], ev@.priors[k as int]));
            }
            entries.push((a, idx));
            k = k + 1;
        }
        let ghost mid = self@;
        let ghost eseq = entries@;
        let ghost entries_spec = Seq::new(sacts.len(), |m: int| (sacts[m], base + m));
        let ghost leaf_node = NodeModel {
            visit_count: orig[leaf as int].visit_count,
            total_action_value: orig[leaf as int].total_action_value,
            prior_probability: orig[leaf as int].prior_probability,
            to_play: orig[leaf as int].to_play,
            children: Some(entries_spec),
        };
        self.nodes[leaf].children = Some(entries);
        proof {
            assert(eseq.map_values(|c: (u64, usize)| (c.0, c.1 as int)) =~= entries_spec);
            assert forall|i: int| 0 <= i < mid.len() && i != leaf as int implies #[trigger] self@[i]
                == mid[i] by {
                assert(self@[i] == self.nodes@[i]@);
            }
            assert(self@[leaf as int] == self.nodes@[leaf as int]@);
            assert(mid[leaf as int] == orig[leaf as int]);
            assert(self@[leaf as int].visit_count == leaf_node.visit_count);
            assert(self@[leaf as int].total_action_value == leaf_node.total_action_value);
            assert(self@[leaf as int].prior_probability == leaf_node.prior_probability);
            assert(self@[leaf as int].to_play == leaf_node.to_play);
            assert(self@[leaf as int].children == Some(
                eseq.map_values(|c: (u64, usize)| (c.0, c.1 as int)),
            ));
            assert(self@[leaf as int] == leaf_node);
            assert forall|m: int| 0 <= m < sacts.len() implies #[trigger] self@[base + m]
                == expanded_child(*s, sacts[m], ev@.priors[m]) by {
                assert(mid[base + m] == expanded_child(*s, sacts[m], ev@.priors[m]));
            }
            let target = spec_expand(orig, leaf as int, *s, ev@);
            let spec_entries = Seq::new(sacts.len(), |m: int| (sacts[m], base + m));
            assert(entries_spec =~= spec_entries);
            assert(target.len() == base + sacts.len());
            assert forall|i: int| 0 <= i < self@.len() implies self@[i] == target[i] by {
                if i < base {
                    if i == leaf as int {
                        assert(target[i] == leaf_node);
                        assert(self@[i] == leaf_node);
                    } else {
                        assert(target[i] == orig[i]);
                        assert(self@[i] == mid[i]);
                    }
                } else {
                    let m = i - base;
                    assert(target[i] == expanded_child(*s, sacts[m], ev@.priors[m]));
                    assert(self@[base + m] == expanded_child(*s, sacts[m], ev@.priors[m]));
                }
            }
            assert(self@ =~= target);
            lemma_expand_wf(orig, self@, leaf as int, *s, ev@, sacts, entries_spec, base);
            let priors = child_priors(self@, leaf as int);
            assert forall|m: int| 0 <= m < sacts.len() implies #[trigger] priors[m] == (
            VSCALE as int) * ev@.priors[m] by {
                assert(self@[entries_spec[m].1] == expanded_child(*s, sacts[m], ev@.priors[m]));
            }
            crate::fixed::lemma_sum_scale(ev@.priors, priors, VSCALE as int);
            assert forall|m: int| 0 <= m < sacts.len() implies #[trigger] priors[m] % (
            VSCALE as int) == 0 by {
                vstd::arithmetic::div_mod::lemma_mod_multiples_basic(
                    ev@.priors[m],
                    VSCALE as int,
                );
                assert(ev@.priors[m] * (VSCALE as int) == (VSCALE as int) * ev@.priors[m])
                    by (nonlinear_arith);
            }
        }
    }

    /// Walks the visited path, in order, adding one visit to every node on
    /// it and folding the leaf's value into each node's value sum from that
    /// node's own perspective. This is the only place visit counts change,
    /// and it changes each exactly once per simulation.
    pub fn backpropagate(&mut self, path: &Vec<usize>, value: u64, persp: Player)
        requires
            tree_wf(old(self)@),
            visits_bounded(old(self)@, SIM_LIMIT as int),
            path_wf(path@.map_values(|u: usize| u as int), old(self)@.len() as int),
            value <= VSCALE,
        ensures
            final(self)@ == spec_backprop(
                old(self)@,
                path@.map_values(|u: usize| u as int),
                value as int,
                persp,
            ),
            final(self)@.len() == old(self)@.len(),
            forall|i: int|
                0 <= i < old(self)@.len() ==> #[trigger] final(self)@[i] == if path@.map_values(
                    |u: usize| u as int,
                ).contains(i) {
                    backprop_node(old(self)@[i], value as int, persp)
                } else {
                    old(self)@[i]
                },
            tree_wf(final(self)@),
            forall|b: int|
                visits_bounded(old(self)@, b) ==> visits_bounded(final(self)@, b + 1),
    {
        let ghost orig = self@;
        let ghost pathints = path@.map_values(|u: usize| u as int);
        let n: usize = path.len();
        proof {
            assert(pathints.skip(0) =~= pathints);
        }
        let mut t: usize = 0;
        while t < n
            invariant
                0 <= t <= n,
                n == pathints.len(),
                pathints == path@.map_values(|u: usize| u as int),
                path_wf(pathints, orig.len() as int),
                value <= VSCALE,
                self@.len() == orig.len(),
                tree_wf(orig),
                visits_bounded(orig, SIM_LIMIT as int),
                spec_backprop(orig, pathints, value as int, persp) == spec_backprop(
                    self@,
                    pathints.skip(t as int),
                    value as int,
                    persp,
                ),
                forall|i: int|
                    0 <= i < orig.len() ==> #[trigger] self@[i] == if pathints.take(
                        t as int,
                    ).contains(i) {
                        backprop_node(orig[i], value as int, persp)
                    } else {
                        orig[i]
                    },
            decreases n - t,
        {
            let j: usize = path[t];
            proof {
                assert(pathints[t as int] == j as int);
                assert(!pathints.take(t as int).contains(j as int)) by {
                    assert forall|m: int|
                        !(0 <= m < t && #[trigger] pathints.take(t as int)[m] == j as int) by {
                        if 0 <= m < t {
                            assert(pathints.take(t as int)[m] == pathints[m]);
                            crate::tree::lemma_path_increases(pathints, m, t as int);
                        }
                    }
                }
                assert(self@[j as int] == orig[j as int]);
                assert(self@[j as int] == self.nodes@[j as int]@);
                assert(node_wf(orig, j as int));
                assert(orig[j as int].visit_count <= SIM_LIMIT);
                assert(orig[j as int].total_action_value <= SIM_LIMIT * VSCALE) by (nonlinear_arith)
                    requires
                        orig[j as int].total_action_value <= orig[j as int].visit_count * VSCALE,
                        orig[j as int].visit_count <= SIM_LIMIT,
                ;
            }
            let ghost before = self@;
            let add: u64 = if self.nodes[j].to_play == persp {
                value
            } else {
                VSCALE - value
            };
            self.nodes[j].statistics.visit_count = self.nodes[j].statistics.visit_count + 1;
            self.nodes[j].statistics.total_action_value =
                self.nodes[j].statistics.total_action_value + add;
            proof {
                assert forall|i: int| 0 <= i < orig.len() && i != j as int implies self@[i]
                    == before[i] by {
                    assert(self@[i] == self.nodes@[i]@);
                }
                assert(self@[j as int] == self.nodes@[j as int]@);
                assert(self@[j as int] == backprop_node(orig[j as int], value as int, persp));
                assert(before[j as int] == orig[j as int]);
                assert(self@ =~= before.update(
                    j as int,
                    backprop_node(before[j as int], value as int, persp),
                ));
                assert(pathints.skip(t as int)[0] == pathints[t as int]);
                assert(pathints.skip(t as int).skip(1) =~= pathints.skip(t as int + 1));
                assert(spec_backprop(before, pathints.skip(t as int), value as int, persp)
                    == spec_backprop(self@, pathints.skip(t as int + 1), value as int, persp));
                assert forall|i: int|
                    0 <= i < orig.len() implies #[trigger] self@[i] == (if pathints.take(
                    t as int + 1,
                ).contains(i) {
                    backprop_node(orig[i], value as int, persp)
                } else {
                    orig[i]
                }) by {
                    let pre = pathints.take(t as int + 1);
                    if i == j as int {
                        assert(pre[t as int] == j as int);
                        assert(pre.contains(i));
                    } else {
                        if pre.contains(i) {
                            let m = choose|m: int| 0 <= m < pre.len() && #[trigger] pre[m] == i;
                            assert(pre[m] == pathints[m]);
                            assert(m < t);
                            assert(pathints.take(t as int)[m] == pathints[m]);
                            assert(pathints.take(t as int).contains(i));
                        } else {
                            assert(!pathints.take(t as int).contains(i)) by {
                                if pathints.take(t as int).contains(i) {
                                    let m = choose|m: int|
                                        0 <= m < t && #[trigger] pathints.take(t as int)[m] == i;
                                    assert(pre[m] == pathints[m]);
                                    assert(pre.contains(i));
                                }
                            }
                        }
                    }
                }
            }
            t = t + 1;
        }
        proof {
            assert(pathints.skip(n as int) =~= Seq::<int>::empty());
            assert(pathints.take(n as int) =~= pathints);
            assert forall|i: int| 0 <= i < orig.len() implies node_wf(self@, i) by {
                assert(node_wf(orig, i));
                if pathints.contains(i) {
                    assert(self@[i] == backprop_node(orig[i], value as int, persp));
                    assert(self@[i].total_action_value <= self@[i].visit_count * VSCALE)
                        by (nonlinear_arith)
                        requires
                            self@[i].total_action_value == orig[i].total_action_value + (
                            if orig[i].to_play == persp {
                                value as int
                            } else {
                                (VSCALE as int) - value
                            }),
                            self@[i].visit_count == orig[i].visit_count + 1,
                            orig[i].total_action_value <= orig[i].visit_count * VSCALE,
                            0 <= value <= VSCALE,
                            0 <= orig[i].visit_count,
                    ;
                }
            }
        }
    }
}

/// One whole simulation as a function of the tree: descend from the root to
/// a leaf under the PUCT rule, value the leaf — by the terminal outcome for
/// a finished position (which is never expanded), by one evaluator call
/// (which also expands the leaf) otherwise — then backpropagate along the
/// path. `None` models an evaluator failure: the simulation is abandoned.
pub open spec fn spec_simulate<S: GameState, E: Evaluator<S>>(
    ucb: UCBParameters,
    nodes: Seq<NodeModel>,
    s0: S,
    e: E,
) -> Option<Seq<NodeModel>> {
    let d = spec_descend(ucb, nodes, 0, s0);
    let leaf = d.path.last();
    if d.leaf_state.spec_is_terminal() {
        Some(
            spec_backprop(
                nodes,
                d.path,
                d.leaf_state.spec_terminal_value(),
                d.leaf_state.spec_perspective(),
            ),
        )
    } else {
        match e.spec_evaluate(d.leaf_state) {
            Some(ev) => Some(
                spec_backprop(
                    spec_expand(nodes, leaf, d.leaf_state, ev),
                    d.path,
                    ev.value,
                    d.leaf_state.spec_perspective(),
                ),
            ),
            None => None,
        }
    }
}

impl Tree {
    /// One selection walk: starting at the root, repeatedly pick the
    /// PUCT-maximizing child and apply its edge action to the walked state,
    /// until an unexpanded node is reached. Returns the visited indices in
    /// order (root first) and the leaf's state.
    fn descend<S: GameState>(&self, ucb: &UCBParameters, state: S) -> (r: (Vec<usize>, S))
        requires
            tree_wf(self@),
            visits_bounded(self@, SIM_LIMIT as int),
            ucb.wf(),
        ensures
            r.0@.map_values(|u: usize| u as int) == spec_descend(*ucb, self@, 0, state).path,
            r.1 == spec_descend(*ucb, self@, 0, state).leaf_state,
            path_wf(r.0@.map_values(|u: usize| u as int), self@.len() as int),
            r.0@.len() >= 1,
            r.0@[0] == 0,
            self@[r.0@.last() as int].children is None,
    {
        let ghost full = spec_descend(*ucb, self@, 0, state);
        let mut path: Vec<usize> = Vec::new();
        path.push(0);
        let mut cur: usize = 0;
        let mut s = state;
        let mut done: bool = false;
        proof {
            assert(path@.map_values(|u: usize| u as int) =~= seq![0int]);
            assert(seq![0int].drop_last() =~= Seq::<int>::empty());
            assert(Seq::<int>::empty() + full.path =~= full.path);
        }
        while !done
            invariant
                tree_wf(self@),
                visits_bounded(self@, SIM_LIMIT as int),
                ucb.wf(),
                cur < self@.len(),
                path@.len() >= 1,
                path@[0] == 0,
                path@.last() == cur,
                path_wf(path@.map_values(|u: usize| u as int), self@.len() as int),
                full == spec_descend(*ucb, self@, 0, state),
                full.path == path@.map_values(|u: usize| u as int).drop_last() + spec_descend(
                    *ucb,
                    self@,
                    cur as int,
                    s,
                ).path,
                full.leaf_state == spec_descend(*ucb, self@, cur as int, s).leaf_state,
                done ==> self@[cur as int].children is None,
            decreases self@.len() - cur + (if done { 0int } else { 1int }),
        {
            let is_leaf: bool = match &self.nodes[cur].children {
                None => true,
                Some(_) => false,
            };
            proof {
                assert(self@[cur as int] == self.nodes@[cur as int]@);
            }
            if is_leaf {
                done = true;
            } else {
                let res = self.best_child(cur, &ChildKey::Ucb(*ucb));
                let (action, child): (u64, usize) = match res {
                    Ok(p) => p,
                    Err(_) => {
                        proof {
                            assert(false);
                        }
                        (0, 0)
                    },
                };
                let ghost cs = self@[cur as int].children.unwrap();
                let ghost k = spec_best_child(ChildKey::Ucb(*ucb), self@, cur as int);
                proof {
                    assert(node_wf(self@, cur as int));
                    lemma_first_argmax(child_scores(ChildKey::Ucb(*ucb), self@, cur as int));
                    assert(0 <= k < cs.len());
                    assert(action == cs[k].0 && child as int == cs[k].1);
                    assert(cur < child < self@.len());
                }
                let ghost pre = path@.map_values(|u: usize| u as int);
                let ghost sub = spec_descend(*ucb, self@, cur as int, s);
                let ghost rest = spec_descend(*ucb, self@, child as int, s.spec_apply(action));
                proof {
                    assert(sub.path == seq![cur as int] + rest.path);
                    assert(sub.leaf_state == rest.leaf_state);
                    assert(pre.drop_last() + seq![cur as int] =~= pre);
                    assert(pre.drop_last() + (seq![cur as int] + rest.path) =~= pre + rest.path);
                }
                s.apply(action);
                path.push(child);
                proof {
                    let now = path@.map_values(|u: usize| u as int);
                    assert(now =~= pre + seq![child as int]);
                    assert(now.drop_last() =~= pre);
                    assert(path_wf(now, self@.len() as int)) by {
                        assert forall|t: int| 0 < t < now.len() implies #[trigger] now[t - 1]
                            < now[t] by {
                            if t < now.len() - 1 {
                                assert(now[t - 1] == pre[t - 1] && now[t] == pre[t]);
                                assert(pre[t - 1] < pre[t]);
                            } else {
                                assert(now[t - 1] == pre.last());
                            }
                        }
                    }
                }
                cur = child;
            }
        }
        proof {
            let pathints = path@.map_values(|u: usize| u as int);
            assert(spec_descend(*ucb, self@, cur as int, s).path == seq![cur as int]);
            assert(pathints.drop_last() + seq![cur as int] =~= pathints);
            assert(pathints.last() == cur as int);
        }
        (path, s)
    }

    /// Runs one simulation: select a leaf, value it — terminal positions by
    /// their outcome, others by one evaluator call that also expands the
    /// leaf — and backpropagate the value over the visited path. On an
    /// evaluator failure the tree is left exactly as it was and the failure
    /// is handed up: the engine never retries.
    pub fn simulate<S: GameState, E: Evaluator<S>>(
        &mut self,
        ucb: &UCBParameters,
        state: &S,
        evaluator: &E,
    ) -> (r: Result<(), EvaluatorFailure>)
        requires
            tree_wf(old(self)@),
            visits_bounded(old(self)@, SIM_LIMIT as int - 1),
            ucb.wf(),
        ensures
            match spec_simulate(*ucb, old(self)@, *state, *evaluator) {
                Some(ns) => r is Ok && final(self)@ == ns,
                None => r is Err && final(self)@ == old(self)@,
            },
            r is Ok ==> tree_wf(final(self)@),
            r is Ok ==> forall|b: int|
                visits_bounded(old(self)@, b) && b >= 0 ==> visits_bounded(final(self)@, b + 1),
            r is Ok ==> final(self)@[0].visit_count == old(self)@[0].visit_count + 1,
            r is Ok ==> final(self)@.len() >= old(self)@.len(),
    {
        let ghost orig = self@;
        let dup = state.duplicate();
        let (path, leaf_state) = self.descend(ucb, dup);
        let ghost d = spec_descend(*ucb, orig, 0, *state);
        let ghost pathints = path@.map_values(|u: usize| u as int);
        let leaf: usize = path[path.len() - 1];
        proof {
            assert(pathints.last() == leaf as int);
            assert(pathints[0] == 0int);
            assert(pathints.contains(0int));
            assert(visits_bounded(orig, SIM_LIMIT as int)) by {
                assert forall|i: int| 0 <= i < orig.len() implies #[trigger] orig[i].visit_count
                    <= SIM_LIMIT by {
                    assert(orig[i].visit_count <= SIM_LIMIT - 1);
                }
            }
        }
        if leaf_state.is_terminal() {
            let v: u64 = leaf_state.terminal_value();
            let p: Player = leaf_state.perspective();
            self.backpropagate(&path, v, p);
            proof {
                lemma_backprop_effect(orig, pathints, v as int, p);
            }
            Ok(())
        } else {
            match evaluator.evaluate(&leaf_state) {
                Err(e) => Err(e),
                Ok(ev) => {
                    self.expand(leaf, &leaf_state, &ev);
                    let ghost mid = self@;
                    let v: u64 = ev.value;
                    let p: Player = leaf_state.perspective();
                    proof {
                        assert(path_wf(pathints, mid.len() as int)) by {
                            assert forall|t: int|
                                0 <= t < pathints.len() implies 0 <= #[trigger] pathints[t]
                                < mid.len() by {
                                assert(0 <= pathints[t] < orig.len());
                            }
                        }
                        assert(visits_bounded(mid, SIM_LIMIT as int));
                    }
                    self.backpropagate(&path, v, p);
                    proof {
                        lemma_backprop_effect(mid, pathints, v as int, p);
                        assert(mid[0].visit_count == orig[0].visit_count);
                        assert forall|b: int|
                            visits_bounded(orig, b) && b >= 0 implies visits_bounded(
                            self@,
                            b + 1,
                        ) by {
                            assert(visits_bounded(mid, b));
                        }
                    }
                    Ok(())
                },
            }
        }
    }
}

/// The simulation loop as a function: `n` simulations, each acting on the
/// tree the previous one left. An evaluator failure at any point fails the
/// whole run.
pub open spec fn spec_run<S: GameState, E: Evaluator<S>>(
    ucb: UCBParameters,
    nodes: Seq<NodeModel>,
    s0: S,
    e: E,
    n: nat,
) -> Option<Seq<NodeModel>>
    decreases n,
{
    if n == 0 {
        Some(nodes)
    } else {
        match spec_run(ucb, nodes, s0, e, (n - 1) as nat) {
            Some(ns) => spec_simulate(ucb, ns, s0, e),
            None => None,
        }
    }
}

/// Once one simulation fails, every longer run fails.
proof fn lemma_run_fail_propagates<S: GameState, E: Evaluator<S>>(
    ucb: UCBParameters,
    nodes: Seq<NodeModel>,
    s0: S,
    e: E,
    i: nat,
    n: nat,
)
    requires
        i < n,
        spec_run(ucb, nodes, s0, e, i) is Some,
        spec_simulate(ucb, spec_run(ucb, nodes, s0, e, i).unwrap(), s0, e) is None,
    ensures
        spec_run(ucb, nodes, s0, e, n) is None,
    decreases n,
{
    if i + 1 < n {
        lemma_run_fail_propagates(ucb, nodes, s0, e, i, (n - 1) as nat);
    }
}

/// The root before any simulation: built from the input state's
/// perspective, with zero statistics; evaluated and expanded once when the
/// state is not terminal (the root's own evaluation counts as no
/// simulation), left a permanent leaf when it is.
pub open spec fn spec_root_init<S: GameState, E: Evaluator<S>>(s0: S, e: E) -> Option<
    Seq<NodeModel>,
> {
    let root = NodeModel {
        visit_count: 0,
        total_action_value: 0,
        prior_probability: 0,
        to_play: s0.spec_perspective(),
        children: None,
    };
    if s0.spec_is_terminal() {
        Some(seq![root])
    } else {
        match e.spec_evaluate(s0) {
            Some(ev) => Some(spec_expand(seq![root], 0, s0, ev)),
            None => None,
        }
    }
}

/// The position of the child entry whose index is `j`.
pub open spec fn child_pos(cs: Seq<(u64, int)>, j: int) -> int {
    choose|m: int| 0 <= m < cs.len() && #[trigger] cs[m].1 == j
}

/// The tree after the one-time root-noise perturbation; the identity when
/// the root has no children.
pub open spec fn spec_apply_noise(nodes: Seq<NodeModel>, eps: int, d: Seq<int>) -> Seq<
    NodeModel,
> {
    match nodes[0].children {
        Some(cs) => Seq::new(
            nodes.len(),
            |j: int|
                if is_child_index(cs, j) {
                    with_prior(nodes[j], noised_prior(nodes, eps, d, child_pos(cs, j)))
                } else {
                    nodes[j]
                },
        ),
        None => nodes,
    }
}

/// A well-formed noise draw for a root with `n` children: one weight per
/// child, each a probability, the whole a distribution.
pub open spec fn noise_wf(d: Seq<int>, n: int) -> bool {
    &&& d.len() == n
    &&& forall|k: int| 0 <= k < d.len() ==> 0 <= #[trigger] d[k] <= VSCALE
    &&& sum_int(d) == VSCALE
}

/// The spec-level image of an optional noise draw.
pub open spec fn noise_view(noise: Option<&Vec<u64>>) -> Option<Seq<int>> {
    match noise {
        Some(v) => Some(v@.map_values(|d: u64| d as int)),
        None => None,
    }
}

/// A whole search as a function of its inputs: root initialization, the
/// one-time noise perturbation, then exactly `sims` simulations.
pub open spec fn spec_search<S: GameState, E: Evaluator<S>>(
    ucb: UCBParameters,
    sims: nat,
    eps: int,
    s0: S,
    e: E,
    noise: Option<Seq<int>>,
) -> Option<Seq<NodeModel>> {
    match spec_root_init(s0, e) {
        None => None,
        Some(nodes0) => {
            let nodes1 = match noise {
                Some(d) => spec_apply_noise(nodes0, eps, d),
                None => nodes0,
            };
            spec_run(ucb, nodes1, s0, e, sims)
        },
    }
}

/// Builds the root from the input state, evaluates and expands it once,
/// perturbs the root priors towards the given noise draw (training mode),
/// and then runs exactly `number_of_simulations` simulations. The returned
/// tree is the unique spec-level search result for these inputs — searches
/// with equal inputs return equal trees — and its root has been visited
/// exactly `number_of_simulations` times: the root's own initial evaluation
/// counts as no simulation. `Err` exactly when some evaluator call fails.
#[verifier::loop_isolation(false)]
pub fn run_search<S: GameState, E: Evaluator<S>>(
    config: &AlphaZeroConfig,
    state: &S,
    evaluator: &E,
    noise: Option<&Vec<u64>>,
) -> (r: Result<Tree, EvaluatorFailure>)
    requires
        config.wf(),
        match noise_view(noise) {
            Some(d) => !state.spec_is_terminal() ==> noise_wf(
                d,
                state.spec_legal_actions().len() as int,
            ),
            None => true,
        },
    ensures
        ({
            let outcome = spec_search(
                config.ucb_parameter,
                config.simulation_parameters.number_of_simulations as nat,
                config.noise_parameters.exploration_fraction as int,
                *state,
                *evaluator,
                noise_view(noise),
            );
            match outcome {
                Some(ns) => {
                    &&& r is Ok
                    &&& r.unwrap()@ == ns
                    &&& tree_wf(ns)
                    &&& ns[0].visit_count
                        == config.simulation_parameters.number_of_simulations
                    &&& visits_bounded(
                        ns,
                        config.simulation_parameters.number_of_simulations as int,
                    )
                },
                None => r is Err,
            }
        }),
{
    let to_play: Player = state.perspective();
    let mut tree = Tree::new(Stats::init(0), to_play);
    let ghost root_only = tree@;
    proof {
        assert(node_wf(root_only, 0));
        assert(tree_wf(root_only));
        assert(root_only =~= seq![
            NodeModel {
                visit_count: 0,
                total_action_value: 0,
                prior_probability: 0,
                to_play: state.spec_perspective(),
                children: None,
            },
        ]);
    }
    if state.is_terminal() {
        proof {
            assert(spec_root_init(*state, *evaluator) is Some);
            assert(tree@ == spec_root_init(*state, *evaluator).unwrap());
        }
    } else {
        match evaluator.evaluate(state) {
            Err(e) => {
                return Err(e);
            },
            Ok(ev) => {
                tree.expand(0, state, &ev);
                proof {
                    assert(spec_root_init(*state, *evaluator) is Some);
                    assert(tree@ == spec_root_init(*state, *evaluator).unwrap());
                }
            },
        }
    }
    let ghost nodes0 = tree@;
    proof {
        assert(visits_bounded(nodes0, 0)) by {
            assert forall|i: int| 0 <= i < nodes0.len() implies #[trigger] nodes0[i].visit_count
                <= 0 by {
                if i > 0 {
                    let acts = state.spec_legal_actions();
                    let m = i - 1;
                    assert(nodes0[1 + m] == expanded_child(
                        *state,
                        acts[m],
                        spec_root_init_eval(*state, *evaluator).priors[m],
                    ));
                }
            }
        }
    }
    match noise {
        Some(draw) => {
            let has_children: bool = match &tree.nodes[0].children {
                Some(_) => true,
                None => false,
            };
            proof {
                assert(tree@[0] == tree.nodes@[0]@);
            }
            if has_children {
                let ghost cs = nodes0[0].children.unwrap();
                let ghost dseq = draw@.map_values(|d: u64| d as int);
                proof {
                    assert(!state.spec_is_terminal());
                    assert(cs.len() == state.spec_legal_actions().len());
                    assert forall|k: int|
                        0 <= k < draw@.len() implies #[trigger] draw@[k] <= VSCALE by {
                        assert(dseq[k] == draw@[k] as int);
                        assert(0 <= dseq[k] <= VSCALE);
                    }
                    assert forall|k: int|
                        0 <= k < draw@.len() implies #[trigger] nodes0[nodes0[0].children.unwrap()[k].1].prior_probability
                            % (VSCALE as int) == 0 by {
                        assert(child_priors(nodes0, 0)[k] % (VSCALE as int) == 0);
                    }
                }
                tree.add_exploration_noise(&config.noise_parameters, draw);
                proof {
                    let eps = config.noise_parameters.exploration_fraction as int;
                    let target = spec_apply_noise(nodes0, eps, dseq);
                    assert forall|j: int| 0 <= j < tree@.len() implies tree@[j] == target[j] by {
                        if is_child_index(cs, j) {
                            let m = child_pos(cs, j);
                            assert(0 <= m < cs.len() && cs[m].1 == j);
                            let w = choose|w: int| 0 <= w < cs.len() && #[trigger] cs[w].1 == j;
                            assert forall|m1: int, m2: int|
                                0 <= m1 < cs.len() && 0 <= m2 < cs.len() && #[trigger] cs[m1].1
                                    == #[trigger] cs[m2].1 implies m1 == m2 by {
                                assert(node_wf(nodes0, 0));
                                if m1 < m2 {
                                    lemma_child_indices_increase(cs, m1, m2);
                                }
                                if m2 < m1 {
                                    lemma_child_indices_increase(cs, m2, m1);
                                }
                            }
                            assert(tree@[cs[m].1] == with_prior(
                                nodes0[cs[m].1],
                                noised_prior(nodes0, eps, dseq, m),
                            ));
                        } else {
                            assert(tree@[j] == nodes0[j]);
                        }
                    }
                    assert(tree@ =~= target);
                    assert(visits_bounded(tree@, 0)) by {
                        assert forall|i: int|
                            0 <= i < tree@.len() implies #[trigger] tree@[i].visit_count <= 0 by {
                            assert(tree@[i] == target[i]);
                            if is_child_index(cs, i) {
                                assert(tree@[i].visit_count == nodes0[i].visit_count);
                            }
                        }
                    }
                }
            } else {
                proof {
                    assert(spec_apply_noise(nodes0, config.noise_parameters.exploration_fraction as int, draw@.map_values(|d: u64| d as int)) == nodes0);
                }
            }
        },
        None => {},
    }
    let ghost nodes1 = tree@;
    let ghost sims_spec = config.simulation_parameters.number_of_simulations as nat;
    let sims: usize = config.simulation_parameters.number_of_simulations;
    let mut i: usize = 0;
    while i < sims
        invariant
            config.wf(),
            sims == config.simulation_parameters.number_of_simulations,
            sims_spec == sims as nat,
            sims <= SIM_LIMIT,
            0 <= i <= sims,
            tree_wf(tree@),
            visits_bounded(tree@, i as int),
            tree@[0].visit_count == i,
            tree@.len() > 0,
            spec_run(config.ucb_parameter, nodes1, *state, *evaluator, i as nat) == Some(tree@),
        decreases sims - i,
    {
        proof {
            assert(visits_bounded(tree@, SIM_LIMIT as int - 1)) by {
                assert forall|t: int|
                    0 <= t < tree@.len() implies #[trigger] tree@[t].visit_count <= SIM_LIMIT
                        as int - 1 by {
                    assert(tree@[t].visit_count <= i as int);
                }
            }
        }
        let res = tree.simulate(&config.ucb_parameter, state, evaluator);
        match res {
            Ok(()) => {},
            Err(e) => {
                proof {
                    lemma_run_fail_propagates(
                        config.ucb_parameter,
                        nodes1,
                        *state,
                        *evaluator,
                        i as nat,
                        sims_spec,
                    );
                    assert(spec_run(
                        config.ucb_parameter,
                        nodes1,
                        *state,
                        *evaluator,
                        sims_spec,
                    ) is None);
                    assert(spec_root_init(*state, *evaluator) == Some(nodes0));
                    assert(match noise_view(noise) {
                        Some(d) => nodes1 == spec_apply_noise(
                            nodes0,
                            config.noise_parameters.exploration_fraction as int,
                            d,
                        ),
                        None => nodes1 == nodes0,
                    });
                }
                return Err(e);
            },
        }
        i = i + 1;
    }
    Ok(tree)
}

/// The evaluation the root was expanded from, named for proofs about the
/// freshly initialized tree.
pub open spec fn spec_root_init_eval<S: GameState, E: Evaluator<S>>(s0: S, e: E) -> EvalModel {
    e.spec_evaluate(s0).unwrap()
}

} // verus!
