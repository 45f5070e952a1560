use vstd::prelude::*;

use crate::terrain::evaluation::{
    dirty_flags, eval_inputs, eval_node, eval_ranked, eval_witness, evaluable, evaluation,
    lemma_eval_len, source, structure, with_dirty, StepView,
};
use crate::terrain::graph::Graph;
use crate::terrain::node::{inputs_view, InputPort, InputPortView};
use crate::terrain::resource_registry::{input_key, output_key, ResourceKey};
use crate::terrain::NodeId;

verus! {


/// One thing to do, in order, to bring a node up to date.
#[derive(Debug, PartialEq, Eq)]
pub enum EvalStep {
    /// Hand the view stored under `from` (if any) on to `to`.
    Bridge { from: ResourceKey, to: ResourceKey },
    /// Record the GPU work of a node (which is then clean).
    Encode(NodeId),
}

impl View for EvalStep {
    type V = StepView;

    open spec fn view(&self) -> StepView {
        match self {
            EvalStep::Bridge { from, to } => StepView::Bridge { from: from@, to: to@ },
            EvalStep::Encode(id) => StepView::Encode(*id),
        }
    }
}

/// The views of a list of steps.
pub open spec fn steps_view(steps: Seq<EvalStep>) -> Seq<StepView> {
    steps.map_values(|s: EvalStep| s@)
}

/// A copy of a list of input ports.
fn copy_inputs(ports: &Vec<InputPort>) -> (res: Vec<InputPort>)
    ensures
        inputs_view(res@) == inputs_view(ports@),
{
    let mut res: Vec<InputPort> = Vec::new();
    let mut i: usize = 0;
    while i < ports.len()
        invariant
            i <= ports@.len(),
            inputs_view(res@) == inputs_view(ports@).take(i as int),
            res@.len() == i,
        decreases ports@.len() - i,
    {
        let ghost prev = res@;
        res.push(ports[i].duplicate());
        assert(res@ == prev.push(res@[i as int]));
        assert(inputs_view(res@) =~= inputs_view(prev).push(ports@[i as int]@));
        i = i + 1;
        assert(inputs_view(res@) =~= inputs_view(ports@).take(i as int));
    }
    assert(inputs_view(ports@).take(ports@.len() as int) =~= inputs_view(ports@));
    res
}

/// Works out how to bring nodes of a graph up to date.
pub struct Executor {}

impl Executor {
    /// An executor.
    pub fn new() -> (res: Self) {
        Executor {}
    }

    /// Evaluates `node_id`: appends the steps of [`eval_node`] to `steps` and
    /// marks clean the nodes that they encode.
    fn evaluate_node(
        &self,
        node_id: NodeId,
        graph: &mut Graph,
        steps: &mut Vec<EvalStep>,
        Ghost(s): Ghost<Set<usize>>,
        Ghost(rank): Ghost<spec_fn(usize) -> nat>,
    )
        requires
            old(graph).wf(),
            eval_ranked(structure(old(graph).nodes_view()), s, rank),
            s.contains(node_id.0),
        ensures
            final(graph).wf(),
            final(graph).next_id() == old(graph).next_id(),
            final(graph).children_view() == old(graph).children_view(),
            final(graph).parents_view() == old(graph).parents_view(),
            final(graph).nodes_view() == with_dirty(
                old(graph).nodes_view(),
                eval_node(
                    structure(old(graph).nodes_view()),
                    dirty_flags(old(graph).nodes_view()),
                    node_id.0,
                    rank,
                ).0,
            ),
            steps_view(final(steps)@) == steps_view(old(steps)@) + eval_node(
                structure(old(graph).nodes_view()),
                dirty_flags(old(graph).nodes_view()),
                node_id.0,
                rank,
            ).1,
        decreases rank(node_id.0),
    {
        let ghost ins = structure(graph.nodes_view());
        let ghost nodes0 = graph.nodes_view();
        let ghost d0 = dirty_flags(nodes0);
        let ghost steps0 = steps_view(steps@);
        let ghost n = node_id.0;
        let ghost target = eval_inputs(ins, d0, n, ins[n as int], rank);
        proof {
            graph.lemma_wf();
        }
        let node_inputs = match graph.get_node(node_id) {
            Some(node) => copy_inputs(node.inputs()),
            None => Vec::new(),
        };
        assert(inputs_view(node_inputs@) == ins[n as int]);
        assert(ins[n as int].skip(0) =~= ins[n as int]);
        let mut i: usize = 0;
        while i < node_inputs.len()
            invariant
                graph.wf(),
                i <= node_inputs@.len(),
                inputs_view(node_inputs@) == ins[n as int],
                eval_ranked(ins, s, rank),
                s.contains(n),
                n == node_id.0,
                n < nodes0.len(),
                ins == structure(nodes0),
                d0 == dirty_flags(nodes0),
                graph.next_id() == old(graph).next_id(),
                graph.children_view() == old(graph).children_view(),
                graph.parents_view() == old(graph).parents_view(),
                structure(graph.nodes_view()) == ins,
                graph.nodes_view() == with_dirty(nodes0, dirty_flags(graph.nodes_view())),
                target == eval_inputs(ins, d0, n, ins[n as int], rank),
                ({
                    let rest = eval_inputs(ins, dirty_flags(graph.nodes_view()), n, ins[n as int].skip(i as int), rank);
                    rest.0 == target.0 && steps_view(steps@) + rest.1 == steps0 + target.1
                }),
            decreases node_inputs@.len() - i,
        {
            let ghost pending = ins[n as int].skip(i as int);
            let ghost d_now = dirty_flags(graph.nodes_view());
            let ghost steps_now = steps_view(steps@);
            assert(pending[0] == ins[n as int][i as int]);
            assert(pending.drop_first() =~= ins[n as int].skip(i + 1));
            assert(node_inputs@[i as int]@ == ins[n as int][i as int]);
            match &node_inputs[i].connection {
                None => {},
                Some(conn) => {
                    let ghost c = conn@;
                    assert(s.contains(source(ins[n as int][i as int])));
                    assert(rank(conn.node_id.0) < rank(n));
                    self.evaluate_node(conn.node_id, graph, steps, Ghost(s), Ghost(rank));
                    let from = ResourceKey::output(conn.node_id, conn.port_name.clone());
                    let to = ResourceKey::input(node_id, node_inputs[i].name.clone());
                    let ghost before_push = steps@;
                    steps.push(EvalStep::Bridge { from, to });
                    proof {
                        let (d1, s1) = eval_node(ins, d_now, c.node_id.0, rank);
                        let b = StepView::Bridge {
                            from: output_key(c.node_id, c.port_name),
                            to: input_key(NodeId(n), pending[0].name),
                        };
                        assert(steps@[steps@.len() - 1]@ == b);
                        assert(steps@ == before_push.push(steps@[steps@.len() - 1]));
                        assert(steps_view(steps@) =~= steps_view(before_push).push(b));
                        assert(steps_view(before_push) =~= steps_now + s1);
                        assert(steps_view(steps@) =~= steps_now + s1.push(
                            StepView::Bridge {
                                from: output_key(c.node_id, c.port_name),
                                to: input_key(NodeId(n), pending[0].name),
                            },
                        ));
                        lemma_eval_len(ins, d_now, c.node_id.0, s, rank);
                        assert(dirty_flags(graph.nodes_view()) =~= d1);
                    }
                },
            }
            i = i + 1;
            proof {
                let rest = eval_inputs(ins, dirty_flags(graph.nodes_view()), n, ins[n as int].skip(i as int), rank);
                let rest0 = eval_inputs(ins, d_now, n, pending, rank);
                assert(rest0.0 == rest.0);
                assert(steps_view(steps@) + rest.1 =~= steps_now + rest0.1);
            }
        }
        assert(ins[n as int].skip(i as int) =~= Seq::<InputPortView>::empty());
        assert(dirty_flags(graph.nodes_view()) == target.0);
        let dirty = match graph.get_node(node_id) {
            Some(node) => node.is_dirty(),
            None => false,
        };
        let ghost before_encode = steps@;
        if dirty {
            steps.push(EvalStep::Encode(node_id));
            assert(steps@ == before_encode.push(EvalStep::Encode(node_id)));
            assert(steps_view(steps@) =~= steps_view(before_encode).push(StepView::Encode(node_id)));
            match graph.get_node_mut(node_id) {
                Some(node) => node.set_clean(),
                None => {},
            }
        }
        proof {
            lemma_eval_len(ins, d0, n, s, rank);
            let d_end = eval_node(ins, d0, n, rank).0;
            assert(graph.nodes_view() =~= with_dirty(nodes0, d_end));
        }
    }

    /// Works out how to bring `node_id` up to date: the steps of
    /// [`evaluation`], in order. The nodes that the steps encode are marked
    /// clean; nothing else in the graph changes. Every node that `node_id`
    /// depends on must exist, and no cycle of connections may be reachable
    /// from it (evaluation would never end).
    pub fn evaluate(&self, node_id: NodeId, graph: &mut Graph) -> (steps: Vec<EvalStep>)
        requires
            old(graph).wf(),
            evaluable(structure(old(graph).nodes_view()), node_id.0),
        ensures
            final(graph).wf(),
            final(graph).next_id() == old(graph).next_id(),
            final(graph).children_view() == old(graph).children_view(),
            final(graph).parents_view() == old(graph).parents_view(),
            final(graph).nodes_view() == with_dirty(
                old(graph).nodes_view(),
                evaluation(
                    structure(old(graph).nodes_view()),
                    dirty_flags(old(graph).nodes_view()),
                    node_id.0,
                ).0,
            ),
            steps_view(steps@) == evaluation(
                structure(old(graph).nodes_view()),
                dirty_flags(old(graph).nodes_view()),
                node_id.0,
            ).1,
    {
        let ghost (s, rank) = eval_witness(structure(graph.nodes_view()), node_id.0);
        let mut steps: Vec<EvalStep> = Vec::new();
        self.evaluate_node(node_id, graph, &mut steps, Ghost(s), Ghost(rank));
        assert(steps_view(Seq::<EvalStep>::empty()) =~= Seq::<StepView>::empty());
        assert(Seq::<StepView>::empty() + evaluation(
            structure(old(graph).nodes_view()),
            dirty_flags(old(graph).nodes_view()),
            node_id.0,
        ).1 =~= evaluation(
            structure(old(graph).nodes_view()),
            dirty_flags(old(graph).nodes_view()),
            node_id.0,
        ).1);
        steps
    }
}

} // verus!
