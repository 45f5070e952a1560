use vstd::prelude::*;
use vstd::set_lib::{lemma_int_range, lemma_len_subset, set_int_range};

use crate::terrain::evaluation::{eval_ranked, evaluable, source, structure};
use crate::terrain::executor::Executor;
use crate::terrain::graph::Graph;
use crate::terrain::node::{inputs_view, InputPortView};
use crate::terrain::NodeId;

verus! {

/// Node `b` is the source of a connected input of node `a`.
pub open spec fn dep_edge(ins: Seq<Seq<InputPortView>>, a: usize, b: usize) -> bool {
    a < ins.len() && exists|k: int|
        0 <= k < ins[a as int].len() && (#[trigger] ins[a as int][k]).connection is Some && source(
            ins[a as int][k],
        ) == b
}

/// Each node of `p` after the first is a source of an input of the one before.
pub open spec fn dep_path(ins: Seq<Seq<InputPortView>>, p: Seq<usize>) -> bool {
    forall|i: int| #![trigger p[i]] 0 < i < p.len() ==> dep_edge(ins, p[i - 1], p[i])
}

/// The nodes not visited yet.
pub open spec fn white_set(colors: Seq<u8>) -> Set<int> {
    Set::new(|i: int| 0 <= i < colors.len() && colors[i] == 0)
}

/// The state of the depth-first search: colors 0 (not visited), 1 (on the
/// current path `stack`) and 2 (done); a done node has only done sources,
/// each finished earlier.
pub open spec fn search_ok(
    ins: Seq<Seq<InputPortView>>,
    colors: Seq<u8>,
    fin: Seq<nat>,
    stack: Seq<usize>,
) -> bool {
    &&& colors.len() == ins.len()
    &&& fin.len() == ins.len()
    &&& forall|b: int| 0 <= b < colors.len() ==> #[trigger] colors[b] <= 2
    &&& forall|b: int| 0 <= b < colors.len() ==> (#[trigger] colors[b] == 1 <==> stack.contains(b as usize))
    &&& forall|i: int| 0 <= i < stack.len() ==> (#[trigger] stack[i]) < colors.len()
    &&& forall|b: int, k: int|
        0 <= b < colors.len() && colors[b] == 2 && 0 <= k < ins[b].len() && (
        #[trigger] ins[b][k]).connection is Some ==> source(ins[b][k]) < colors.len() && colors[source(
            ins[b][k],
        ) as int] == 2 && fin[source(ins[b][k]) as int] < fin[b]
}

/// Along a path that starts in a ranked set, every node is in the set and
/// the rank never rises.
proof fn lemma_path_ranked(
    ins: Seq<Seq<InputPortView>>,
    s: Set<usize>,
    rank: spec_fn(usize) -> nat,
    p: Seq<usize>,
)
    requires
        eval_ranked(ins, s, rank),
        p.len() >= 1,
        s.contains(p[0]),
        dep_path(ins, p),
    ensures
        forall|i: int| 0 <= i < p.len() ==> s.contains(#[trigger] p[i]),
        forall|i: int| 0 <= i < p.len() ==> rank(#[trigger] p[i]) >= rank(p[p.len() - 1]),
    decreases p.len(),
{
    if p.len() > 1 {
        let q = p.drop_last();
        assert forall|i: int| #![trigger q[i]] 0 < i < q.len() implies dep_edge(ins, q[i - 1], q[i]) by {
            assert(q[i] == p[i] && q[i - 1] == p[i - 1]);
        }
        lemma_path_ranked(ins, s, rank, q);
        let last = p.len() - 1;
        assert(dep_edge(ins, p[last - 1], p[last]));
        let a = p[last - 1];
        assert(s.contains(q[last - 1]));
        let k = choose|k: int|
            0 <= k < ins[a as int].len() && (#[trigger] ins[a as int][k]).connection is Some && source(
                ins[a as int][k],
            ) == p[last];
        assert forall|i: int| 0 <= i < p.len() implies s.contains(#[trigger] p[i]) by {
            if i < last {
                assert(q[i] == p[i]);
            }
        }
        assert forall|i: int| 0 <= i < p.len() implies rank(#[trigger] p[i]) >= rank(p[p.len() - 1]) by {
            if i < last {
                assert(q[i] == p[i]);
                assert(rank(q[i]) >= rank(q[last - 1]));
            }
        }
    }
}

/// A path from `start` that comes back to one of its nodes, or that leads to
/// a node that does not exist, rules out evaluation from `start`.
proof fn lemma_no_evaluation(ins: Seq<Seq<InputPortView>>, p: Seq<usize>, start: usize, b: usize)
    requires
        p.len() >= 1,
        p[0] == start,
        dep_path(ins, p),
        dep_edge(ins, p[p.len() - 1], b),
        b >= ins.len() || p.contains(b),
    ensures
        !evaluable(ins, start),
{
    if evaluable(ins, start) {
        let (s, rank) = choose|s: Set<usize>, rank: spec_fn(usize) -> nat|
            #[trigger] eval_ranked(ins, s, rank) && s.contains(start);
        lemma_path_ranked(ins, s, rank, p);
        let a = p[p.len() - 1];
        assert(s.contains(a));
        let k = choose|k: int|
            0 <= k < ins[a as int].len() && (#[trigger] ins[a as int][k]).connection is Some && source(
                ins[a as int][k],
            ) == b;
        assert(s.contains(b) && rank(b) < rank(a));
        if p.contains(b) {
            let j = choose|j: int| 0 <= j < p.len() && p[j] == b;
            assert(rank(p[j]) >= rank(a));
        }
    }
}

impl Executor {
    /// Visits `a` and, depth first, every node it depends on. Returns whether
    /// no cycle and no missing node was found, with the new finishing ranks
    /// and the next rank to hand out.
    fn visit(
        &self,
        graph: &Graph,
        a: usize,
        colors: &mut Vec<u8>,
        Ghost(start): Ghost<usize>,
        Ghost(stack): Ghost<Seq<usize>>,
        Ghost(fin): Ghost<Seq<nat>>,
        Ghost(next): Ghost<nat>,
    ) -> (res: (bool, Ghost<Seq<nat>>, Ghost<nat>))
        requires
            graph.wf(),
            search_ok(structure(graph.nodes_view()), old(colors)@, fin, stack),
            a < old(colors)@.len(),
            old(colors)@[a as int] == 0,
            stack.push(a)[0] == start,
            dep_path(structure(graph.nodes_view()), stack.push(a)),
            forall|b: int| 0 <= b < fin.len() && old(colors)@[b] == 2 ==> #[trigger] fin[b] < next,
        ensures
            white_set(final(colors)@).subset_of(white_set(old(colors)@)),
            final(colors)@.len() == old(colors)@.len(),
            res.0 ==> {
                let fin2 = res.1@;
                let next2 = res.2@;
                &&& search_ok(structure(graph.nodes_view()), final(colors)@, fin2, stack)
                &&& final(colors)@[a as int] == 2
                &&& forall|b: int| 0 <= b < fin2.len() && final(colors)@[b] == 2 ==> #[trigger] fin2[b] < next2
                &&& forall|b: int|
                    0 <= b < fin.len() && old(colors)@[b] == 2 ==> #[trigger] final(colors)@[b] == 2
                        && fin2[b] == fin[b]
            },
            !res.0 ==> !evaluable(structure(graph.nodes_view()), start),
        decreases white_set(old(colors)@).len(),
    {
        let ghost ins = structure(graph.nodes_view());
        let ghost entry = colors@;
        let ghost path = stack.push(a);
        proof {
            graph.lemma_wf();
            lemma_int_range(0, entry.len() as int);
            lemma_len_subset(white_set(entry), set_int_range(0, entry.len() as int));
        }
        colors.set(a, 1);
        proof {
            assert(white_set(colors@) =~= white_set(entry).remove(a as int));
            assert forall|b: int| 0 <= b < colors@.len() implies (#[trigger] colors@[b] == 1 <==> path.contains(
                b as usize,
            )) by {
                if b == a as int {
                    assert(path[path.len() - 1] == a);
                } else {
                    if path.contains(b as usize) {
                        let j = choose|j: int| 0 <= j < path.len() && path[j] == b as usize;
                        assert(stack[j] == b as usize);
                    }
                    if stack.contains(b as usize) {
                        let j = choose|j: int| 0 <= j < stack.len() && stack[j] == b as usize;
                        assert(path[j] == b as usize);
                    }
                }
            }
            assert(!stack.contains(a)) by {
                assert(entry[a as int] == 0);
            }
            assert forall|i: int| 0 <= i < path.len() implies (#[trigger] path[i]) < colors@.len() by {
                if i < stack.len() {
                    assert(path[i] == stack[i]);
                }
            }
        }
        let inputs = match graph.get_node(NodeId(a)) {
            Some(node) => node.inputs(),
            None => {
                return (false, Ghost(fin), Ghost(next));
            },
        };
        assert(inputs_view(inputs@) == ins[a as int]);
        let ghost mut fin_cur = fin;
        let ghost mut next_cur = next;
        let mut i: usize = 0;
        while i < inputs.len()
            invariant
                graph.wf(),
                ins == structure(graph.nodes_view()),
                inputs_view(inputs@) == ins[a as int],
                i <= inputs@.len(),
                a < colors@.len(),
                colors@.len() == entry.len(),
                entry == old(colors)@,
                fin.len() == ins.len(),
                path == stack.push(a),
                path[0] == start,
                dep_path(ins, path),
                search_ok(ins, colors@, fin_cur, path),
                colors@[a as int] == 1,
                white_set(colors@).subset_of(white_set(entry).remove(a as int)),
                white_set(entry).len() == white_set(entry).remove(a as int).len() + 1,
                white_set(entry).finite(),
                forall|b: int| 0 <= b < fin_cur.len() && colors@[b] == 2 ==> #[trigger] fin_cur[b] < next_cur,
                forall|b: int|
                    0 <= b < fin.len() && entry[b] == 2 ==> #[trigger] colors@[b] == 2 && fin_cur[b]
                        == fin[b],
                forall|k: int|
                    0 <= k < i && (#[trigger] ins[a as int][k]).connection is Some ==> source(ins[a as int][k])
                        < colors@.len() && colors@[source(ins[a as int][k]) as int] == 2,
            decreases inputs@.len() - i,
        {
            assert(inputs@[i as int]@ == ins[a as int][i as int]);
            match &inputs[i].connection {
                None => {},
                Some(conn) => {
                    let b = conn.node_id.0;
                    assert(b == source(ins[a as int][i as int]));
                    assert(dep_edge(ins, path[path.len() - 1], b));
                    if b >= colors.len() {
                        proof {
                            lemma_no_evaluation(ins, path, start, b);
                        }
                        return (false, Ghost(fin_cur), Ghost(next_cur));
                    }
                    let cb = colors[b];
                    if cb == 1 {
                        proof {
                            lemma_no_evaluation(ins, path, start, b);
                        }
                        return (false, Ghost(fin_cur), Ghost(next_cur));
                    }
                    if cb == 0 {
                        let ghost before = colors@;
                        proof {
                            assert forall|x: int| 0 <= x < fin.len() && entry[x] == 2 implies #[trigger] before[x]
                                == 2 && fin_cur[x] == fin[x] by {
                                assert(colors@[x] == 2);
                            }
                            assert(white_set(before).contains(b as int));
                            lemma_len_subset(white_set(before), white_set(entry).remove(a as int));
                            assert forall|j: int| #![trigger path.push(b)[j]] 0 < j < path.push(b).len()
                                implies dep_edge(ins, path.push(b)[j - 1], path.push(b)[j]) by {
                                if j < path.len() {
                                    assert(path.push(b)[j] == path[j]);
                                    assert(path.push(b)[j - 1] == path[j - 1]);
                                }
                            }
                        }
                        let (ok, f, nx) = self.visit(
                            graph,
                            b,
                            colors,
                            Ghost(start),
                            Ghost(path),
                            Ghost(fin_cur),
                            Ghost(next_cur),
                        );
                        if !ok {
                            return (false, f, nx);
                        }
                        proof {
                            assert forall|x: int| 0 <= x < fin.len() && entry[x] == 2 implies #[trigger] colors@[x]
                                == 2 && f@[x] == fin[x] by {
                                assert(before[x] == 2);
                                assert(fin_cur[x] == fin[x]);
                                assert(colors@[x] == 2);
                                assert(f@[x] == fin_cur[x]);
                            }
                            fin_cur = f@;
                            next_cur = nx@;
                        }
                    }
                },
            }
            i = i + 1;
        }
        let ghost pre_final = colors@;
        colors.set(a, 2);
        proof {
            fin_cur = fin_cur.update(a as int, next_cur);
            next_cur = next_cur + 1;
            assert(white_set(colors@) =~= white_set(pre_final));
            assert forall|b: int| 0 <= b < colors@.len() implies (#[trigger] colors@[b] == 1 <==> stack.contains(
                b as usize,
            )) by {
                if b != a as int {
                    assert(pre_final[b] == colors@[b]);
                    if path.contains(b as usize) {
                        let j = choose|j: int| 0 <= j < path.len() && path[j] == b as usize;
                        if j == stack.len() {
                            assert(path[j] == a);
                        } else {
                            assert(stack[j] == b as usize);
                        }
                    }
                    if stack.contains(b as usize) {
                        let j = choose|j: int| 0 <= j < stack.len() && stack[j] == b as usize;
                        assert(path[j] == b as usize);
                    }
                } else {
                    assert(!stack.contains(a));
                }
            }
            assert forall|j: int| 0 <= j < stack.len() implies (#[trigger] stack[j]) < colors@.len() by {
                assert(path[j] == stack[j]);
            }
            assert forall|b: int, k: int|
                0 <= b < colors@.len() && colors@[b] == 2 && 0 <= k < ins[b].len() && (
                #[trigger] ins[b][k]).connection is Some implies source(ins[b][k]) < colors@.len()
                && colors@[source(ins[b][k]) as int] == 2 && fin_cur[source(ins[b][k]) as int] < fin_cur[b] by {
                if b != a as int {
                    assert(pre_final[b] == 2);
                }
            }
        }
        (true, Ghost(fin_cur), Ghost(next_cur))
    }

    /// Whether evaluating `node_id` ends, which [`Executor::evaluate`]
    /// requires: `node_id` and every node it depends on exist, and no cycle of
    /// connections is reachable from it. Searches the graph depth first.
    pub fn can_evaluate(&self, node_id: NodeId, graph: &Graph) -> (res: bool)
        requires
            graph.wf(),
        ensures
            res == evaluable(structure(graph.nodes_view()), node_id.0),
    {
        let ghost ins = structure(graph.nodes_view());
        let n = graph.node_count();
        if node_id.0 >= n {
            proof {
                if evaluable(ins, node_id.0) {
                    let (s, rank) = choose|s: Set<usize>, rank: spec_fn(usize) -> nat|
                        #[trigger] eval_ranked(ins, s, rank) && s.contains(node_id.0);
                }
            }
            return false;
        }
        let mut colors: Vec<u8> = Vec::new();
        let mut i: usize = 0;
        while i < n
            invariant
                i <= n,
                colors@.len() == i,
                forall|b: int| 0 <= b < i ==> #[trigger] colors@[b] == 0,
            decreases n - i,
        {
            colors.push(0);
            i = i + 1;
        }
        let ghost fin0 = Seq::new(n as nat, |b: int| 0nat);
        let ghost stack0 = Seq::<usize>::empty();
        proof {
            assert(stack0.push(node_id.0)[0] == node_id.0);
            assert forall|b: int| 0 <= b < colors@.len() implies (#[trigger] colors@[b] == 1 <==> stack0.contains(
                b as usize,
            )) by {}
        }
        let (ok, fin, _) = self.visit(
            graph,
            node_id.0,
            &mut colors,
            Ghost(node_id.0),
            Ghost(stack0),
            Ghost(fin0),
            Ghost(0nat),
        );
        proof {
            if ok {
                let done = Set::new(|b: usize| b < n && colors@[b as int] == 2);
                let rank = |b: usize| fin@[b as int];
                assert forall|a: usize, k: int|
                    done.contains(a) && 0 <= k < ins[a as int].len() && (
                    #[trigger] ins[a as int][k]).connection is Some implies done.contains(source(ins[a as int][k]))
                    && rank(source(ins[a as int][k])) < rank(a) by {}
                assert(eval_ranked(ins, done, rank));
                assert(done.contains(node_id.0));
            }
        }
        ok
    }
}

} // verus!
