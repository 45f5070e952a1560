use vstd::prelude::*;

use crate::terrain::graph::set_connection;
use crate::terrain::node::{has_input, InputPortView, NodeView, PortRefView};
use crate::terrain::resource_registry::{input_key, output_key, ResourceKeyView, ResourceKind};
use crate::terrain::NodeId;

verus! {

/// The mathematical value of an [`EvalStep`].
pub enum StepView {
    Bridge { from: ResourceKeyView, to: ResourceKeyView },
    Encode(NodeId),
}

/// The input ports of each node: the part of the graph that evaluation reads.
pub open spec fn structure(nodes: Seq<NodeView>) -> Seq<Seq<InputPortView>> {
    nodes.map_values(|v: NodeView| v.inputs)
}

/// The dirty flag of each node.
pub open spec fn dirty_flags(nodes: Seq<NodeView>) -> Seq<bool> {
    nodes.map_values(|v: NodeView| v.dirty)
}

/// `nodes` with the dirty flags `dirty`.
pub open spec fn with_dirty(nodes: Seq<NodeView>, dirty: Seq<bool>) -> Seq<NodeView> {
    Seq::new(nodes.len(), |i: int| NodeView { dirty: dirty[i], ..nodes[i] })
}

/// The node whose output a connected input port takes.
pub open spec fn source(p: InputPortView) -> usize {
    p.connection.unwrap().node_id.0
}

/// `s` holds only nodes, and with each of them the sources of its connected
/// inputs, whose rank is lower.
pub open spec fn eval_ranked(ins: Seq<Seq<InputPortView>>, s: Set<usize>, rank: spec_fn(usize) -> nat) -> bool {
    &&& forall|a: usize| #[trigger] s.contains(a) ==> a < ins.len()
    &&& forall|a: usize, k: int|
        s.contains(a) && 0 <= k < ins[a as int].len() && (#[trigger] ins[a as int][k]).connection is Some
            ==> s.contains(source(ins[a as int][k])) && rank(source(ins[a as int][k])) < rank(a)
}

/// Evaluation from `start` ends: every node it depends on exists, and no
/// cycle of connections is reachable from it.
pub open spec fn evaluable(ins: Seq<Seq<InputPortView>>, start: usize) -> bool {
    exists|s: Set<usize>, rank: spec_fn(usize) -> nat| #[trigger] eval_ranked(ins, s, rank) && s.contains(start)
}

/// The step that hands the output taken by the connected port `p` on to
/// that port of node `n`.
pub open spec fn bridge_of(n: usize, p: InputPortView) -> StepView {
    StepView::Bridge {
        from: output_key(p.connection.unwrap().node_id, p.connection.unwrap().port_name),
        to: input_key(NodeId(n), p.name),
    }
}

/// Evaluation of node `n` with dirty flags `dirty`: first each connected input
/// in order (evaluating its source, then bridging the source's output to the
/// input), then the node itself if it is still dirty. Gives the new dirty
/// flags and the steps, in order.
pub open spec fn eval_node(
    ins: Seq<Seq<InputPortView>>,
    dirty: Seq<bool>,
    n: usize,
    rank: spec_fn(usize) -> nat,
) -> (Seq<bool>, Seq<StepView>)
    decreases rank(n), 1nat, 0nat,
{
    let (d1, s1) = eval_inputs(ins, dirty, n, ins[n as int], rank);
    if d1[n as int] {
        (d1.update(n as int, false), s1.push(StepView::Encode(NodeId(n))))
    } else {
        (d1, s1)
    }
}

/// Evaluation of the inputs `pending` of node `n`, in order.
pub open spec fn eval_inputs(
    ins: Seq<Seq<InputPortView>>,
    dirty: Seq<bool>,
    n: usize,
    pending: Seq<InputPortView>,
    rank: spec_fn(usize) -> nat,
) -> (Seq<bool>, Seq<StepView>)
    decreases rank(n), 0nat, pending.len(),
{
    if pending.len() == 0 {
        (dirty, Seq::empty())
    } else {
        let p = pending[0];
        match p.connection {
            None => eval_inputs(ins, dirty, n, pending.drop_first(), rank),
            Some(c) => {
                if rank(c.node_id.0) < rank(n) {
                    let (d1, s1) = eval_node(ins, dirty, c.node_id.0, rank);
                    let (d2, s2) = eval_inputs(ins, d1, n, pending.drop_first(), rank);
                    let bridge = bridge_of(n, p);
                    (d2, s1.push(bridge) + s2)
                } else {
                    (dirty, Seq::empty())
                }
            },
        }
    }
}

/// The ranking by which an evaluation from `start` is carried out.
pub open spec fn eval_witness(ins: Seq<Seq<InputPortView>>, start: usize) -> (Set<usize>, spec_fn(usize) -> nat) {
    choose|s: Set<usize>, rank: spec_fn(usize) -> nat| #[trigger] eval_ranked(ins, s, rank) && s.contains(start)
}

/// The outcome of evaluating `start`: new dirty flags and the steps.
pub open spec fn evaluation(ins: Seq<Seq<InputPortView>>, dirty: Seq<bool>, start: usize) -> (Seq<bool>, Seq<StepView>) {
    eval_node(ins, dirty, start, eval_witness(ins, start).1)
}

/// Each connected port of `pending` takes its value from a member of `s` of
/// rank lower than that of `n`.
pub open spec fn pending_ok(
    pending: Seq<InputPortView>,
    s: Set<usize>,
    rank: spec_fn(usize) -> nat,
    n: usize,
) -> bool {
    forall|k: int|
        0 <= k < pending.len() && (#[trigger] pending[k]).connection is Some ==> s.contains(
            source(pending[k]),
        ) && rank(source(pending[k])) < rank(n)
}

/// The inputs of a member of a ranked set, from any position on, take their
/// values from lower-ranked members.
pub proof fn lemma_pending_ok(
    ins: Seq<Seq<InputPortView>>,
    s: Set<usize>,
    rank: spec_fn(usize) -> nat,
    n: usize,
    i: int,
)
    requires
        eval_ranked(ins, s, rank),
        s.contains(n),
        0 <= i <= ins[n as int].len(),
    ensures
        pending_ok(ins[n as int].skip(i), s, rank, n),
{
    assert forall|k: int|
        0 <= k < ins[n as int].skip(i).len() && (#[trigger] ins[n as int].skip(i)[k]).connection is Some
        implies s.contains(source(ins[n as int].skip(i)[k])) && rank(source(ins[n as int].skip(i)[k])) < rank(n) by {
        assert(ins[n as int].skip(i)[k] == ins[n as int][i + k]);
    }
}

/// Evaluation keeps the number of dirty flags.
pub proof fn lemma_eval_len(
    ins: Seq<Seq<InputPortView>>,
    dirty: Seq<bool>,
    n: usize,
    s: Set<usize>,
    rank: spec_fn(usize) -> nat,
)
    requires
        eval_ranked(ins, s, rank),
        s.contains(n),
        dirty.len() == ins.len(),
    ensures
        eval_node(ins, dirty, n, rank).0.len() == dirty.len(),
    decreases rank(n), 1nat, 0nat,
{
    lemma_pending_ok(ins, s, rank, n, 0);
    assert(ins[n as int].skip(0) =~= ins[n as int]);
    lemma_eval_inputs_len(ins, dirty, n, ins[n as int], s, rank);
}

/// Evaluation of inputs keeps the number of dirty flags.
pub proof fn lemma_eval_inputs_len(
    ins: Seq<Seq<InputPortView>>,
    dirty: Seq<bool>,
    n: usize,
    pending: Seq<InputPortView>,
    s: Set<usize>,
    rank: spec_fn(usize) -> nat,
)
    requires
        eval_ranked(ins, s, rank),
        pending_ok(pending, s, rank, n),
        dirty.len() == ins.len(),
    ensures
        eval_inputs(ins, dirty, n, pending, rank).0.len() == dirty.len(),
    decreases rank(n), 0nat, pending.len(),
{
    if pending.len() > 0 {
        let p = pending[0];
        let rest = pending.drop_first();
        assert(pending_ok(rest, s, rank, n)) by {
            assert forall|k: int| 0 <= k < rest.len() && (#[trigger] rest[k]).connection is Some
                implies s.contains(source(rest[k])) && rank(source(rest[k])) < rank(n) by {
                assert(rest[k] == pending[k + 1]);
            }
        }
        match p.connection {
            None => {
                lemma_eval_inputs_len(ins, dirty, n, rest, s, rank);
            },
            Some(c) => {
                assert(s.contains(source(pending[0])));
                lemma_eval_len(ins, dirty, c.node_id.0, s, rank);
                let d1 = eval_node(ins, dirty, c.node_id.0, rank).0;
                lemma_eval_inputs_len(ins, d1, n, rest, s, rank);
            },
        }
    }
}

/// `s` holds, with each node in it, the sources of that node's connected inputs.
pub open spec fn depends_closed(ins: Seq<Seq<InputPortView>>, s: Set<usize>) -> bool {
    forall|a: usize, k: int|
        s.contains(a) && a < ins.len() && 0 <= k < ins[a as int].len() && (
        #[trigger] ins[a as int][k]).connection is Some ==> s.contains(source(ins[a as int][k]))
}

/// `b` is `a` or one of the nodes whose output `a` takes, directly or
/// through others: every set closed under sources that holds `a` holds `b`.
pub open spec fn depends_on(ins: Seq<Seq<InputPortView>>, a: usize, b: usize) -> bool {
    forall|s: Set<usize>| #[trigger] depends_closed(ins, s) && s.contains(a) ==> s.contains(b)
}

/// `m` is one on which the source of a connected port of `pending` depends.
pub open spec fn feeds(ins: Seq<Seq<InputPortView>>, pending: Seq<InputPortView>, m: usize) -> bool {
    exists|k: int|
        0 <= k < pending.len() && (#[trigger] pending[k]).connection is Some && depends_on(
            ins,
            source(pending[k]),
            m,
        )
}

/// `steps` encodes node `m`.
pub open spec fn encodes(steps: Seq<StepView>, m: usize) -> bool {
    exists|i: int| 0 <= i < steps.len() && #[trigger] steps[i] == StepView::Encode(NodeId(m))
}

/// No node is encoded twice in `steps`.
pub open spec fn encodes_once(steps: Seq<StepView>) -> bool {
    forall|i: int, j: int|
        0 <= i < j < steps.len() && (#[trigger] steps[i]) is Encode ==> steps[i] != #[trigger] steps[j]
}

/// Going from flags `d` to `d2` by `steps`: flags only go from dirty to
/// clean; what `reached` holds of ends clean, the rest keeps its flag; the
/// steps encode exactly the nodes that went from dirty to clean, each once.
pub open spec fn cleans(
    d: Seq<bool>,
    d2: Seq<bool>,
    steps: Seq<StepView>,
    reached: spec_fn(usize) -> bool,
) -> bool {
    &&& d2.len() == d.len()
    &&& forall|m: usize| m < d.len() && #[trigger] d2[m as int] ==> d[m as int]
    &&& forall|m: usize| m < d.len() && !reached(m) ==> #[trigger] d2[m as int] == d[m as int]
    &&& forall|m: usize| m < d.len() && #[trigger] reached(m) ==> !d2[m as int]
    &&& forall|m: usize| #[trigger] encodes(steps, m) <==> (m < d.len() && d[m as int] && !d2[m as int])
    &&& encodes_once(steps)
}

/// Every node reaches itself.
pub proof fn lemma_depends_self(ins: Seq<Seq<InputPortView>>, a: usize)
    ensures
        depends_on(ins, a, a),
{
}

/// A node depends on what the sources of its inputs depend on.
pub proof fn lemma_depends_through(ins: Seq<Seq<InputPortView>>, a: usize, k: int, b: usize)
    requires
        a < ins.len(),
        0 <= k < ins[a as int].len(),
        ins[a as int][k].connection is Some,
        depends_on(ins, source(ins[a as int][k]), b),
    ensures
        depends_on(ins, a, b),
{
    assert forall|s: Set<usize>| #[trigger] depends_closed(ins, s) && s.contains(a) implies s.contains(b) by {
        assert(s.contains(source(ins[a as int][k])));
    }
}

proof fn lemma_depends_extend(ins: Seq<Seq<InputPortView>>, c: usize, x: usize, j: int)
    requires
        depends_on(ins, c, x),
        x < ins.len(),
        0 <= j < ins[x as int].len(),
        ins[x as int][j].connection is Some,
    ensures
        depends_on(ins, c, source(ins[x as int][j])),
{
    assert forall|s: Set<usize>| #[trigger] depends_closed(ins, s) && s.contains(c) implies s.contains(
        source(ins[x as int][j]),
    ) by {
        assert(s.contains(x));
    }
}

/// What a node depends on is the node itself or what the source of one of
/// its connected inputs depends on.
pub proof fn lemma_depends_split(ins: Seq<Seq<InputPortView>>, a: usize, b: usize)
    requires
        depends_on(ins, a, b),
    ensures
        b == a || (a < ins.len() && feeds(ins, ins[a as int], b)),
{
    let s = Set::new(|x: usize| x == a || (a < ins.len() && feeds(ins, ins[a as int], x)));
    assert forall|x: usize, j: int|
        s.contains(x) && x < ins.len() && 0 <= j < ins[x as int].len() && (
        #[trigger] ins[x as int][j]).connection is Some implies s.contains(source(ins[x as int][j])) by {
        let y = source(ins[x as int][j]);
        if x == a {
            lemma_depends_self(ins, y);
            assert(depends_on(ins, source(ins[a as int][j]), y));
        } else {
            let k = choose|k: int|
                0 <= k < ins[a as int].len() && (#[trigger] ins[a as int][k]).connection is Some
                    && depends_on(ins, source(ins[a as int][k]), x);
            lemma_depends_extend(ins, source(ins[a as int][k]), x, j);
        }
    }
    assert(depends_closed(ins, s));
    assert(s.contains(a));
}

proof fn lemma_encodes_concat(a: Seq<StepView>, b: Seq<StepView>, m: usize)
    ensures
        encodes(a + b, m) <==> encodes(a, m) || encodes(b, m),
{
    if encodes(a + b, m) {
        let i = choose|i: int| 0 <= i < (a + b).len() && #[trigger] (a + b)[i] == StepView::Encode(NodeId(m));
        if i >= a.len() {
            assert(b[i - a.len()] == (a + b)[i]);
        } else {
            assert(a[i] == (a + b)[i]);
        }
    }
    if encodes(a, m) {
        let i = choose|i: int| 0 <= i < a.len() && #[trigger] a[i] == StepView::Encode(NodeId(m));
        assert((a + b)[i] == a[i]);
    }
    if encodes(b, m) {
        let i = choose|i: int| 0 <= i < b.len() && #[trigger] b[i] == StepView::Encode(NodeId(m));
        assert((a + b)[a.len() + i] == b[i]);
    }
}

proof fn lemma_encodes_once_concat(a: Seq<StepView>, b: Seq<StepView>)
    requires
        encodes_once(a),
        encodes_once(b),
        forall|m: usize| !(#[trigger] encodes(a, m) && encodes(b, m)),
    ensures
        encodes_once(a + b),
{
    let c = a + b;
    assert forall|i: int, j: int|
        0 <= i < j < c.len() && (#[trigger] c[i]) is Encode implies c[i] != #[trigger] c[j] by {
        if j < a.len() {
            assert(c[i] == a[i] && c[j] == a[j]);
        } else if i >= a.len() {
            assert(c[i] == b[i - a.len()] && c[j] == b[j - a.len()]);
        } else {
            let m = c[i]->Encode_0.0;
            assert(c[i] == a[i]);
            assert(c[j] == b[j - a.len()]);
            if c[i] == c[j] {
                assert(encodes(a, m));
                assert(encodes(b, m));
            }
        }
    }
}

proof fn lemma_bridge_step(a: Seq<StepView>, x: StepView)
    requires
        x is Bridge,
    ensures
        forall|m: usize| #[trigger] encodes(a.push(x), m) <==> encodes(a, m),
        encodes_once(a) ==> encodes_once(a.push(x)),
{
    assert forall|m: usize| #[trigger] encodes(a.push(x), m) <==> encodes(a, m) by {
        if encodes(a.push(x), m) {
            let i = choose|i: int| 0 <= i < a.push(x).len() && #[trigger] a.push(x)[i] == StepView::Encode(NodeId(m));
            assert(a[i] == a.push(x)[i]);
        }
        if encodes(a, m) {
            let i = choose|i: int| 0 <= i < a.len() && #[trigger] a[i] == StepView::Encode(NodeId(m));
            assert(a.push(x)[i] == a[i]);
        }
    }
    if encodes_once(a) {
        let c = a.push(x);
        assert forall|i: int, j: int|
            0 <= i < j < c.len() && (#[trigger] c[i]) is Encode implies c[i] != #[trigger] c[j] by {
            assert(c[i] == a[i]);
            if j < a.len() {
                assert(c[j] == a[j]);
            }
        }
    }
}

proof fn lemma_encode_step(a: Seq<StepView>, n: usize)
    requires
        !encodes(a, n),
    ensures
        forall|m: usize| #[trigger] encodes(a.push(StepView::Encode(NodeId(n))), m) <==> (encodes(a, m) || m == n),
        encodes_once(a) ==> encodes_once(a.push(StepView::Encode(NodeId(n)))),
{
    let x = StepView::Encode(NodeId(n));
    let c = a.push(x);
    assert forall|m: usize| #[trigger] encodes(c, m) <==> (encodes(a, m) || m == n) by {
        if encodes(c, m) {
            let i = choose|i: int| 0 <= i < c.len() && #[trigger] c[i] == StepView::Encode(NodeId(m));
            if i < a.len() {
                assert(a[i] == c[i]);
            }
        }
        if encodes(a, m) {
            let i = choose|i: int| 0 <= i < a.len() && #[trigger] a[i] == StepView::Encode(NodeId(m));
            assert(c[i] == a[i]);
        }
        if m == n {
            assert(c[a.len() as int] == x);
        }
    }
    if encodes_once(a) {
        assert forall|i: int, j: int|
            0 <= i < j < c.len() && (#[trigger] c[i]) is Encode implies c[i] != #[trigger] c[j] by {
            assert(c[i] == a[i]);
            if j < a.len() {
                assert(c[j] == a[j]);
            } else if c[i] == c[j] {
                assert(encodes(a, n));
            }
        }
    }
}

/// Evaluating node `n` cleans exactly the dirty nodes that `n` depends on
/// (itself included), leaves the other flags alone, and encodes each node
/// that it cleans, once.
pub proof fn lemma_eval_cleans(
    ins: Seq<Seq<InputPortView>>,
    d: Seq<bool>,
    n: usize,
    s: Set<usize>,
    rank: spec_fn(usize) -> nat,
)
    requires
        eval_ranked(ins, s, rank),
        s.contains(n),
        d.len() == ins.len(),
    ensures
        cleans(
            d,
            eval_node(ins, d, n, rank).0,
            eval_node(ins, d, n, rank).1,
            |m: usize| depends_on(ins, n, m),
        ),
    decreases rank(n), 1nat, 0nat,
{
    lemma_pending_ok(ins, s, rank, n, 0);
    assert(ins[n as int].skip(0) =~= ins[n as int]);
    lemma_eval_inputs_cleans(ins, d, n, ins[n as int], s, rank);
    let (d1, s1) = eval_inputs(ins, d, n, ins[n as int], rank);
    let (d2, s2) = eval_node(ins, d, n, rank);
    let reached = |m: usize| depends_on(ins, n, m);
    let fed = |m: usize| feeds(ins, ins[n as int], m);
    lemma_depends_self(ins, n);
    assert forall|m: usize| #[trigger] fed(m) implies reached(m) by {
        let k = choose|k: int|
            0 <= k < ins[n as int].len() && (#[trigger] ins[n as int][k]).connection is Some
                && depends_on(ins, source(ins[n as int][k]), m);
        lemma_depends_through(ins, n, k, m);
    }
    assert forall|m: usize| #[trigger] reached(m) && m != n implies fed(m) by {
        lemma_depends_split(ins, n, m);
    }
    if d1[n as int] {
        lemma_encode_step(s1, n);
    }
    assert(cleans(d, d2, s2, reached));
}

/// Evaluating the inputs `pending` of `n` cleans exactly the dirty nodes that
/// their sources depend on, leaves the other flags alone, and encodes each
/// node that it cleans, once.
pub proof fn lemma_eval_inputs_cleans(
    ins: Seq<Seq<InputPortView>>,
    d: Seq<bool>,
    n: usize,
    pending: Seq<InputPortView>,
    s: Set<usize>,
    rank: spec_fn(usize) -> nat,
)
    requires
        eval_ranked(ins, s, rank),
        pending_ok(pending, s, rank, n),
        d.len() == ins.len(),
    ensures
        cleans(
            d,
            eval_inputs(ins, d, n, pending, rank).0,
            eval_inputs(ins, d, n, pending, rank).1,
            |m: usize| feeds(ins, pending, m),
        ),
    decreases rank(n), 0nat, pending.len(),
{
    let reached = |m: usize| feeds(ins, pending, m);
    if pending.len() == 0 {
        assert forall|m: usize| #[trigger] encodes(Seq::<StepView>::empty(), m) <==> (m < d.len()
            && d[m as int] && !d[m as int]) by {
        }
        assert(cleans(d, d, Seq::empty(), reached));
    } else {
        let p = pending[0];
        let rest = pending.drop_first();
        assert(pending_ok(rest, s, rank, n)) by {
            assert forall|k: int| 0 <= k < rest.len() && (#[trigger] rest[k]).connection is Some
                implies s.contains(source(rest[k])) && rank(source(rest[k])) < rank(n) by {
                assert(rest[k] == pending[k + 1]);
            }
        }
        let fed_rest = |m: usize| feeds(ins, rest, m);
        assert forall|m: usize| #[trigger] fed_rest(m) implies reached(m) by {
            let k = choose|k: int|
                0 <= k < rest.len() && (#[trigger] rest[k]).connection is Some && depends_on(
                    ins,
                    source(rest[k]),
                    m,
                );
            assert(pending[k + 1] == rest[k]);
        }
        match p.connection {
            None => {
                lemma_eval_inputs_cleans(ins, d, n, rest, s, rank);
                assert forall|m: usize| #[trigger] reached(m) implies fed_rest(m) by {
                    let k = choose|k: int|
                        0 <= k < pending.len() && (#[trigger] pending[k]).connection is Some
                            && depends_on(ins, source(pending[k]), m);
                    assert(rest[k - 1] == pending[k]);
                }
                let (d2, s2) = eval_inputs(ins, d, n, rest, rank);
                assert(cleans(d, d2, s2, reached));
            },
            Some(c) => {
                let src = c.node_id.0;
                assert(s.contains(source(pending[0])));
                lemma_eval_cleans(ins, d, src, s, rank);
                let (d1, s1) = eval_node(ins, d, src, rank);
                lemma_eval_inputs_cleans(ins, d1, n, rest, s, rank);
                let (d2, s2) = eval_inputs(ins, d1, n, rest, rank);
                let bridge = bridge_of(n, p);
                let st = s1.push(bridge) + s2;
                let dep_c = |m: usize| depends_on(ins, src, m);
                assert forall|m: usize| #[trigger] dep_c(m) implies reached(m) by {
                    assert(pending[0].connection is Some);
                }
                assert forall|m: usize| #[trigger] reached(m) implies dep_c(m) || fed_rest(m) by {
                    let k = choose|k: int|
                        0 <= k < pending.len() && (#[trigger] pending[k]).connection is Some
                            && depends_on(ins, source(pending[k]), m);
                    if k > 0 {
                        assert(rest[k - 1] == pending[k]);
                    }
                }
                lemma_bridge_step(s1, bridge);
                assert forall|m: usize| #[trigger] encodes(st, m) <==> (m < d.len() && d[m as int]
                    && !d2[m as int]) by {
                    lemma_encodes_concat(s1.push(bridge), s2, m);
                }
                assert forall|m: usize| !(#[trigger] encodes(s1.push(bridge), m) && encodes(s2, m)) by {
                }
                lemma_encodes_once_concat(s1.push(bridge), s2);
                assert(eval_inputs(ins, d, n, pending, rank) == (d2, st));
                assert(cleans(d, d2, st, reached));
            },
        }
    }
}

/// In `steps`, a node is encoded only after every node that it depends on
/// and that was dirty under flags `d`.
pub open spec fn deps_first(ins: Seq<Seq<InputPortView>>, d: Seq<bool>, steps: Seq<StepView>) -> bool {
    forall|i: int, a: usize, b: usize|
        #![trigger steps[i], depends_on(ins, a, b)]
        0 <= i < steps.len() && steps[i] == StepView::Encode(NodeId(a)) && b != a && depends_on(
            ins,
            a,
            b,
        ) && b < d.len() && d[b as int] ==> exists|j: int|
            0 <= j < i && #[trigger] steps[j] == StepView::Encode(NodeId(b))
}

/// Evaluating a node encodes every node after the dirty nodes it depends on.
pub proof fn lemma_eval_deps_first(
    ins: Seq<Seq<InputPortView>>,
    d: Seq<bool>,
    n: usize,
    s: Set<usize>,
    rank: spec_fn(usize) -> nat,
)
    requires
        eval_ranked(ins, s, rank),
        s.contains(n),
        d.len() == ins.len(),
    ensures
        deps_first(ins, d, eval_node(ins, d, n, rank).1),
    decreases rank(n), 1nat, 0nat,
{
    lemma_pending_ok(ins, s, rank, n, 0);
    assert(ins[n as int].skip(0) =~= ins[n as int]);
    lemma_eval_inputs_cleans(ins, d, n, ins[n as int], s, rank);
    lemma_eval_inputs_deps_first(ins, d, n, ins[n as int], s, rank);
    let (d1, s1) = eval_inputs(ins, d, n, ins[n as int], rank);
    let st = eval_node(ins, d, n, rank).1;
    assert forall|i: int, a: usize, b: usize|
        #![trigger st[i], depends_on(ins, a, b)]
        0 <= i < st.len() && st[i] == StepView::Encode(NodeId(a)) && b != a && depends_on(ins, a, b)
            && b < d.len() && d[b as int] implies exists|j: int|
        0 <= j < i && #[trigger] st[j] == StepView::Encode(NodeId(b)) by {
        if i < s1.len() {
            assert(st[i] == s1[i]);
            let j = choose|j: int| 0 <= j < i && #[trigger] s1[j] == StepView::Encode(NodeId(b));
            assert(st[j] == s1[j]);
        } else {
            assert(a == n);
            lemma_depends_split(ins, n, b);
            assert((|m: usize| feeds(ins, ins[n as int], m))(b));
            assert(encodes(s1, b));
            let j = choose|j: int| 0 <= j < s1.len() && #[trigger] s1[j] == StepView::Encode(NodeId(b));
            assert(st[j] == s1[j]);
        }
    }
}

/// Evaluating inputs encodes every node after the dirty nodes it depends on.
pub proof fn lemma_eval_inputs_deps_first(
    ins: Seq<Seq<InputPortView>>,
    d: Seq<bool>,
    n: usize,
    pending: Seq<InputPortView>,
    s: Set<usize>,
    rank: spec_fn(usize) -> nat,
)
    requires
        eval_ranked(ins, s, rank),
        pending_ok(pending, s, rank, n),
        d.len() == ins.len(),
    ensures
        deps_first(ins, d, eval_inputs(ins, d, n, pending, rank).1),
    decreases rank(n), 0nat, pending.len(),
{
    if pending.len() > 0 {
        let p = pending[0];
        let rest = pending.drop_first();
        assert(pending_ok(rest, s, rank, n)) by {
            assert forall|k: int| 0 <= k < rest.len() && (#[trigger] rest[k]).connection is Some
                implies s.contains(source(rest[k])) && rank(source(rest[k])) < rank(n) by {
                assert(rest[k] == pending[k + 1]);
            }
        }
        match p.connection {
            None => {
                lemma_eval_inputs_deps_first(ins, d, n, rest, s, rank);
            },
            Some(c) => {
                let src = c.node_id.0;
                assert(s.contains(source(pending[0])));
                lemma_eval_cleans(ins, d, src, s, rank);
                lemma_eval_deps_first(ins, d, src, s, rank);
                let (d1, s1) = eval_node(ins, d, src, rank);
                lemma_eval_inputs_deps_first(ins, d1, n, rest, s, rank);
                let (d2, s2) = eval_inputs(ins, d1, n, rest, rank);
                let bridge = bridge_of(n, p);
                let st = s1.push(bridge) + s2;
                assert(eval_inputs(ins, d, n, pending, rank).1 == st);
                assert forall|i: int, a: usize, b: usize|
                    #![trigger st[i], depends_on(ins, a, b)]
                    0 <= i < st.len() && st[i] == StepView::Encode(NodeId(a)) && b != a && depends_on(
                        ins,
                        a,
                        b,
                    ) && b < d.len() && d[b as int] implies exists|j: int|
                    0 <= j < i && #[trigger] st[j] == StepView::Encode(NodeId(b)) by {
                    if i < s1.len() {
                        assert(st[i] == s1[i]);
                        let j = choose|j: int| 0 <= j < i && #[trigger] s1[j] == StepView::Encode(NodeId(b));
                        assert(st[j] == s1[j]);
                    } else if i == s1.len() {
                        assert(st[i] == bridge);
                    } else {
                        let i2 = i - s1.len() - 1;
                        assert(st[i] == s2[i2]);
                        if d1[b as int] {
                            let j2 = choose|j: int| 0 <= j < i2 && #[trigger] s2[j] == StepView::Encode(NodeId(b));
                            assert(st[j2 + s1.len() + 1] == s2[j2]);
                        } else {
                            assert(encodes(s1, b));
                            let j = choose|j: int| 0 <= j < s1.len() && #[trigger] s1[j] == StepView::Encode(NodeId(b));
                            assert(st[j] == s1[j]);
                        }
                    }
                }
            },
        }
    }
}

/// In `steps`, every node is encoded after each of its connected inputs has
/// been handed the output it takes.
pub open spec fn inputs_bridged(ins: Seq<Seq<InputPortView>>, steps: Seq<StepView>) -> bool {
    forall|i: int, a: usize, k: int|
        #![trigger steps[i], ins[a as int][k]]
        0 <= i < steps.len() && steps[i] == StepView::Encode(NodeId(a)) && a < ins.len() && 0 <= k
            < ins[a as int].len() && ins[a as int][k].connection is Some ==> exists|j: int|
            0 <= j < i && #[trigger] steps[j] == bridge_of(a, ins[a as int][k])
}

/// The node whose output a bridge step hands on.
pub open spec fn bridge_source(step: StepView) -> usize {
    step->from.node_id.0
}

/// Under flags `d`, the source of every bridge step of `steps` is clean.
pub open spec fn sources_clean(d: Seq<bool>, steps: Seq<StepView>) -> bool {
    forall|j: int|
        0 <= j < steps.len() && (#[trigger] steps[j]) is Bridge ==> bridge_source(steps[j]) < d.len()
            && !d[bridge_source(steps[j]) as int]
}

/// In `steps`, no node is encoded after its output has been handed on.
pub open spec fn no_encode_after_bridge(steps: Seq<StepView>) -> bool {
    forall|j: int, k: int|
        0 <= j < k < steps.len() && (#[trigger] steps[j]) is Bridge ==> #[trigger] steps[k]
            != StepView::Encode(NodeId(bridge_source(steps[j])))
}

/// Evaluating a node bridges every input before encoding its node, only
/// hands on outputs of clean nodes, and never encodes a node after handing
/// on its output.
pub proof fn lemma_eval_bridges(
    ins: Seq<Seq<InputPortView>>,
    d: Seq<bool>,
    n: usize,
    s: Set<usize>,
    rank: spec_fn(usize) -> nat,
)
    requires
        eval_ranked(ins, s, rank),
        s.contains(n),
        d.len() == ins.len(),
    ensures
        inputs_bridged(ins, eval_node(ins, d, n, rank).1),
        sources_clean(eval_node(ins, d, n, rank).0, eval_node(ins, d, n, rank).1),
        no_encode_after_bridge(eval_node(ins, d, n, rank).1),
    decreases rank(n), 1nat, 0nat,
{
    lemma_pending_ok(ins, s, rank, n, 0);
    assert(ins[n as int].skip(0) =~= ins[n as int]);
    lemma_eval_inputs_cleans(ins, d, n, ins[n as int], s, rank);
    lemma_eval_inputs_bridges(ins, d, n, ins[n as int], s, rank);
    let (d1, s1) = eval_inputs(ins, d, n, ins[n as int], rank);
    let (d2, st) = eval_node(ins, d, n, rank);
    if d1[n as int] {
        let e = StepView::Encode(NodeId(n));
        assert(st == s1.push(e));
        assert forall|i: int, a: usize, k: int|
            #![trigger st[i], ins[a as int][k]]
            0 <= i < st.len() && st[i] == StepView::Encode(NodeId(a)) && a < ins.len() && 0 <= k
                < ins[a as int].len() && ins[a as int][k].connection is Some implies exists|j: int|
            0 <= j < i && #[trigger] st[j] == bridge_of(a, ins[a as int][k]) by {
            if i < s1.len() {
                assert(st[i] == s1[i]);
                let j = choose|j: int| 0 <= j < i && #[trigger] s1[j] == bridge_of(a, ins[a as int][k]);
                assert(st[j] == s1[j]);
            } else {
                assert(a == n);
                assert(s1.contains(bridge_of(n, ins[n as int][k])));
                let j = choose|j: int| 0 <= j < s1.len() && s1[j] == bridge_of(n, ins[n as int][k]);
                assert(st[j] == s1[j]);
            }
        }
        assert forall|j: int| 0 <= j < st.len() && (#[trigger] st[j]) is Bridge implies bridge_source(
            st[j],
        ) < d2.len() && !d2[bridge_source(st[j]) as int] by {
            assert(st[j] == s1[j]);
        }
        assert forall|j: int, k: int| 0 <= j < k < st.len() && (#[trigger] st[j]) is Bridge implies #[trigger] st[k]
            != StepView::Encode(NodeId(bridge_source(st[j]))) by {
            assert(st[j] == s1[j]);
            if k < s1.len() {
                assert(st[k] == s1[k]);
            }
        }
    }
}

/// Evaluating inputs bridges each connected one of them, and bridges every
/// input before encoding its node, only hands on outputs of clean nodes, and
/// never encodes a node after handing on its output.
pub proof fn lemma_eval_inputs_bridges(
    ins: Seq<Seq<InputPortView>>,
    d: Seq<bool>,
    n: usize,
    pending: Seq<InputPortView>,
    s: Set<usize>,
    rank: spec_fn(usize) -> nat,
)
    requires
        eval_ranked(ins, s, rank),
        pending_ok(pending, s, rank, n),
        d.len() == ins.len(),
    ensures
        inputs_bridged(ins, eval_inputs(ins, d, n, pending, rank).1),
        sources_clean(eval_inputs(ins, d, n, pending, rank).0, eval_inputs(ins, d, n, pending, rank).1),
        no_encode_after_bridge(eval_inputs(ins, d, n, pending, rank).1),
        forall|k: int|
            0 <= k < pending.len() && (#[trigger] pending[k]).connection is Some ==> eval_inputs(
                ins,
                d,
                n,
                pending,
                rank,
            ).1.contains(bridge_of(n, pending[k])),
    decreases rank(n), 0nat, pending.len(),
{
    if pending.len() > 0 {
        let p = pending[0];
        let rest = pending.drop_first();
        assert(pending_ok(rest, s, rank, n)) by {
            assert forall|k: int| 0 <= k < rest.len() && (#[trigger] rest[k]).connection is Some
                implies s.contains(source(rest[k])) && rank(source(rest[k])) < rank(n) by {
                assert(rest[k] == pending[k + 1]);
            }
        }
        match p.connection {
            None => {
                lemma_eval_inputs_bridges(ins, d, n, rest, s, rank);
                let st = eval_inputs(ins, d, n, rest, rank).1;
                assert forall|k: int|
                    0 <= k < pending.len() && (#[trigger] pending[k]).connection is Some implies st.contains(
                    bridge_of(n, pending[k]),
                ) by {
                    assert(rest[k - 1] == pending[k]);
                }
            },
            Some(c) => {
                let src = c.node_id.0;
                assert(s.contains(source(pending[0])));
                lemma_eval_cleans(ins, d, src, s, rank);
                lemma_eval_bridges(ins, d, src, s, rank);
                let (d1, s1) = eval_node(ins, d, src, rank);
                lemma_eval_inputs_cleans(ins, d1, n, rest, s, rank);
                lemma_eval_inputs_bridges(ins, d1, n, rest, s, rank);
                let (d2, s2) = eval_inputs(ins, d1, n, rest, rank);
                let b = bridge_of(n, p);
                let st = s1.push(b) + s2;
                let m = s1.len() as int;
                assert(eval_inputs(ins, d, n, pending, rank) == (d2, st));
                lemma_depends_self(ins, src);
                assert((|x: usize| depends_on(ins, src, x))(src));
                assert(!d1[src as int]);
                assert(st[m] == b);
                assert forall|i: int| 0 <= i < s1.len() implies #[trigger] st[i] == s1[i] by {}
                assert forall|i: int| 0 <= i < s2.len() implies #[trigger] st[m + 1 + i] == s2[i] by {}
                assert forall|i: int, a: usize, k: int|
                    #![trigger st[i], ins[a as int][k]]
                    0 <= i < st.len() && st[i] == StepView::Encode(NodeId(a)) && a < ins.len() && 0 <= k
                        < ins[a as int].len() && ins[a as int][k].connection is Some implies exists|j: int|
                    0 <= j < i && #[trigger] st[j] == bridge_of(a, ins[a as int][k]) by {
                    if i < m {
                        assert(st[i] == s1[i]);
                        let j = choose|j: int| 0 <= j < i && #[trigger] s1[j] == bridge_of(a, ins[a as int][k]);
                        assert(st[j] == s1[j]);
                    } else if i > m {
                        let i2 = i - m - 1;
                        assert(st[i] == s2[i2]);
                        let j2 = choose|j: int| 0 <= j < i2 && #[trigger] s2[j] == bridge_of(a, ins[a as int][k]);
                        assert(st[m + 1 + j2] == s2[j2]);
                    }
                }
                assert forall|j: int| 0 <= j < st.len() && (#[trigger] st[j]) is Bridge implies bridge_source(
                    st[j],
                ) < d2.len() && !d2[bridge_source(st[j]) as int] by {
                    if j < m {
                        assert(st[j] == s1[j]);
                        assert(!d1[bridge_source(s1[j]) as int]);
                    } else if j > m {
                        assert(st[j] == s2[j - m - 1]);
                    }
                }
                assert forall|j: int, k: int| 0 <= j < k < st.len() && (#[trigger] st[j]) is Bridge implies #[trigger] st[k]
                    != StepView::Encode(NodeId(bridge_source(st[j]))) by {
                    let x = bridge_source(st[j]);
                    if k > m {
                        let k2 = k - m - 1;
                        assert(st[k] == s2[k2]);
                        if j > m {
                            assert(st[j] == s2[j - m - 1]);
                        } else {
                            if j < m {
                                assert(st[j] == s1[j]);
                                assert(!d1[x as int]);
                            }
                            if st[k] == StepView::Encode(NodeId(x)) {
                                assert(encodes(s2, x));
                            }
                        }
                    } else if k < m {
                        assert(st[j] == s1[j]);
                        assert(st[k] == s1[k]);
                    }
                }
                assert forall|k: int|
                    0 <= k < pending.len() && (#[trigger] pending[k]).connection is Some implies st.contains(
                    bridge_of(n, pending[k]),
                ) by {
                    if k == 0 {
                        assert(st[m] == bridge_of(n, pending[0]));
                    } else {
                        assert(rest[k - 1] == pending[k]);
                        let j2 = choose|j: int| 0 <= j < s2.len() && s2[j] == bridge_of(n, rest[k - 1]);
                        assert(st[m + 1 + j2] == s2[j2]);
                    }
                }
            },
        }
    }
}

/// Every bridge step of `steps` hands on the output that some connected input
/// of some node takes, to that input.
pub open spec fn bridges_genuine(ins: Seq<Seq<InputPortView>>, steps: Seq<StepView>) -> bool {
    forall|j: int|
        0 <= j < steps.len() && (#[trigger] steps[j]) is Bridge ==> exists|a: usize, k: int|
            a < ins.len() && 0 <= k < ins[a as int].len() && (#[trigger] ins[a as int][k]).connection
                is Some && steps[j] == bridge_of(a, ins[a as int][k])
}

/// Evaluating a node makes only bridge steps for connected inputs.
pub proof fn lemma_eval_bridges_genuine(
    ins: Seq<Seq<InputPortView>>,
    d: Seq<bool>,
    n: usize,
    s: Set<usize>,
    rank: spec_fn(usize) -> nat,
)
    requires
        eval_ranked(ins, s, rank),
        s.contains(n),
        d.len() == ins.len(),
    ensures
        bridges_genuine(ins, eval_node(ins, d, n, rank).1),
    decreases rank(n), 1nat, 0nat,
{
    lemma_pending_ok(ins, s, rank, n, 0);
    assert(ins[n as int].skip(0) =~= ins[n as int]);
    lemma_eval_inputs_bridges_genuine(ins, d, n, 0, s, rank);
    let (d1, s1) = eval_inputs(ins, d, n, ins[n as int], rank);
    let st = eval_node(ins, d, n, rank).1;
    assert forall|j: int| 0 <= j < st.len() && (#[trigger] st[j]) is Bridge implies exists|a: usize, k: int|
        a < ins.len() && 0 <= k < ins[a as int].len() && (#[trigger] ins[a as int][k]).connection is Some
            && st[j] == bridge_of(a, ins[a as int][k]) by {
        assert(st[j] == s1[j]);
    }
}

/// Evaluating the inputs of `n` from position `off` on makes only bridge
/// steps for connected inputs.
pub proof fn lemma_eval_inputs_bridges_genuine(
    ins: Seq<Seq<InputPortView>>,
    d: Seq<bool>,
    n: usize,
    off: int,
    s: Set<usize>,
    rank: spec_fn(usize) -> nat,
)
    requires
        eval_ranked(ins, s, rank),
        s.contains(n),
        0 <= off <= ins[n as int].len(),
        d.len() == ins.len(),
    ensures
        bridges_genuine(ins, eval_inputs(ins, d, n, ins[n as int].skip(off), rank).1),
    decreases rank(n), 0nat, ins[n as int].len() - off,
{
    let pending = ins[n as int].skip(off);
    lemma_pending_ok(ins, s, rank, n, off);
    if pending.len() > 0 {
        let p = pending[0];
        let rest = pending.drop_first();
        assert(rest =~= ins[n as int].skip(off + 1));
        assert(p == ins[n as int][off]);
        match p.connection {
            None => {
                lemma_eval_inputs_bridges_genuine(ins, d, n, off + 1, s, rank);
            },
            Some(c) => {
                let src = c.node_id.0;
                assert(s.contains(source(pending[0])));
                lemma_eval_bridges_genuine(ins, d, src, s, rank);
                lemma_eval_len(ins, d, src, s, rank);
                let (d1, s1) = eval_node(ins, d, src, rank);
                lemma_eval_inputs_bridges_genuine(ins, d1, n, off + 1, s, rank);
                let (d2, s2) = eval_inputs(ins, d1, n, rest, rank);
                let b = bridge_of(n, p);
                let st = s1.push(b) + s2;
                let m = s1.len() as int;
                assert(eval_inputs(ins, d, n, pending, rank).1 == st);
                assert(n < ins.len());
                assert forall|j: int| 0 <= j < st.len() && (#[trigger] st[j]) is Bridge implies exists|a: usize, k: int|
                    a < ins.len() && 0 <= k < ins[a as int].len() && (#[trigger] ins[a as int][k]).connection
                        is Some && st[j] == bridge_of(a, ins[a as int][k]) by {
                    if j < m {
                        assert(st[j] == s1[j]);
                    } else if j == m {
                        assert(st[j] == bridge_of(n, ins[n as int][off]));
                        assert(ins[n as int][off].connection is Some);
                    } else {
                        assert(st[j] == s2[j - m - 1]);
                    }
                }
            },
        }
    }
}

/// Evaluation does not depend on the ranking that shows that it ends.
pub proof fn lemma_eval_rank_free(
    ins: Seq<Seq<InputPortView>>,
    d: Seq<bool>,
    n: usize,
    s1: Set<usize>,
    r1: spec_fn(usize) -> nat,
    s2: Set<usize>,
    r2: spec_fn(usize) -> nat,
)
    requires
        eval_ranked(ins, s1, r1),
        s1.contains(n),
        eval_ranked(ins, s2, r2),
        s2.contains(n),
        d.len() == ins.len(),
    ensures
        eval_node(ins, d, n, r1) == eval_node(ins, d, n, r2),
    decreases r1(n), 1nat, 0nat,
{
    lemma_pending_ok(ins, s1, r1, n, 0);
    lemma_pending_ok(ins, s2, r2, n, 0);
    assert(ins[n as int].skip(0) =~= ins[n as int]);
    lemma_eval_inputs_rank_free(ins, d, n, ins[n as int], s1, r1, s2, r2);
}

/// Evaluation of inputs does not depend on the ranking that shows that it ends.
pub proof fn lemma_eval_inputs_rank_free(
    ins: Seq<Seq<InputPortView>>,
    d: Seq<bool>,
    n: usize,
    pending: Seq<InputPortView>,
    s1: Set<usize>,
    r1: spec_fn(usize) -> nat,
    s2: Set<usize>,
    r2: spec_fn(usize) -> nat,
)
    requires
        eval_ranked(ins, s1, r1),
        pending_ok(pending, s1, r1, n),
        eval_ranked(ins, s2, r2),
        pending_ok(pending, s2, r2, n),
        d.len() == ins.len(),
    ensures
        eval_inputs(ins, d, n, pending, r1) == eval_inputs(ins, d, n, pending, r2),
    decreases r1(n), 0nat, pending.len(),
{
    if pending.len() > 0 {
        let p = pending[0];
        let rest = pending.drop_first();
        assert(pending_ok(rest, s1, r1, n) && pending_ok(rest, s2, r2, n)) by {
            assert forall|k: int| 0 <= k < rest.len() && (#[trigger] rest[k]).connection is Some
                implies s1.contains(source(rest[k])) && r1(source(rest[k])) < r1(n) && s2.contains(
                source(rest[k]),
            ) && r2(source(rest[k])) < r2(n) by {
                assert(rest[k] == pending[k + 1]);
            }
        }
        match p.connection {
            None => {
                lemma_eval_inputs_rank_free(ins, d, n, rest, s1, r1, s2, r2);
            },
            Some(c) => {
                let src = c.node_id.0;
                assert(s1.contains(source(pending[0])) && s2.contains(source(pending[0])));
                lemma_eval_rank_free(ins, d, src, s1, r1, s2, r2);
                lemma_eval_len(ins, d, src, s1, r1);
                let d1 = eval_node(ins, d, src, r1).0;
                lemma_eval_inputs_rank_free(ins, d1, n, rest, s1, r1, s2, r2);
            },
        }
    }
}

/// Evaluation cleans every node that `start` depends on (itself included)
/// and leaves the dirty flag of every other node as it was.
pub proof fn law_evaluation_cleans_dependencies(
    ins: Seq<Seq<InputPortView>>,
    dirty: Seq<bool>,
    start: usize,
)
    requires
        evaluable(ins, start),
        dirty.len() == ins.len(),
    ensures
        evaluation(ins, dirty, start).0.len() == dirty.len(),
        forall|m: usize|
            m < dirty.len() ==> (#[trigger] evaluation(ins, dirty, start).0[m as int] == (dirty[m as int]
                && !depends_on(ins, start, m))),
{
    let (s, rank) = eval_witness(ins, start);
    lemma_eval_cleans(ins, dirty, start, s, rank);
    let d2 = evaluation(ins, dirty, start).0;
    assert forall|m: usize| m < dirty.len() implies (#[trigger] d2[m as int] == (dirty[m as int]
        && !depends_on(ins, start, m))) by {
        if depends_on(ins, start, m) {
            assert((|x: usize| depends_on(ins, start, x))(m));
        } else {
            assert(!(|x: usize| depends_on(ins, start, x))(m));
        }
    }
}

/// Evaluation encodes exactly the dirty nodes that `start` depends on
/// (itself included), each of them once.
pub proof fn law_evaluation_encodes_dirty_dependencies(
    ins: Seq<Seq<InputPortView>>,
    dirty: Seq<bool>,
    start: usize,
)
    requires
        evaluable(ins, start),
        dirty.len() == ins.len(),
    ensures
        forall|m: usize|
            #[trigger] encodes(evaluation(ins, dirty, start).1, m) <==> (m < dirty.len()
                && dirty[m as int] && depends_on(ins, start, m)),
        encodes_once(evaluation(ins, dirty, start).1),
{
    let (s, rank) = eval_witness(ins, start);
    lemma_eval_cleans(ins, dirty, start, s, rank);
    law_evaluation_cleans_dependencies(ins, dirty, start);
    let d2 = evaluation(ins, dirty, start).0;
    assert forall|m: usize|
        #[trigger] encodes(evaluation(ins, dirty, start).1, m) <==> (m < dirty.len() && dirty[m as int]
            && depends_on(ins, start, m)) by {
        if m < dirty.len() {
            assert(d2[m as int] == (dirty[m as int] && !depends_on(ins, start, m)));
        }
    }
}

/// Evaluation encodes a node only after every dirty node that it depends on.
pub proof fn law_evaluation_dependencies_first(
    ins: Seq<Seq<InputPortView>>,
    dirty: Seq<bool>,
    start: usize,
)
    requires
        evaluable(ins, start),
        dirty.len() == ins.len(),
    ensures
        deps_first(ins, dirty, evaluation(ins, dirty, start).1),
{
    let (s, rank) = eval_witness(ins, start);
    lemma_eval_deps_first(ins, dirty, start, s, rank);
}

/// Evaluating the same node again right away encodes nothing and changes no
/// flag.
pub proof fn law_evaluation_settles(ins: Seq<Seq<InputPortView>>, dirty: Seq<bool>, start: usize)
    requires
        evaluable(ins, start),
        dirty.len() == ins.len(),
        ins.len() <= usize::MAX,
    ensures
        evaluation(ins, evaluation(ins, dirty, start).0, start).0 == evaluation(ins, dirty, start).0,
        forall|m: usize| !#[trigger] encodes(evaluation(ins, evaluation(ins, dirty, start).0, start).1, m),
{
    let d1 = evaluation(ins, dirty, start).0;
    law_evaluation_cleans_dependencies(ins, dirty, start);
    law_evaluation_cleans_dependencies(ins, d1, start);
    law_evaluation_encodes_dirty_dependencies(ins, d1, start);
    let d2 = evaluation(ins, d1, start).0;
    assert forall|i: int| 0 <= i < d1.len() implies d2[i] == d1[i] by {
        let m = i as usize;
        assert(d2[m as int] == (d1[m as int] && !depends_on(ins, start, m)));
        assert(d1[m as int] == (dirty[m as int] && !depends_on(ins, start, m)));
    }
    assert(d2 =~= d1);
    assert forall|m: usize| !#[trigger] encodes(evaluation(ins, d1, start).1, m) by {
        if m < d1.len() {
            assert(d1[m as int] == (dirty[m as int] && !depends_on(ins, start, m)));
        }
    }
}

/// Evaluation encodes a node only after each of its connected inputs has
/// been handed the output it takes, and never encodes a node after handing
/// its output on: each input is handed the output of its source as it
/// stands at the end of the evaluation, when the source is clean.
pub proof fn law_evaluation_bridges_fresh_inputs(
    ins: Seq<Seq<InputPortView>>,
    dirty: Seq<bool>,
    start: usize,
)
    requires
        evaluable(ins, start),
        dirty.len() == ins.len(),
    ensures
        inputs_bridged(ins, evaluation(ins, dirty, start).1),
        no_encode_after_bridge(evaluation(ins, dirty, start).1),
        sources_clean(evaluation(ins, dirty, start).0, evaluation(ins, dirty, start).1),
{
    let (s, rank) = eval_witness(ins, start);
    lemma_eval_bridges(ins, dirty, start, s, rank);
}

/// The outcome of [`evaluation`] is that of the traversal under any ranking
/// that shows that evaluation from `start` ends.
pub proof fn law_evaluation_is_rank_free(
    ins: Seq<Seq<InputPortView>>,
    dirty: Seq<bool>,
    start: usize,
    s: Set<usize>,
    rank: spec_fn(usize) -> nat,
)
    requires
        eval_ranked(ins, s, rank),
        s.contains(start),
        dirty.len() == ins.len(),
    ensures
        evaluation(ins, dirty, start) == eval_node(ins, dirty, start, rank),
{
    let (s0, r0) = eval_witness(ins, start);
    lemma_eval_rank_free(ins, dirty, start, s0, r0, s, rank);
}

/// Connecting an output of `from` to an input port that `to` has makes `to`
/// depend on `from`: evaluating `to` then evaluates `from` first.
pub proof fn law_connect_creates_dependency(
    nodes: Seq<NodeView>,
    from: NodeId,
    from_port: Seq<char>,
    to: NodeId,
    port: Seq<char>,
)
    requires
        to.0 < nodes.len(),
        has_input(nodes[to.0 as int].inputs, port),
    ensures
        depends_on(
            structure(set_connection(nodes, to, port, Some(PortRefView { node_id: from, port_name: from_port }))),
            to.0,
            from.0,
        ),
{
    let r = PortRefView { node_id: from, port_name: from_port };
    let after = set_connection(nodes, to, port, Some(r));
    let ins = structure(after);
    let k = choose|k: int| 0 <= k < nodes[to.0 as int].inputs.len() && #[trigger] nodes[to.0 as int].inputs[k].name == port;
    assert(ins[to.0 as int] == after[to.0 as int].inputs);
    assert(ins[to.0 as int][k].connection == Some(r));
    lemma_depends_self(ins, from.0);
    assert(source(ins[to.0 as int][k]) == from.0);
    lemma_depends_through(ins, to.0, k, from.0);
}

/// Evaluation hands each connected input the output port that it is
/// connected to: before a node is encoded, every connected input of it is
/// handed the output of the connection's node under the connection's port
/// name, under the input's own name; and every hand-over it makes is of that
/// kind, for some connected input of some node.
pub proof fn law_evaluation_bridges_connected_ports(
    ins: Seq<Seq<InputPortView>>,
    dirty: Seq<bool>,
    start: usize,
)
    requires
        evaluable(ins, start),
        dirty.len() == ins.len(),
    ensures
        ({
            let steps = evaluation(ins, dirty, start).1;
            forall|i: int, a: usize, k: int|
                #![trigger steps[i], ins[a as int][k]]
                0 <= i < steps.len() && steps[i] == StepView::Encode(NodeId(a)) && a < ins.len() && 0 <= k
                    < ins[a as int].len() && ins[a as int][k].connection is Some ==> exists|j: int|
                    0 <= j < i && #[trigger] steps[j] == (StepView::Bridge {
                        from: (ResourceKeyView {
                            node_id: ins[a as int][k].connection.unwrap().node_id,
                            kind: ResourceKind::Output,
                            port_name: ins[a as int][k].connection.unwrap().port_name,
                        }),
                        to: (ResourceKeyView {
                            node_id: NodeId(a),
                            kind: ResourceKind::Input,
                            port_name: ins[a as int][k].name,
                        }),
                    })
        }),
        ({
            let steps = evaluation(ins, dirty, start).1;
            forall|j: int|
                0 <= j < steps.len() && (#[trigger] steps[j]) is Bridge ==> exists|a: usize, k: int|
                    a < ins.len() && 0 <= k < ins[a as int].len() && (#[trigger] ins[a as int][k]).connection
                        is Some && steps[j] == (StepView::Bridge {
                        from: (ResourceKeyView {
                            node_id: ins[a as int][k].connection.unwrap().node_id,
                            kind: ResourceKind::Output,
                            port_name: ins[a as int][k].connection.unwrap().port_name,
                        }),
                        to: (ResourceKeyView {
                            node_id: NodeId(a),
                            kind: ResourceKind::Input,
                            port_name: ins[a as int][k].name,
                        }),
                    })
        }),
{
    let (s, rank) = eval_witness(ins, start);
    lemma_eval_bridges(ins, dirty, start, s, rank);
    lemma_eval_bridges_genuine(ins, dirty, start, s, rank);
    let steps = evaluation(ins, dirty, start).1;
    assert forall|i: int, a: usize, k: int|
        #![trigger steps[i], ins[a as int][k]]
        0 <= i < steps.len() && steps[i] == StepView::Encode(NodeId(a)) && a < ins.len() && 0 <= k
            < ins[a as int].len() && ins[a as int][k].connection is Some implies exists|j: int|
        0 <= j < i && #[trigger] steps[j] == (StepView::Bridge {
            from: (ResourceKeyView {
                node_id: ins[a as int][k].connection.unwrap().node_id,
                kind: ResourceKind::Output,
                port_name: ins[a as int][k].connection.unwrap().port_name,
            }),
            to: (ResourceKeyView {
                node_id: NodeId(a),
                kind: ResourceKind::Input,
                port_name: ins[a as int][k].name,
            }),
        }) by {
        let j = choose|j: int| 0 <= j < i && #[trigger] steps[j] == bridge_of(a, ins[a as int][k]);
        assert(steps[j] == bridge_of(a, ins[a as int][k]));
    }
    assert forall|j: int| 0 <= j < steps.len() && (#[trigger] steps[j]) is Bridge implies exists|
        a: usize,
        k: int,
    |
        a < ins.len() && 0 <= k < ins[a as int].len() && (#[trigger] ins[a as int][k]).connection is Some
            && steps[j] == (StepView::Bridge {
            from: (ResourceKeyView {
                node_id: ins[a as int][k].connection.unwrap().node_id,
                kind: ResourceKind::Output,
                port_name: ins[a as int][k].connection.unwrap().port_name,
            }),
            to: (ResourceKeyView {
                node_id: NodeId(a),
                kind: ResourceKind::Input,
                port_name: ins[a as int][k].name,
            }),
        }) by {
        let (a, k) = choose|a: usize, k: int|
            a < ins.len() && 0 <= k < ins[a as int].len() && (#[trigger] ins[a as int][k]).connection
                is Some && steps[j] == bridge_of(a, ins[a as int][k]);
        assert(steps[j] == bridge_of(a, ins[a as int][k]));
    }
}

} // verus!
