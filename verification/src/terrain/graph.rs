use std::collections::HashMap;

use vstd::prelude::*;

use crate::terrain::node::{
    connect_input, connection_view, law_connect_input_touches_only_the_port, node_wf, InputPortView,
    Node, NodeView, OutputPortRef, PortRefView,
};
use crate::terrain::NodeId;

verus! {

broadcast use vstd::std_specs::hash::group_hash_axioms;

/// Adjacency lists by node index: the mathematical value of a map from a
/// node's index to a list of node ids.
pub open spec fn adjacency_view(m: Map<usize, Vec<NodeId>>) -> Map<usize, Seq<NodeId>> {
    m.map_values(|v: Vec<NodeId>| v@)
}

/// The list that `adj` holds for `key`, empty where it holds none.
pub open spec fn list_of(adj: Map<usize, Seq<NodeId>>, key: usize) -> Seq<NodeId> {
    if adj.contains_key(key) {
        adj[key]
    } else {
        Seq::empty()
    }
}

/// `adj` with `id` appended to the list of `key` (which is created if absent).
pub open spec fn add_edge(adj: Map<usize, Seq<NodeId>>, key: usize, id: NodeId) -> Map<
    usize,
    Seq<NodeId>,
> {
    adj.insert(key, list_of(adj, key).push(id))
}

/// Holds of every id but `id`.
pub open spec fn other_than(id: NodeId) -> spec_fn(NodeId) -> bool {
    |x: NodeId| x != id
}

/// `adj` with every occurrence of `id` taken out of the list of `key`, where
/// `key` has a list.
pub open spec fn remove_edges(adj: Map<usize, Seq<NodeId>>, key: usize, id: NodeId) -> Map<
    usize,
    Seq<NodeId>,
> {
    if adj.contains_key(key) {
        adj.insert(key, adj[key].filter(other_than(id)))
    } else {
        adj
    }
}

/// `nodes` where the input port `port` of node `to` takes `connection`;
/// unchanged where `to` is not a node.
pub open spec fn set_connection(
    nodes: Seq<NodeView>,
    to: NodeId,
    port: Seq<char>,
    connection: Option<PortRefView>,
) -> Seq<NodeView> {
    if to.0 < nodes.len() {
        nodes.update(
            to.0 as int,
            NodeView {
                inputs: connect_input(nodes[to.0 as int].inputs, port, connection),
                ..nodes[to.0 as int]
            },
        )
    } else {
        nodes
    }
}

/// Appends `id` to the list of `key`.
fn push_edge(map: &mut HashMap<usize, Vec<NodeId>>, key: usize, id: NodeId)
    ensures
        adjacency_view(final(map)@) == add_edge(adjacency_view(old(map)@), key, id),
{
    let ghost before = adjacency_view(map@);
    let mut list = match map.remove(&key) {
        Some(l) => l,
        None => Vec::new(),
    };
    assert(list@ == list_of(before, key));
    list.push(id);
    map.insert(key, list);
    assert(adjacency_view(map@) =~= add_edge(before, key, id));
}

/// The ids of `list` other than `id`, in order.
fn without(list: &Vec<NodeId>, id: NodeId) -> (res: Vec<NodeId>)
    ensures
        res@ == list@.filter(other_than(id)),
{
    let ghost pred = other_than(id);
    let mut res: Vec<NodeId> = Vec::new();
    let mut i: usize = 0;
    while i < list.len()
        invariant
            i <= list@.len(),
            res@ == list@.take(i as int).filter(pred),
            pred == other_than(id),
        decreases list@.len() - i,
    {
        reveal_with_fuel(Seq::<_>::filter, 1);
        assert(list@.take(i + 1).drop_last() =~= list@.take(i as int));
        if list[i] != id {
            res.push(list[i]);
        }
        i = i + 1;
    }
    assert(list@.take(list@.len() as int) =~= list@);
    res
}

/// A copy of `list`.
fn copy_ids(list: &Vec<NodeId>) -> (res: Vec<NodeId>)
    ensures
        res@ == list@,
{
    let mut res: Vec<NodeId> = Vec::new();
    let mut i: usize = 0;
    while i < list.len()
        invariant
            i <= list@.len(),
            res@ == list@.take(i as int),
        decreases list@.len() - i,
    {
        res.push(list[i]);
        i = i + 1;
        assert(res@ =~= list@.take(i as int));
    }
    assert(list@.take(list@.len() as int) =~= list@);
    res
}

/// Takes every occurrence of `id` out of the list of `key`.
fn retain_other(map: &mut HashMap<usize, Vec<NodeId>>, key: usize, id: NodeId)
    ensures
        adjacency_view(final(map)@) == remove_edges(adjacency_view(old(map)@), key, id),
{
    let ghost before = adjacency_view(map@);
    let ghost raw = map@;
    if let Some(list) = map.remove(&key) {
        assert(list@ == before[key]);
        let kept = without(&list, id);
        map.insert(key, kept);
        assert(adjacency_view(map@) =~= remove_edges(before, key, id));
    } else {
        assert(map@ =~= raw);
        assert(!raw.contains_key(key));
        assert(!before.contains_key(key));
        assert(adjacency_view(map@) =~= remove_edges(before, key, id));
    }
}


/// `s` holds the children of each of its members.
pub open spec fn closed_under(adj: Map<usize, Seq<NodeId>>, s: Set<usize>) -> bool {
    forall|a: usize, k: int|
        s.contains(a) && adj.contains_key(a) && 0 <= k < adj[a].len() ==> s.contains(
            #[trigger] adj[a][k].0,
        )
}

/// `b` is reached from `a` by following children lists, in zero or more
/// steps: every set that holds `a` and the children of its members holds `b`.
pub open spec fn reaches(adj: Map<usize, Seq<NodeId>>, a: usize, b: usize) -> bool {
    forall|s: Set<usize>| #[trigger] closed_under(adj, s) && s.contains(a) ==> s.contains(b)
}

/// `s` is closed under children lists and `rank` falls along each of their
/// edges out of `s`.
pub open spec fn ranked(adj: Map<usize, Seq<NodeId>>, s: Set<usize>, rank: spec_fn(usize) -> nat) -> bool {
    &&& closed_under(adj, s)
    &&& forall|a: usize, k: int|
        s.contains(a) && adj.contains_key(a) && 0 <= k < adj[a].len() ==> rank(
            #[trigger] adj[a][k].0,
        ) < rank(a)
}

/// Following children lists from `start` never comes back to a node on the
/// way: no cycle is reachable from `start`.
pub open spec fn descends_finitely(adj: Map<usize, Seq<NodeId>>, start: usize) -> bool {
    exists|s: Set<usize>, rank: spec_fn(usize) -> nat| #[trigger] ranked(adj, s, rank) && s.contains(start)
}

/// `v` marked dirty where `mark` holds.
pub open spec fn mark_if(v: NodeView, mark: bool) -> NodeView {
    NodeView { dirty: v.dirty || mark, ..v }
}

/// Every node reaches itself.
pub proof fn lemma_reaches_self(adj: Map<usize, Seq<NodeId>>, a: usize)
    ensures
        reaches(adj, a, a),
{
}

/// A node reaches what its children reach.
pub proof fn lemma_reaches_through_child(adj: Map<usize, Seq<NodeId>>, a: usize, k: int, b: usize)
    requires
        adj.contains_key(a),
        0 <= k < adj[a].len(),
        reaches(adj, adj[a][k].0, b),
    ensures
        reaches(adj, a, b),
{
    assert forall|s: Set<usize>| #[trigger] closed_under(adj, s) && s.contains(a) implies s.contains(b) by {
        assert(s.contains(adj[a][k].0));
    }
}

/// What a node reaches, its children reach too, one step further.
proof fn lemma_reaches_extend(adj: Map<usize, Seq<NodeId>>, c: usize, x: usize, j: int)
    requires
        reaches(adj, c, x),
        adj.contains_key(x),
        0 <= j < adj[x].len(),
    ensures
        reaches(adj, c, adj[x][j].0),
{
    assert forall|s: Set<usize>| #[trigger] closed_under(adj, s) && s.contains(c) implies s.contains(
        adj[x][j].0,
    ) by {
        assert(s.contains(x));
    }
}

/// What a node reaches is the node itself or something that one of its
/// children reaches.
pub proof fn lemma_reaches_split(adj: Map<usize, Seq<NodeId>>, a: usize, b: usize)
    requires
        reaches(adj, a, b),
    ensures
        b == a || (adj.contains_key(a) && exists|k: int|
            0 <= k < adj[a].len() && reaches(adj, #[trigger] adj[a][k].0, b)),
{
    let s = Set::new(
        |x: usize|
            x == a || (adj.contains_key(a) && exists|k: int|
                0 <= k < adj[a].len() && reaches(adj, #[trigger] adj[a][k].0, x)),
    );
    assert forall|x: usize, j: int|
        s.contains(x) && adj.contains_key(x) && 0 <= j < adj[x].len() implies s.contains(
        #[trigger] adj[x][j].0,
    ) by {
        let y = adj[x][j].0;
        if x == a {
            lemma_reaches_self(adj, y);
            assert(reaches(adj, adj[a][j].0, y));
        } else {
            let k = choose|k: int| 0 <= k < adj[a].len() && reaches(adj, #[trigger] adj[a][k].0, x);
            lemma_reaches_extend(adj, adj[a][k].0, x, j);
        }
    }
    assert(closed_under(adj, s));
    assert(s.contains(a));
}

/// The node graph: the nodes, indexed by their ids, and for each node index
/// the nodes that take its output (`children`) and the nodes whose output it
/// takes (`parents`), in the order in which they were connected.
pub struct Graph {
    nodes: Vec<Node>,
    counter: usize,
    children: HashMap<usize, Vec<NodeId>>,
    parents: HashMap<usize, Vec<NodeId>>,
}

impl Graph {
    /// The nodes, the node with id `i` at index `i`.
    pub closed spec fn nodes_view(&self) -> Seq<NodeView> {
        self.nodes@.map_values(|n: Node| n@)
    }

    /// For each node index that has one, the list of nodes fed by it.
    pub closed spec fn children_view(&self) -> Map<usize, Seq<NodeId>> {
        adjacency_view(self.children@)
    }

    /// For each node index that has one, the list of nodes that feed it.
    pub closed spec fn parents_view(&self) -> Map<usize, Seq<NodeId>> {
        adjacency_view(self.parents@)
    }

    /// The id that the next node added gets.
    pub closed spec fn next_id(&self) -> usize {
        self.counter
    }

    /// Well-formedness: ids are handed out in order, so the next id is the
    /// number of nodes; every node is well formed.
    pub closed spec fn wf(&self) -> bool {
        &&& self.counter == self.nodes@.len()
        &&& forall|i: int| 0 <= i < self.nodes@.len() ==> #[trigger] self.nodes@[i].wf()
    }

    /// Well-formedness, stated over the views.
    pub proof fn lemma_wf(&self)
        requires
            #[trigger] self.wf(),
        ensures
            self.next_id() == self.nodes_view().len(),
            forall|i: int| 0 <= i < self.nodes_view().len() ==> node_wf(#[trigger] self.nodes_view()[i]),
    {
        assert forall|i: int| 0 <= i < self.nodes_view().len() implies node_wf(
            #[trigger] self.nodes_view()[i],
        ) by {
            assert(self.nodes@[i].wf());
        }
    }

    /// An empty graph.
    pub fn new() -> (g: Self)
        ensures
            g.wf(),
            g.nodes_view() == Seq::<NodeView>::empty(),
            g.next_id() == 0,
            g.children_view() == Map::<usize, Seq<NodeId>>::empty(),
            g.parents_view() == Map::<usize, Seq<NodeId>>::empty(),
    {
        let g = Graph { nodes: Vec::new(), counter: 0, children: HashMap::new(), parents: HashMap::new() };
        assert(g.nodes_view() =~= Seq::<NodeView>::empty());
        assert(g.children_view() =~= Map::<usize, Seq<NodeId>>::empty());
        assert(g.parents_view() =~= Map::<usize, Seq<NodeId>>::empty());
        g
    }

    /// Adds `node` and returns its id, the next one in order.
    pub fn add_node(&mut self, node: Node) -> (id: NodeId)
        requires
            old(self).wf(),
            node.wf(),
            old(self).next_id() < usize::MAX,
        ensures
            final(self).wf(),
            id == NodeId(old(self).next_id()),
            final(self).next_id() == old(self).next_id() + 1,
            final(self).nodes_view() == old(self).nodes_view().push(node@),
            final(self).children_view() == old(self).children_view(),
            final(self).parents_view() == old(self).parents_view(),
    {
        let node_id = NodeId(self.counter);
        self.counter = self.counter + 1;
        let ghost before = self.nodes@;
        self.nodes.push(node);
        assert(self.nodes_view() =~= before.map_values(|n: Node| n@).push(node@));
        assert forall|i: int| 0 <= i < self.nodes@.len() implies #[trigger] self.nodes@[i].wf() by {
            if i < before.len() {
                assert(self.nodes@[i] == before[i]);
            }
        }
        node_id
    }

    /// The number of nodes.
    pub fn node_count(&self) -> (n: usize)
        ensures
            n == self.nodes_view().len(),
    {
        self.nodes.len()
    }

    /// The node with id `id`.
    pub fn get_node(&self, id: NodeId) -> (res: Option<&Node>)
        ensures
            match res {
                Some(n) => id.0 < self.nodes_view().len() && n@ == self.nodes_view()[id.0 as int],
                None => id.0 >= self.nodes_view().len(),
            },
    {
        if id.0 < self.nodes.len() {
            Some(&self.nodes[id.0])
        } else {
            None
        }
    }

    /// The node with id `id`, to be changed in place.
    pub fn get_node_mut(&mut self, id: NodeId) -> (res: Option<&mut Node>)
        requires
            old(self).wf(),
        ensures
            final(self).next_id() == old(self).next_id(),
            final(self).children_view() == old(self).children_view(),
            final(self).parents_view() == old(self).parents_view(),
            res is Some <==> id.0 < old(self).nodes_view().len(),
            res matches Some(n) ==> {
                &&& n@ == old(self).nodes_view()[id.0 as int]
                &&& final(self).nodes_view() == old(self).nodes_view().update(id.0 as int, final(n)@)
                &&& final(n).wf() ==> final(self).wf()
            },
            res is None ==> final(self).nodes_view() == old(self).nodes_view() && final(self).wf(),
    {
        if id.0 < self.nodes.len() {
            Some(&mut self.nodes[id.0])
        } else {
            None
        }
    }

    /// The nodes that take the output of `id`, in the order connected.
    pub fn children_of(&self, id: NodeId) -> (res: Option<&Vec<NodeId>>)
        ensures
            match res {
                Some(l) => self.children_view().contains_key(id.0) && l@ == self.children_view()[id.0],
                None => !self.children_view().contains_key(id.0),
            },
    {
        self.children.get(&id.0)
    }

    /// The nodes whose output `id` takes, in the order connected.
    pub fn parents_of(&self, id: NodeId) -> (res: Option<&Vec<NodeId>>)
        ensures
            match res {
                Some(l) => self.parents_view().contains_key(id.0) && l@ == self.parents_view()[id.0],
                None => !self.parents_view().contains_key(id.0),
            },
    {
        self.parents.get(&id.0)
    }

    /// Marks `node_id` and everything it reaches through children lists dirty.
    fn mark_from(
        &mut self,
        node_id: NodeId,
        Ghost(s): Ghost<Set<usize>>,
        Ghost(rank): Ghost<spec_fn(usize) -> nat>,
    )
        requires
            old(self).wf(),
            ranked(old(self).children_view(), s, rank),
            s.contains(node_id.0),
        ensures
            final(self).wf(),
            final(self).next_id() == old(self).next_id(),
            final(self).children_view() == old(self).children_view(),
            final(self).parents_view() == old(self).parents_view(),
            final(self).nodes_view().len() == old(self).nodes_view().len(),
            forall|i: int|
                0 <= i < old(self).nodes_view().len() ==> #[trigger] final(self).nodes_view()[i]
                    == mark_if(
                    old(self).nodes_view()[i],
                    reaches(old(self).children_view(), node_id.0, i as usize),
                ),
            forall|i: int|
                0 <= i < old(self).nodes_view().len() ==> (#[trigger] final(self).nodes_view()[i]).dirty
                    == (old(self).nodes_view()[i].dirty || reaches(
                    old(self).children_view(),
                    node_id.0,
                    i as usize,
                )),
            forall|i: int|
                0 <= i < old(self).nodes_view().len() ==> (#[trigger] final(self).nodes_view()[i]).inputs
                    == old(self).nodes_view()[i].inputs && final(self).nodes_view()[i].outputs == old(
                    self,
                ).nodes_view()[i].outputs,
        decreases rank(node_id.0),
    {
        let ghost adj = self.children_view();
        let ghost before = self.nodes_view();
        let ghost n = node_id.0;
        if node_id.0 < self.nodes.len() {
            self.nodes[node_id.0].set_dirty();
        }
        proof {
            assert forall|i: int| 0 <= i < self.nodes@.len() implies #[trigger] self.nodes@[i].wf() by {
                if i != n as int {
                    assert(old(self).nodes@[i].wf());
                }
            }
        }
        let kids: Vec<NodeId> = match self.children.get(&node_id.0) {
            Some(list) => copy_ids(list),
            None => Vec::new(),
        };
        assert(kids@ == list_of(adj, n));
        let mut i: usize = 0;
        while i < kids.len()
            invariant
                self.wf(),
                i <= kids@.len(),
                kids@ == list_of(adj, n),
                adj == self.children_view(),
                ranked(adj, s, rank),
                s.contains(n),
                n == node_id.0,
                self.next_id() == old(self).next_id(),
                self.parents_view() == old(self).parents_view(),
                self.nodes_view().len() == before.len(),
                before == old(self).nodes_view(),
                forall|j: int|
                    0 <= j < before.len() ==> #[trigger] self.nodes_view()[j] == mark_if(
                        before[j],
                        j == n as int || exists|k: int|
                            0 <= k < i && reaches(adj, #[trigger] kids@[k].0, j as usize),
                    ),
            decreases kids@.len() - i,
        {
            let ghost prev = self.nodes_view();
            let child = kids[i];
            assert(rank(adj[n][i as int].0) < rank(n));
            self.mark_from(child, Ghost(s), Ghost(rank));
            assert forall|j: int| 0 <= j < before.len() implies #[trigger] self.nodes_view()[j]
                == mark_if(
                before[j],
                j == n as int || exists|k: int|
                    0 <= k < i + 1 && reaches(adj, #[trigger] kids@[k].0, j as usize),
            ) by {
                if reaches(adj, kids@[i as int].0, j as usize) {
                    assert(0 <= i < i + 1 && reaches(adj, kids@[i as int].0, j as usize));
                }
                if exists|k: int| 0 <= k < i && reaches(adj, #[trigger] kids@[k].0, j as usize) {
                    let k = choose|k: int| 0 <= k < i && reaches(adj, #[trigger] kids@[k].0, j as usize);
                    assert(0 <= k < i + 1 && reaches(adj, kids@[k].0, j as usize));
                }
                assert(prev[j] == mark_if(before[j], j == n as int || exists|k: int|
                            0 <= k < i && reaches(adj, #[trigger] kids@[k].0, j as usize)));
            }
            i = i + 1;
        }
        assert forall|j: int| 0 <= j < before.len() implies #[trigger] self.nodes_view()[j]
            == mark_if(before[j], reaches(adj, n, j as usize)) by {
            let reached = j == n as int || exists|k: int|
                0 <= k < kids@.len() && reaches(adj, #[trigger] kids@[k].0, j as usize);
            if reached {
                if j == n as int {
                    lemma_reaches_self(adj, n);
                } else {
                    let k = choose|k: int| 0 <= k < kids@.len() && reaches(adj, #[trigger] kids@[k].0, j as usize);
                    lemma_reaches_through_child(adj, n, k, j as usize);
                }
            }
            if reaches(adj, n, j as usize) {
                lemma_reaches_split(adj, n, j as usize);
                if j != n as int {
                    let k = choose|k: int| 0 <= k < adj[n].len() && reaches(adj, #[trigger] adj[n][k].0, j as usize);
                    assert(kids@[k].0 == adj[n][k].0);
                }
            }
        }
        assert forall|j: int| 0 <= j < before.len() implies (#[trigger] self.nodes_view()[j]).dirty == (
            before[j].dirty || reaches(adj, n, j as usize)) && self.nodes_view()[j].inputs == before[j].inputs
            && self.nodes_view()[j].outputs == before[j].outputs by {
            law_marking_marks(before[j], reaches(adj, n, j as usize));
        }
    }

    /// Marks `node_id` and every node that it reaches through children lists
    /// dirty; the rest of the graph is unchanged. No cycle may be reachable
    /// from `node_id`: the walk would never end.
    pub fn mark_dirty_recursive(&mut self, node_id: NodeId)
        requires
            old(self).wf(),
            descends_finitely(old(self).children_view(), node_id.0),
        ensures
            final(self).wf(),
            final(self).next_id() == old(self).next_id(),
            final(self).children_view() == old(self).children_view(),
            final(self).parents_view() == old(self).parents_view(),
            final(self).nodes_view().len() == old(self).nodes_view().len(),
            forall|i: int|
                0 <= i < old(self).nodes_view().len() ==> #[trigger] final(self).nodes_view()[i]
                    == mark_if(
                    old(self).nodes_view()[i],
                    reaches(old(self).children_view(), node_id.0, i as usize),
                ),
            forall|i: int|
                0 <= i < old(self).nodes_view().len() ==> (#[trigger] final(self).nodes_view()[i]).dirty
                    == (old(self).nodes_view()[i].dirty || reaches(
                    old(self).children_view(),
                    node_id.0,
                    i as usize,
                )),
            forall|i: int|
                0 <= i < old(self).nodes_view().len() ==> (#[trigger] final(self).nodes_view()[i]).inputs
                    == old(self).nodes_view()[i].inputs && final(self).nodes_view()[i].outputs == old(
                    self,
                ).nodes_view()[i].outputs,
    {
        let ghost (s, rank) = choose|s: Set<usize>, rank: spec_fn(usize) -> nat|
            #[trigger] ranked(self.children_view(), s, rank) && s.contains(node_id.0);
        self.mark_from(node_id, Ghost(s), Ghost(rank));
    }

    /// Connects the output port `from_port` of `from` to the input port
    /// `to_port` of `to`: the port (where `to` has it) takes the connection,
    /// `to` is appended to the children of `from` and `from` to the parents
    /// of `to`.
    pub fn connect(&mut self, from: NodeId, from_port: String, to: NodeId, to_port: String)
        requires
            old(self).wf(),
        ensures
            final(self).wf(),
            final(self).next_id() == old(self).next_id(),
            final(self).nodes_view() == set_connection(
                old(self).nodes_view(),
                to,
                to_port@,
                Some(PortRefView { node_id: from, port_name: from_port@ }),
            ),
            final(self).nodes_view().len() == old(self).nodes_view().len(),
            forall|j: int|
                0 <= j < old(self).nodes_view().len() && j != to.0 ==> #[trigger] final(self).nodes_view()[j]
                    == old(self).nodes_view()[j],
            forall|i: int|
                to.0 < old(self).nodes_view().len() && 0 <= i < old(self).nodes_view()[to.0 as int].inputs.len()
                    ==> (#[trigger] final(self).nodes_view()[to.0 as int].inputs[i]) == if old(self).nodes_view()[to.0 as int].inputs[i].name == to_port@ {
                    InputPortView {
                        name: to_port@,
                        connection: Some(PortRefView { node_id: from, port_name: from_port@ }),
                    }
                } else {
                    old(self).nodes_view()[to.0 as int].inputs[i]
                },
            final(self).children_view() == add_edge(old(self).children_view(), from.0, to),
            final(self).parents_view() == add_edge(old(self).parents_view(), to.0, from),
    {
        let ghost before = self.nodes_view();
        proof {
            self.lemma_wf();
        }
        if to.0 < self.nodes.len() {
            let connection = OutputPortRef { node_id: from, port_name: from_port };
            self.nodes[to.0].set_input_connection(&to_port, Some(connection));
        }
        assert(self.nodes_view() =~= set_connection(
            before,
            to,
            to_port@,
            Some(PortRefView { node_id: from, port_name: from_port@ }),
        ));
        proof {
            law_set_connection_touches_only_the_port(
                before,
                to,
                to_port@,
                Some(PortRefView { node_id: from, port_name: from_port@ }),
            );
        }
        push_edge(&mut self.children, from.0, to);
        push_edge(&mut self.parents, to.0, from);
    }

    /// Undoes connections from `from` to `to`: the input port `to_port` of
    /// `to` (where `to` has it) loses its connection, and every occurrence of
    /// `to` among the children of `from` and of `from` among the parents of
    /// `to` is removed.
    pub fn disconnect(&mut self, from: NodeId, from_port: String, to: NodeId, to_port: String)
        requires
            old(self).wf(),
        ensures
            final(self).wf(),
            final(self).next_id() == old(self).next_id(),
            final(self).nodes_view() == set_connection(old(self).nodes_view(), to, to_port@, None),
            final(self).nodes_view().len() == old(self).nodes_view().len(),
            forall|j: int|
                0 <= j < old(self).nodes_view().len() && j != to.0 ==> #[trigger] final(self).nodes_view()[j]
                    == old(self).nodes_view()[j],
            forall|i: int|
                to.0 < old(self).nodes_view().len() && 0 <= i < old(self).nodes_view()[to.0 as int].inputs.len()
                    ==> (#[trigger] final(self).nodes_view()[to.0 as int].inputs[i]) == if old(self).nodes_view()[to.0 as int].inputs[i].name == to_port@ {
                    InputPortView { name: to_port@, connection: None }
                } else {
                    old(self).nodes_view()[to.0 as int].inputs[i]
                },
            final(self).children_view() == remove_edges(old(self).children_view(), from.0, to),
            final(self).parents_view() == remove_edges(old(self).parents_view(), to.0, from),
    {
        let ghost before = self.nodes_view();
        if to.0 < self.nodes.len() {
            self.nodes[to.0].set_input_connection(&to_port, None);
        }
        assert(self.nodes_view() =~= set_connection(before, to, to_port@, None));
        proof {
            law_set_connection_touches_only_the_port(before, to, to_port@, None);
        }
        retain_other(&mut self.children, from.0, to);
        retain_other(&mut self.parents, to.0, from);
    }
}

/// Connecting `from` to `to` records `to` among the children of `from` and
/// `from` among the parents of `to`; where `to` is a node with an input
/// port `port`, that port takes the connection.
pub proof fn law_connect_records_the_edge(
    nodes: Seq<NodeView>,
    children: Map<usize, Seq<NodeId>>,
    parents: Map<usize, Seq<NodeId>>,
    from: NodeId,
    from_port: Seq<char>,
    to: NodeId,
    port: Seq<char>,
)
    ensures
        list_of(add_edge(children, from.0, to), from.0).contains(to),
        list_of(add_edge(parents, to.0, from), to.0).contains(from),
        to.0 < nodes.len() ==> forall|i: int|
            0 <= i < nodes[to.0 as int].inputs.len() && (#[trigger] nodes[to.0 as int].inputs[i]).name
                == port ==> set_connection(
                nodes,
                to,
                port,
                Some(PortRefView { node_id: from, port_name: from_port }),
            )[to.0 as int].inputs[i].connection == Some(
                PortRefView { node_id: from, port_name: from_port },
            ),
{
    let c = list_of(add_edge(children, from.0, to), from.0);
    assert(c[c.len() - 1] == to);
    let p = list_of(add_edge(parents, to.0, from), to.0);
    assert(p[p.len() - 1] == from);
}

/// Disconnecting `from` from `to` leaves `to` among no children of `from`,
/// `from` among no parents of `to`, and the port `port` of `to` unconnected.
pub proof fn law_disconnect_removes_the_edge(
    nodes: Seq<NodeView>,
    children: Map<usize, Seq<NodeId>>,
    parents: Map<usize, Seq<NodeId>>,
    from: NodeId,
    to: NodeId,
    port: Seq<char>,
)
    ensures
        !list_of(remove_edges(children, from.0, to), from.0).contains(to),
        !list_of(remove_edges(parents, to.0, from), to.0).contains(from),
        to.0 < nodes.len() ==> forall|i: int|
            0 <= i < nodes[to.0 as int].inputs.len() && (#[trigger] nodes[to.0 as int].inputs[i]).name
                == port ==> set_connection(nodes, to, port, None)[to.0 as int].inputs[i].connection
                is None,
{
    if children.contains_key(from.0) {
        let l = children[from.0].filter(other_than(to));
        if l.contains(to) {
            let i = choose|i: int| 0 <= i < l.len() && l[i] == to;
            children[from.0].lemma_filter_pred(other_than(to), i);
        }
    }
    if parents.contains_key(to.0) {
        let l = parents[to.0].filter(other_than(from));
        if l.contains(from) {
            let i = choose|i: int| 0 <= i < l.len() && l[i] == from;
            parents[to.0].lemma_filter_pred(other_than(from), i);
        }
    }
}

/// Disconnecting right after connecting the same ports leaves the nodes as
/// disconnecting alone would, and every adjacency list with the same members.
pub proof fn law_disconnect_undoes_connect(
    nodes: Seq<NodeView>,
    children: Map<usize, Seq<NodeId>>,
    from: NodeId,
    from_port: Seq<char>,
    to: NodeId,
    port: Seq<char>,
)
    ensures
        set_connection(
            set_connection(nodes, to, port, Some(PortRefView { node_id: from, port_name: from_port })),
            to,
            port,
            None,
        ) == set_connection(nodes, to, port, None),
        forall|k: usize, x: NodeId|
            #[trigger] list_of(remove_edges(add_edge(children, from.0, to), from.0, to), k).contains(x)
                == list_of(remove_edges(children, from.0, to), k).contains(x),
{
    let r = Some(PortRefView { node_id: from, port_name: from_port });
    if to.0 < nodes.len() {
        let once = connect_input(nodes[to.0 as int].inputs, port, None);
        let twice = connect_input(connect_input(nodes[to.0 as int].inputs, port, r), port, None);
        assert(once =~= twice);
        assert(set_connection(set_connection(nodes, to, port, r), to, port, None) =~= set_connection(
            nodes,
            to,
            port,
            None,
        ));
    }
    let key = from.0;
    let pred = other_than(to);
    let base = list_of(children, key);
    base.lemma_filter_push(to, pred);
    assert(!pred(to));
    if !children.contains_key(key) {
        reveal_with_fuel(Seq::<_>::filter, 1);
        assert(base.filter(pred) =~= Seq::<NodeId>::empty());
    }
    assert forall|k: usize, x: NodeId|
        #[trigger] list_of(remove_edges(add_edge(children, key, to), key, to), k).contains(x)
            == list_of(remove_edges(children, key, to), k).contains(x) by {
        if k == key {
            assert(list_of(remove_edges(add_edge(children, key, to), key, to), k) == base.filter(pred));
        }
    }
}

/// Marking a node makes it dirty exactly where it was dirty or is marked,
/// and leaves its ports as they were.
pub proof fn law_marking_marks(v: NodeView, mark: bool)
    ensures
        mark_if(v, mark).dirty == (v.dirty || mark),
        mark_if(v, mark).inputs == v.inputs,
        mark_if(v, mark).outputs == v.outputs,
{
}

/// Setting the connection of input port `port` of node `to` changes that
/// port's connection and nothing else: every other node, the dirty flag and
/// outputs of `to`, the place and name of each of its ports, and the
/// connection of each port called otherwise stay as they were.
pub proof fn law_set_connection_touches_only_the_port(
    nodes: Seq<NodeView>,
    to: NodeId,
    port: Seq<char>,
    connection: Option<PortRefView>,
)
    ensures
        set_connection(nodes, to, port, connection).len() == nodes.len(),
        forall|j: int|
            0 <= j < nodes.len() && j != to.0 ==> #[trigger] set_connection(nodes, to, port, connection)[j]
                == nodes[j],
        to.0 < nodes.len() ==> {
            let before = nodes[to.0 as int];
            let after = set_connection(nodes, to, port, connection)[to.0 as int];
            &&& after.dirty == before.dirty
            &&& after.outputs == before.outputs
            &&& after.inputs.len() == before.inputs.len()
            &&& forall|i: int| 0 <= i < before.inputs.len() ==> (#[trigger] after.inputs[i]).name == before.inputs[i].name
            &&& forall|i: int|
                0 <= i < before.inputs.len() && before.inputs[i].name == port ==> (
                #[trigger] after.inputs[i]).connection == connection
            &&& forall|i: int|
                0 <= i < before.inputs.len() && before.inputs[i].name != port ==> #[trigger] after.inputs[i]
                    == before.inputs[i]
        },
{
    if to.0 < nodes.len() {
        law_connect_input_touches_only_the_port(nodes[to.0 as int].inputs, port, connection);
    }
}

/// Marking dirty never cleans a node, and marking twice is marking once.
pub proof fn law_marking_is_idempotent(v: NodeView, mark: bool)
    ensures
        v.dirty ==> mark_if(v, mark).dirty,
        mark_if(mark_if(v, mark), mark) == mark_if(v, mark),
{
}

} // verus!
