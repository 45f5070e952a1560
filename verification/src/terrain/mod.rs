use vstd::prelude::*;

pub mod evaluation;
pub mod executor;
pub mod graph;
pub mod node;
pub mod resource_registry;
pub mod termination;

use crate::terrain::evaluation::{dirty_flags, evaluable, evaluation, structure, with_dirty};
use crate::terrain::executor::{steps_view, EvalStep, Executor};
use crate::terrain::graph::Graph;
use crate::terrain::resource_registry::{ResourceKey, ResourceRegistry};

verus! {

/// Identifier of a node in a [`graph::Graph`]; ids are handed out in order
/// of insertion, starting at 0.
#[derive(Clone, Copy, Debug, PartialEq, Eq, Hash, Structural)]
pub struct NodeId(pub usize);

/// The node graph, its executor and the GPU resources that its nodes share.
pub struct TerrainSystem {
    pub graph: Graph,
    executor: Executor,
    resources: ResourceRegistry,
}

impl TerrainSystem {
    /// The node graph.
    pub closed spec fn graph_state(&self) -> Graph {
        self.graph
    }

    /// The resource registry.
    pub closed spec fn registry(&self) -> ResourceRegistry {
        self.resources
    }

    /// Well-formedness of the graph and of the registry.
    pub closed spec fn wf(&self) -> bool {
        self.graph.wf() && self.resources.wf()
    }

    /// An empty system: no nodes, no resources.
    pub fn new() -> (sys: Self)
        ensures
            sys.wf(),
            sys.graph_state().nodes_view().len() == 0,
            sys.graph_state().next_id() == 0,
            sys.graph_state().children_view().is_empty(),
            sys.graph_state().parents_view().is_empty(),
            sys.registry().views_map().is_empty(),
            sys.registry().textures_map().is_empty(),
    {
        let sys = TerrainSystem {
            graph: Graph::new(),
            executor: Executor::new(),
            resources: ResourceRegistry::new(),
        };
        assert(sys.graph_state().children_view().dom() =~= Set::empty());
        assert(sys.graph_state().parents_view().dom() =~= Set::empty());
        assert(sys.registry().views_map().dom() =~= Set::empty());
        assert(sys.registry().textures_map().dom() =~= Set::empty());
        sys
    }

    /// Brings `node_id` up to date: where it is clean nothing is done;
    /// otherwise the steps of evaluating it (see [`Executor::evaluate`]),
    /// with the encoded nodes marked clean. The node must exist.
    pub fn evaluate_node(&mut self, node_id: NodeId) -> (steps: Vec<EvalStep>)
        requires
            old(self).wf(),
            node_id.0 < old(self).graph_state().nodes_view().len(),
            old(self).graph_state().nodes_view()[node_id.0 as int].dirty ==> evaluable(
                structure(old(self).graph_state().nodes_view()),
                node_id.0,
            ),
        ensures
            final(self).wf(),
            final(self).registry() == old(self).registry(),
            final(self).graph_state().next_id() == old(self).graph_state().next_id(),
            final(self).graph_state().children_view() == old(self).graph_state().children_view(),
            final(self).graph_state().parents_view() == old(self).graph_state().parents_view(),
            !old(self).graph_state().nodes_view()[node_id.0 as int].dirty ==> steps@.len() == 0
                && final(self).graph_state().nodes_view() == old(self).graph_state().nodes_view(),
            old(self).graph_state().nodes_view()[node_id.0 as int].dirty ==> {
                let ev = evaluation(
                    structure(old(self).graph_state().nodes_view()),
                    dirty_flags(old(self).graph_state().nodes_view()),
                    node_id.0,
                );
                &&& final(self).graph_state().nodes_view() == with_dirty(old(self).graph_state().nodes_view(), ev.0)
                &&& steps_view(steps@) == ev.1
            },
    {
        let dirty = match self.graph.get_node(node_id) {
            Some(node) => node.is_dirty(),
            None => false,
        };
        if !dirty {
            return Vec::new();
        }
        self.executor.evaluate(node_id, &mut self.graph)
    }

    /// Whether evaluating `node_id` ends: it and every node it depends on
    /// exist and no cycle of connections is reachable from it.
    pub fn can_evaluate(&self, node_id: NodeId) -> (res: bool)
        requires
            self.wf(),
        ensures
            res == evaluable(structure(self.graph_state().nodes_view()), node_id.0),
    {
        self.executor.can_evaluate(node_id, &self.graph)
    }

    /// The view stored under `key`.
    pub fn get_output(&self, key: ResourceKey) -> (res: Option<&wgpu::TextureView>)
        requires
            self.wf(),
        ensures
            match res {
                Some(v) => self.registry().views_map().contains_key(key@) && *v
                    == self.registry().views_map()[key@],
                None => !self.registry().views_map().contains_key(key@),
            },
    {
        self.resources.get_view(&key)
    }

    /// The resource registry, to be changed in place; the graph stays as it is.
    pub fn resources_mut(&mut self) -> (res: &mut ResourceRegistry)
        requires
            old(self).wf(),
        ensures
            *res == old(self).registry(),
            final(self).registry() == *final(res),
            final(self).graph_state() == old(self).graph_state(),
            final(res).wf() ==> final(self).wf(),
    {
        &mut self.resources
    }
}

} // verus!
