use vstd::prelude::*;

use crate::terrain::NodeId;

verus! {

/// A reference to an output port of a node: where an input takes its value.
#[derive(Clone, Debug, PartialEq, Eq, Hash)]
pub struct OutputPortRef {
    pub node_id: NodeId,
    pub port_name: String,
}

/// The mathematical value of an [`OutputPortRef`].
pub struct PortRefView {
    pub node_id: NodeId,
    pub port_name: Seq<char>,
}

impl View for OutputPortRef {
    type V = PortRefView;

    open spec fn view(&self) -> PortRefView {
        PortRefView { node_id: self.node_id, port_name: self.port_name@ }
    }
}

impl OutputPortRef {
    /// A copy of this reference.
    pub fn duplicate(&self) -> (res: Self)
        ensures
            res@ == self@,
    {
        OutputPortRef { node_id: self.node_id, port_name: self.port_name.clone() }
    }
}

/// The view of an optional port reference.
pub open spec fn connection_view(c: Option<OutputPortRef>) -> Option<PortRefView> {
    match c {
        Some(r) => Some(r@),
        None => None,
    }
}

fn duplicate_connection(c: &Option<OutputPortRef>) -> (res: Option<OutputPortRef>)
    ensures
        connection_view(res) == connection_view(*c),
{
    match c {
        Some(r) => Some(r.duplicate()),
        None => None,
    }
}

/// A named input of a node, possibly connected to an output of another node.
#[derive(Clone, Debug)]
pub struct InputPort {
    pub name: String,
    pub connection: Option<OutputPortRef>,
}

/// The mathematical value of an [`InputPort`].
pub struct InputPortView {
    pub name: Seq<char>,
    pub connection: Option<PortRefView>,
}

impl View for InputPort {
    type V = InputPortView;

    open spec fn view(&self) -> InputPortView {
        InputPortView { name: self.name@, connection: connection_view(self.connection) }
    }
}

impl InputPort {
    /// A copy of this port.
    pub fn duplicate(&self) -> (res: Self)
        ensures
            res@ == self@,
    {
        InputPort { name: self.name.clone(), connection: duplicate_connection(&self.connection) }
    }
}

/// A named output of a node.
#[derive(Clone, Debug)]
pub struct OutputPort {
    pub name: String,
}

/// The views of a list of input ports.
pub open spec fn inputs_view(ports: Seq<InputPort>) -> Seq<InputPortView> {
    ports.map_values(|p: InputPort| p@)
}

/// The names of a list of output ports.
pub open spec fn outputs_view(ports: Seq<OutputPort>) -> Seq<Seq<char>> {
    ports.map_values(|p: OutputPort| p.name@)
}

/// No name occurs twice.
pub open spec fn names_unique(names: Seq<Seq<char>>) -> bool {
    forall|i: int, j: int| 0 <= i < j < names.len() ==> #[trigger] names[i] != #[trigger] names[j]
}

/// The names of a list of input ports.
pub open spec fn input_names(ports: Seq<InputPortView>) -> Seq<Seq<char>> {
    ports.map_values(|p: InputPortView| p.name)
}

/// Some port of `ports` is called `name`.
pub open spec fn has_input(ports: Seq<InputPortView>, name: Seq<char>) -> bool {
    exists|i: int| 0 <= i < ports.len() && #[trigger] ports[i].name == name
}

/// `ports` where the port called `name` takes `connection`.
pub open spec fn connect_input(
    ports: Seq<InputPortView>,
    name: Seq<char>,
    connection: Option<PortRefView>,
) -> Seq<InputPortView> {
    ports.map_values(
        |p: InputPortView|
            if p.name == name {
                InputPortView { name: p.name, connection }
            } else {
                p
            },
    )
}

/// `ports` with an unconnected port `name`, which replaces a port of that
/// name or comes last.
pub open spec fn add_input(ports: Seq<InputPortView>, name: Seq<char>) -> Seq<InputPortView> {
    if has_input(ports, name) {
        connect_input(ports, name, None)
    } else {
        ports.push(InputPortView { name, connection: None })
    }
}

/// `names` with `name` added, unless it is there.
pub open spec fn add_output(names: Seq<Seq<char>>, name: Seq<char>) -> Seq<Seq<char>> {
    if names.contains(name) {
        names
    } else {
        names.push(name)
    }
}

/// Setting the connection of the port called `name` changes that port's
/// connection and nothing else: every port keeps its place and its name, and
/// every port called otherwise keeps its connection.
pub proof fn law_connect_input_touches_only_the_port(
    ports: Seq<InputPortView>,
    name: Seq<char>,
    connection: Option<PortRefView>,
)
    ensures
        connect_input(ports, name, connection).len() == ports.len(),
        forall|i: int|
            0 <= i < ports.len() ==> (#[trigger] connect_input(ports, name, connection)[i]).name
                == ports[i].name,
        forall|i: int|
            0 <= i < ports.len() && ports[i].name == name ==> (#[trigger] connect_input(
                ports,
                name,
                connection,
            )[i]).connection == connection,
        forall|i: int|
            0 <= i < ports.len() && ports[i].name != name ==> #[trigger] connect_input(
                ports,
                name,
                connection,
            )[i] == ports[i],
{
}

/// Adding an output port makes `name` one of the outputs and keeps every
/// other output: the outputs afterwards are those before and `name`, each
/// once if each was once before.
pub proof fn law_add_output_adds_the_name(names: Seq<Seq<char>>, name: Seq<char>)
    ensures
        add_output(names, name).contains(name),
        forall|x: Seq<char>| names.contains(x) ==> #[trigger] add_output(names, name).contains(x),
        forall|x: Seq<char>| #[trigger] add_output(names, name).contains(x) ==> names.contains(x) || x == name,
        add_output(names, name).len() == if names.contains(name) {
            names.len()
        } else {
            names.len() + 1
        },
        names_unique(names) ==> names_unique(add_output(names, name)),
{
    if !names.contains(name) {
        let r = names.push(name);
        assert(r[names.len() as int] == name);
        assert forall|x: Seq<char>| names.contains(x) implies #[trigger] r.contains(x) by {
            let i = choose|i: int| 0 <= i < names.len() && names[i] == x;
            assert(r[i] == x);
        }
        assert forall|x: Seq<char>| #[trigger] r.contains(x) implies names.contains(x) || x == name by {
            let i = choose|i: int| 0 <= i < r.len() && r[i] == x;
            if i < names.len() {
                assert(names[i] == x);
            }
        }
        if names_unique(names) {
            assert forall|i: int, j: int| 0 <= i < j < r.len() implies #[trigger] r[i] != #[trigger] r[j] by {
                if j == names.len() {
                    assert(names[i] != name);
                } else {
                    assert(names[i] != names[j]);
                }
            }
        }
    }
}

/// Adding an input port gives a port called `name` that takes no connection,
/// keeps every port called otherwise, in place, and adds a port only where
/// none was called `name`.
pub proof fn law_add_input_adds_an_unconnected_port(ports: Seq<InputPortView>, name: Seq<char>)
    ensures
        has_input(add_input(ports, name), name),
        forall|i: int|
            0 <= i < add_input(ports, name).len() && (#[trigger] add_input(ports, name)[i]).name
                == name ==> add_input(ports, name)[i].connection is None,
        forall|i: int|
            0 <= i < ports.len() && ports[i].name != name ==> #[trigger] add_input(ports, name)[i]
                == ports[i],
        add_input(ports, name).len() == if has_input(ports, name) {
            ports.len()
        } else {
            ports.len() + 1
        },
{
    law_connect_input_touches_only_the_port(ports, name, None);
    if has_input(ports, name) {
        let k = choose|k: int| 0 <= k < ports.len() && #[trigger] ports[k].name == name;
        assert(add_input(ports, name)[k].name == name);
    } else {
        let r = ports.push(InputPortView { name, connection: None });
        assert(r[ports.len() as int].name == name);
        assert forall|i: int| 0 <= i < r.len() && (#[trigger] r[i]).name == name implies r[i].connection is None by {
            if i < ports.len() {
                assert(ports[i].name == name);
            }
        }
    }
}

/// The mathematical value of a [`Node`].
pub struct NodeView {
    pub inputs: Seq<InputPortView>,
    pub outputs: Seq<Seq<char>>,
    pub dirty: bool,
}

/// A node of the terrain graph: its named input and output ports and whether
/// its output must be computed again. Port names are unique within each list.
pub struct Node {
    inputs: Vec<InputPort>,
    outputs: Vec<OutputPort>,
    dirty: bool,
}

impl View for Node {
    type V = NodeView;

    closed spec fn view(&self) -> NodeView {
        NodeView {
            inputs: inputs_view(self.inputs@),
            outputs: outputs_view(self.outputs@),
            dirty: self.dirty,
        }
    }
}

/// Port names are unique, as keys of a map.
pub open spec fn node_wf(v: NodeView) -> bool {
    names_unique(input_names(v.inputs)) && names_unique(v.outputs)
}

impl Node {
    /// Well-formedness: port names are unique, as keys of a map.
    pub open spec fn wf(&self) -> bool {
        node_wf(self@)
    }

    /// A node without ports that has yet to be computed (it is dirty).
    pub fn new() -> (node: Self)
        ensures
            node.wf(),
            node@.inputs == Seq::<InputPortView>::empty(),
            node@.outputs == Seq::<Seq<char>>::empty(),
            node@.dirty,
    {
        let node = Node { inputs: Vec::new(), outputs: Vec::new(), dirty: true };
        assert(node@.inputs =~= Seq::<InputPortView>::empty());
        assert(node@.outputs =~= Seq::<Seq<char>>::empty());
        node
    }

    /// The input ports.
    pub fn inputs(&self) -> (res: &Vec<InputPort>)
        ensures
            inputs_view(res@) == self@.inputs,
    {
        &self.inputs
    }

    /// The output ports.
    pub fn outputs(&self) -> (res: &Vec<OutputPort>)
        ensures
            outputs_view(res@) == self@.outputs,
    {
        &self.outputs
    }

    /// Whether the node must be computed again.
    pub fn is_dirty(&self) -> (res: bool)
        ensures
            res == self@.dirty,
    {
        self.dirty
    }

    /// Marks the node as to be computed again.
    pub fn set_dirty(&mut self)
        ensures
            final(self)@ == (NodeView { dirty: true, ..old(self)@ }),
    {
        self.dirty = true;
    }

    /// Marks the node as computed.
    pub fn set_clean(&mut self)
        ensures
            final(self)@ == (NodeView { dirty: false, ..old(self)@ }),
    {
        self.dirty = false;
    }

    /// The port that carries `name`, and where it stands: `None` if no input
    /// port is called `name`.
    fn find_input(&self, name: &String) -> (res: Option<usize>)
        ensures
            match res {
                Some(i) => i < self@.inputs.len() && self@.inputs[i as int].name == name@,
                None => !has_input(self@.inputs, name@),
            },
    {
        let mut i: usize = 0;
        while i < self.inputs.len()
            invariant
                i <= self.inputs@.len(),
                self@.inputs == inputs_view(self.inputs@),
                forall|j: int| 0 <= j < i ==> #[trigger] self@.inputs[j].name != name@,
            decreases self.inputs@.len() - i,
        {
            if self.inputs[i].name == *name {
                return Some(i);
            }
            i = i + 1;
        }
        None
    }

    /// The input port called `name`, if there is one.
    pub fn input(&self, name: &str) -> (res: Option<&InputPort>)
        requires
            self.wf(),
        ensures
            match res {
                Some(p) => has_input(self@.inputs, name@) && exists|i: int|
                    0 <= i < self@.inputs.len() && #[trigger] self@.inputs[i] == p@ && p@.name
                        == name@,
                None => !has_input(self@.inputs, name@),
            },
    {
        let owned = name.to_owned();
        match self.find_input(&owned) {
            Some(i) => Some(&self.inputs[i]),
            None => None,
        }
    }

    /// Sets the connection of the input port called `name`; a node without
    /// such a port is left as it is.
    pub fn set_input_connection(&mut self, name: &String, connection: Option<OutputPortRef>)
        requires
            old(self).wf(),
        ensures
            final(self).wf(),
            final(self)@ == (NodeView {
                inputs: connect_input(old(self)@.inputs, name@, connection_view(connection)),
                ..old(self)@
            }),
            final(self)@.inputs.len() == old(self)@.inputs.len(),
            forall|i: int|
                0 <= i < old(self)@.inputs.len() ==> (#[trigger] final(self)@.inputs[i]).name == old(
                    self,
                )@.inputs[i].name,
            forall|i: int|
                0 <= i < old(self)@.inputs.len() && old(self)@.inputs[i].name == name@ ==> (
                #[trigger] final(self)@.inputs[i]).connection == connection_view(connection),
            forall|i: int|
                0 <= i < old(self)@.inputs.len() && old(self)@.inputs[i].name != name@
                    ==> #[trigger] final(self)@.inputs[i] == old(self)@.inputs[i],
            final(self)@.outputs == old(self)@.outputs,
            final(self)@.dirty == old(self)@.dirty,
    {
        proof {
            law_connect_input_touches_only_the_port(old(self)@.inputs, name@, connection_view(connection));
        }
        let ghost before = self@.inputs;
        let ghost target = connect_input(before, name@, connection_view(connection));
        let mut i: usize = 0;
        while i < self.inputs.len()
            invariant
                i <= self.inputs@.len(),
                self.inputs@.len() == before.len(),
                self@.inputs == inputs_view(self.inputs@),
                forall|j: int| 0 <= j < i ==> #[trigger] self@.inputs[j] == target[j],
                forall|j: int| i <= j < before.len() ==> #[trigger] self@.inputs[j] == before[j],
                self@.outputs == old(self)@.outputs,
                self@.dirty == old(self)@.dirty,
                target == connect_input(before, name@, connection_view(connection)),
            decreases self.inputs@.len() - i,
        {
            let ghost prev = self.inputs@;
            assert(before[i as int] == inputs_view(prev)[i as int]);
            if self.inputs[i].name == *name {
                self.inputs[i].connection = duplicate_connection(&connection);
                assert(self.inputs@ =~= prev.update(
                    i as int,
                    InputPort { name: prev[i as int].name, connection: self.inputs@[i as int].connection },
                ));
            }
            assert(self@.inputs[i as int] == target[i as int]);
            assert forall|j: int| 0 <= j < before.len() && j != i implies #[trigger] self@.inputs[j]
                == inputs_view(prev)[j] by {
                assert(self.inputs@[j] == prev[j]);
            }
            i = i + 1;
        }
        assert(self@.inputs =~= target);
        assert(input_names(target) =~= input_names(before));
    }

    /// This node with an unconnected input port `name`, which replaces a port
    /// of the same name.
    pub fn with_input(self, name: &str) -> (node: Self)
        requires
            self.wf(),
        ensures
            node.wf(),
            node@ == (NodeView { inputs: add_input(self@.inputs, name@), ..self@ }),
            has_input(node@.inputs, name@),
            forall|i: int|
                0 <= i < node@.inputs.len() && (#[trigger] node@.inputs[i]).name == name@
                    ==> node@.inputs[i].connection is None,
            forall|i: int|
                0 <= i < self@.inputs.len() && self@.inputs[i].name != name@ ==> #[trigger] node@.inputs[i]
                    == self@.inputs[i],
            node@.outputs == self@.outputs,
            node@.dirty == self@.dirty,
    {
        proof {
            law_add_input_adds_an_unconnected_port(self@.inputs, name@);
        }
        let mut node = self;
        let owned = name.to_owned();
        match node.find_input(&owned) {
            Some(_) => {
                node.set_input_connection(&owned, None);
            },
            None => {
                let ghost before = node@.inputs;
                node.inputs.push(InputPort { name: owned, connection: None });
                assert(node@.inputs =~= before.push(InputPortView { name: name@, connection: None }));
                assert(input_names(node@.inputs) =~= input_names(before).push(name@));
                assert forall|i: int, j: int|
                    0 <= i < j < input_names(node@.inputs).len() implies #[trigger] input_names(
                        node@.inputs,
                    )[i] != #[trigger] input_names(node@.inputs)[j] by {
                    if j == before.len() {
                        assert(before[i].name != name@);
                    } else {
                        assert(input_names(before)[i] != input_names(before)[j]);
                    }
                }
            },
        }
        node
    }

    /// This node with an output port `name`, unless it has one.
    pub fn with_output(self, name: &str) -> (node: Self)
        requires
            self.wf(),
        ensures
            node.wf(),
            node@ == (NodeView { outputs: add_output(self@.outputs, name@), ..self@ }),
            node@.outputs.contains(name@),
            forall|x: Seq<char>| self@.outputs.contains(x) ==> #[trigger] node@.outputs.contains(x),
            forall|x: Seq<char>| #[trigger] node@.outputs.contains(x) ==> self@.outputs.contains(x) || x == name@,
            node@.inputs == self@.inputs,
            node@.dirty == self@.dirty,
    {
        proof {
            law_add_output_adds_the_name(self@.outputs, name@);
        }
        let mut node = self;
        let owned = name.to_owned();
        let mut i: usize = 0;
        while i < node.outputs.len()
            invariant
                i <= node.outputs@.len(),
                node@.outputs == outputs_view(node.outputs@),
                forall|j: int| 0 <= j < i ==> #[trigger] node@.outputs[j] != name@,
                owned@ == name@,
                node.wf(),
                node@ == self@,
            decreases node.outputs@.len() - i,
        {
            if node.outputs[i].name == owned {
                assert(node@.outputs.contains(name@)) by {
                    assert(node@.outputs[i as int] == name@);
                }
                return node;
            }
            i = i + 1;
        }
        let ghost before = node@.outputs;
        node.outputs.push(OutputPort { name: owned });
        assert(node@.outputs =~= before.push(name@));
        assert forall|a: int, b: int|
            0 <= a < b < node@.outputs.len() implies #[trigger] node@.outputs[a]
            != #[trigger] node@.outputs[b] by {
            if b == before.len() {
                assert(before[a] != name@);
            } else {
                assert(before[a] != before[b]);
            }
        }
        node
    }
}

} // verus!
