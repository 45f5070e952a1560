use vstd::prelude::*;

use crate::terrain::NodeId;

verus! {

/// `wgpu::Texture`, a GPU texture; the registry only stores and hands it back.
#[verifier::external_type_specification]
#[verifier::external_body]
pub struct ExTexture(wgpu::Texture);

/// `wgpu::TextureView`, a view of a GPU texture; the registry stores, copies
/// and hands it back.
#[verifier::external_type_specification]
#[verifier::external_body]
pub struct ExTextureView(wgpu::TextureView);

/// Calls `<wgpu::TextureView as Clone>::clone`. A `TextureView` is a
/// reference-counted handle (its `Clone` is derived over the shared inner
/// handle and the texture handle), so the copy is the same view: the contract
/// claims that the result equals the argument.
#[verifier::external_body]
fn clone_view(view: &wgpu::TextureView) -> (res: wgpu::TextureView)
    ensures
        res == *view,
{
    view.clone()
}

/// Which slot of a node a resource belongs to.
#[derive(Clone, Copy, Debug, PartialEq, Eq, Hash, Structural)]
pub enum ResourceKind {
    Input,
    Output,
    Internal,
}

/// Name of a resource: the node, the kind of slot and the port's name.
#[derive(Clone, Debug, Eq, Hash)]
pub struct ResourceKey {
    pub node_id: NodeId,
    pub kind: ResourceKind,
    pub port_name: String,
}

/// The mathematical value of a [`ResourceKey`].
pub struct ResourceKeyView {
    pub node_id: NodeId,
    pub kind: ResourceKind,
    pub port_name: Seq<char>,
}

impl View for ResourceKey {
    type V = ResourceKeyView;

    open spec fn view(&self) -> ResourceKeyView {
        ResourceKeyView { node_id: self.node_id, kind: self.kind, port_name: self.port_name@ }
    }
}

impl PartialEq for ResourceKey {
    fn eq(&self, other: &Self) -> (res: bool) {
        self.node_id.0 == other.node_id.0 && self.kind == other.kind && self.port_name
            == other.port_name
    }
}

impl vstd::std_specs::cmp::PartialEqSpecImpl for ResourceKey {
    open spec fn obeys_eq_spec() -> bool {
        true
    }

    open spec fn eq_spec(&self, other: &Self) -> bool {
        self@ == other@
    }
}

/// The key of an output slot.
pub open spec fn output_key(node_id: NodeId, port_name: Seq<char>) -> ResourceKeyView {
    ResourceKeyView { node_id, kind: ResourceKind::Output, port_name }
}

/// The key of an input slot.
pub open spec fn input_key(node_id: NodeId, port_name: Seq<char>) -> ResourceKeyView {
    ResourceKeyView { node_id, kind: ResourceKind::Input, port_name }
}

impl ResourceKey {
    /// The key of the output port `port_name` of `node_id`.
    pub fn output(node_id: NodeId, port_name: String) -> (key: Self)
        ensures
            key@ == output_key(node_id, port_name@),
    {
        Self { node_id, kind: ResourceKind::Output, port_name }
    }

    /// The key of the input port `port_name` of `node_id`.
    pub fn input(node_id: NodeId, port_name: String) -> (key: Self)
        ensures
            key@ == input_key(node_id, port_name@),
    {
        Self { node_id, kind: ResourceKind::Input, port_name }
    }

    /// The key of a resource that `node_id` keeps for itself under `port_name`.
    pub fn internal(node_id: NodeId, port_name: String) -> (key: Self)
        ensures
            key@ == (ResourceKeyView { node_id, kind: ResourceKind::Internal, port_name: port_name@ }),
    {
        Self { node_id, kind: ResourceKind::Internal, port_name }
    }
}


/// No key occurs twice among `entries`.
pub open spec fn keys_unique<V>(entries: Seq<(ResourceKey, V)>) -> bool {
    forall|i: int, j: int|
        0 <= i < j < entries.len() ==> #[trigger] entries[i].0@ != #[trigger] entries[j].0@
}

/// `entries` holds `key` at some position.
pub open spec fn holds_key<V>(entries: Seq<(ResourceKey, V)>, key: ResourceKeyView) -> bool {
    exists|i: int| 0 <= i < entries.len() && #[trigger] entries[i].0@ == key
}

/// The map that a list of entries with unique keys stands for.
pub open spec fn entries_map<V>(entries: Seq<(ResourceKey, V)>) -> Map<ResourceKeyView, V> {
    Map::new(
        |key: ResourceKeyView| holds_key(entries, key),
        |key: ResourceKeyView|
            entries[choose|i: int| 0 <= i < entries.len() && #[trigger] entries[i].0@ == key].1,
    )
}

proof fn lemma_entries_map_at<V>(entries: Seq<(ResourceKey, V)>, i: int)
    requires
        keys_unique(entries),
        0 <= i < entries.len(),
    ensures
        entries_map(entries).contains_key(entries[i].0@),
        entries_map(entries)[entries[i].0@] == entries[i].1,
{
    let key = entries[i].0@;
    assert(holds_key(entries, key));
    let j = choose|j: int| 0 <= j < entries.len() && #[trigger] entries[j].0@ == key;
    assert(i == j) by {
        if i < j {
            assert(entries[i].0@ != entries[j].0@);
        } else if j < i {
            assert(entries[j].0@ != entries[i].0@);
        }
    }
}

/// Position of `key` among `entries`, if it is there.
fn find_key<V>(entries: &Vec<(ResourceKey, V)>, key: &ResourceKey) -> (res: Option<usize>)
    ensures
        match res {
            Some(i) => i < entries.len() && entries@[i as int].0@ == key@,
            None => !holds_key(entries@, key@),
        },
{
    let mut i: usize = 0;
    while i < entries.len()
        invariant
            i <= entries.len(),
            forall|j: int| 0 <= j < i ==> #[trigger] entries@[j].0@ != key@,
        decreases entries.len() - i,
    {
        if entries[i].0 == *key {
            return Some(i);
        }
        i = i + 1;
    }
    None
}

/// Stores `value` under `key`, replacing what was there; returns the value
/// that was replaced.
fn put_entry<V>(entries: &mut Vec<(ResourceKey, V)>, key: ResourceKey, value: V) -> (res: Option<V>)
    requires
        keys_unique(old(entries)@),
    ensures
        keys_unique(final(entries)@),
        entries_map(final(entries)@) == entries_map(old(entries)@).insert(key@, value),
        match res {
            Some(v) => entries_map(old(entries)@).contains_key(key@) && v == entries_map(
                old(entries)@,
            )[key@],
            None => !entries_map(old(entries)@).contains_key(key@),
        },
{
    let ghost k = key@;
    let ghost old_entries = entries@;
    match find_key(entries, &key) {
        Some(i) => {
            proof {
                lemma_entries_map_at(old_entries, i as int);
            }
            let mut pair = (key, value);
            std::mem::swap(&mut entries[i], &mut pair);
            let (_, previous) = pair;
            proof {
                assert(entries@ == old_entries.update(i as int, (entries@[i as int].0, value)));
                assert forall|a: int, b: int|
                    0 <= a < b < entries@.len() implies #[trigger] entries@[a].0@
                    != #[trigger] entries@[b].0@ by {
                    if a != i as int && b != i as int {
                        assert(old_entries[a].0@ != old_entries[b].0@);
                    } else if a == i as int {
                        assert(old_entries[a].0@ != old_entries[b].0@);
                    } else {
                        assert(old_entries[a].0@ != old_entries[b].0@);
                    }
                }
                assert forall|q: ResourceKeyView|
                    #[trigger] entries_map(entries@).contains_key(q)
                        == entries_map(old_entries).insert(k, value).contains_key(q) by {
                    if holds_key(old_entries, q) {
                        let j = choose|j: int| 0 <= j < old_entries.len() && #[trigger] old_entries[j].0@ == q;
                        assert(entries@[j].0@ == q);
                    }
                    if holds_key(entries@, q) {
                        let j = choose|j: int| 0 <= j < entries@.len() && #[trigger] entries@[j].0@ == q;
                        assert(old_entries[j].0@ == q);
                    }
                }
                assert forall|q: ResourceKeyView|
                    #[trigger] entries_map(entries@).contains_key(q) implies entries_map(entries@)[q]
                        == entries_map(old_entries).insert(k, value)[q] by {
                    let j = choose|j: int| 0 <= j < entries@.len() && #[trigger] entries@[j].0@ == q;
                    lemma_entries_map_at(entries@, j);
                    if j != i as int {
                        lemma_entries_map_at(old_entries, j);
                    }
                }
                assert(entries_map(entries@) =~= entries_map(old_entries).insert(k, value));
            }
            Some(previous)
        },
        None => {
            entries.push((key, value));
            proof {
                let n = old_entries.len() as int;
                assert forall|a: int, b: int|
                    0 <= a < b < entries@.len() implies #[trigger] entries@[a].0@
                    != #[trigger] entries@[b].0@ by {
                    if b == n {
                        assert(old_entries[a].0@ != k);
                    } else {
                        assert(old_entries[a].0@ != old_entries[b].0@);
                    }
                }
                assert forall|q: ResourceKeyView|
                    #[trigger] entries_map(entries@).contains_key(q)
                        == entries_map(old_entries).insert(k, value).contains_key(q) by {
                    if holds_key(old_entries, q) {
                        let j = choose|j: int| 0 <= j < old_entries.len() && #[trigger] old_entries[j].0@ == q;
                        assert(entries@[j].0@ == q);
                    }
                    if q == k {
                        assert(entries@[n].0@ == q);
                    }
                    if holds_key(entries@, q) {
                        let j = choose|j: int| 0 <= j < entries@.len() && #[trigger] entries@[j].0@ == q;
                        if j < n {
                            assert(old_entries[j].0@ == q);
                        }
                    }
                }
                assert forall|q: ResourceKeyView|
                    #[trigger] entries_map(entries@).contains_key(q) implies entries_map(entries@)[q]
                        == entries_map(old_entries).insert(k, value)[q] by {
                    let j = choose|j: int| 0 <= j < entries@.len() && #[trigger] entries@[j].0@ == q;
                    lemma_entries_map_at(entries@, j);
                    if j < n {
                        lemma_entries_map_at(old_entries, j);
                    }
                }
                assert(entries_map(entries@) =~= entries_map(old_entries).insert(k, value));
            }
            None
        },
    }
}

/// The value stored under `key`, if any.
fn get_entry<'a, V>(entries: &'a Vec<(ResourceKey, V)>, key: &ResourceKey) -> (res: Option<&'a V>)
    requires
        keys_unique(entries@),
    ensures
        match res {
            Some(v) => entries_map(entries@).contains_key(key@) && *v == entries_map(entries@)[key@],
            None => !entries_map(entries@).contains_key(key@),
        },
{
    match find_key(entries, key) {
        Some(i) => {
            proof {
                lemma_entries_map_at(entries@, i as int);
            }
            Some(&entries[i].1)
        },
        None => None,
    }
}

/// The GPU resources that nodes produce and consume, each stored under a
/// [`ResourceKey`]. No key occurs twice in either table.
pub struct ResourceRegistry {
    textures: Vec<(ResourceKey, wgpu::Texture)>,
    views: Vec<(ResourceKey, wgpu::TextureView)>,
}

impl ResourceRegistry {
    /// Well-formedness: each table holds every key at most once.
    pub closed spec fn wf(&self) -> bool {
        keys_unique(self.textures@) && keys_unique(self.views@)
    }

    /// The textures, by key.
    pub closed spec fn textures_map(&self) -> Map<ResourceKeyView, wgpu::Texture> {
        entries_map(self.textures@)
    }

    /// The texture views, by key.
    pub closed spec fn views_map(&self) -> Map<ResourceKeyView, wgpu::TextureView> {
        entries_map(self.views@)
    }

    /// An empty registry.
    pub fn new() -> (reg: Self)
        ensures
            reg.wf(),
            reg.textures_map() == Map::<ResourceKeyView, wgpu::Texture>::empty(),
            reg.views_map() == Map::<ResourceKeyView, wgpu::TextureView>::empty(),
    {
        let reg = Self { textures: Vec::new(), views: Vec::new() };
        assert(reg.textures_map() =~= Map::<ResourceKeyView, wgpu::Texture>::empty());
        assert(reg.views_map() =~= Map::<ResourceKeyView, wgpu::TextureView>::empty());
        reg
    }

    /// Stores `texture` under `key`; returns the texture it replaces.
    pub fn insert_texture(&mut self, key: ResourceKey, texture: wgpu::Texture) -> (res: Option<
        wgpu::Texture,
    >)
        requires
            old(self).wf(),
        ensures
            final(self).wf(),
            final(self).textures_map() == old(self).textures_map().insert(key@, texture),
            final(self).views_map() == old(self).views_map(),
            match res {
                Some(t) => old(self).textures_map().contains_key(key@) && t == old(
                    self,
                ).textures_map()[key@],
                None => !old(self).textures_map().contains_key(key@),
            },
    {
        put_entry(&mut self.textures, key, texture)
    }

    /// Stores `view` under `key`; returns the view it replaces.
    pub fn insert_view(&mut self, key: ResourceKey, view: wgpu::TextureView) -> (res: Option<
        wgpu::TextureView,
    >)
        requires
            old(self).wf(),
        ensures
            final(self).wf(),
            final(self).views_map() == old(self).views_map().insert(key@, view),
            final(self).textures_map() == old(self).textures_map(),
            match res {
                Some(v) => old(self).views_map().contains_key(key@) && v == old(
                    self,
                ).views_map()[key@],
                None => !old(self).views_map().contains_key(key@),
            },
    {
        put_entry(&mut self.views, key, view)
    }

    /// The texture stored under `key`.
    pub fn get_texture(&self, key: &ResourceKey) -> (res: Option<&wgpu::Texture>)
        requires
            self.wf(),
        ensures
            match res {
                Some(t) => self.textures_map().contains_key(key@) && *t == self.textures_map()[key@],
                None => !self.textures_map().contains_key(key@),
            },
    {
        get_entry(&self.textures, key)
    }

    /// The view stored under `key`.
    pub fn get_view(&self, key: &ResourceKey) -> (res: Option<&wgpu::TextureView>)
        requires
            self.wf(),
        ensures
            match res {
                Some(v) => self.views_map().contains_key(key@) && *v == self.views_map()[key@],
                None => !self.views_map().contains_key(key@),
            },
    {
        get_entry(&self.views, key)
    }

    /// Hands the view stored under `from` on to `to`: where `from` holds a
    /// view, `to` then holds the same view; otherwise nothing changes.
    pub fn bridge(&mut self, from: &ResourceKey, to: ResourceKey)
        requires
            old(self).wf(),
        ensures
            final(self).wf(),
            final(self).textures_map() == old(self).textures_map(),
            final(self).views_map() == if old(self).views_map().contains_key(from@) {
                old(self).views_map().insert(to@, old(self).views_map()[from@])
            } else {
                old(self).views_map()
            },
    {
        let copied = match self.get_view(from) {
            Some(view) => Some(clone_view(view)),
            None => None,
        };
        if let Some(view) = copied {
            self.insert_view(to, view);
        }
    }
}

/// A view written under a key is what a read of that key gives back, and
/// reads of every other key give back what they gave before the write.
pub proof fn law_view_read_after_write(
    views: Map<ResourceKeyView, wgpu::TextureView>,
    key: ResourceKeyView,
    view: wgpu::TextureView,
    other: ResourceKeyView,
)
    ensures
        views.insert(key, view).contains_key(key),
        views.insert(key, view)[key] == view,
        other != key ==> views.insert(key, view).contains_key(other) == views.contains_key(other),
        other != key && views.contains_key(other) ==> views.insert(key, view)[other] == views[other],
{
}

/// After a bridge from a key that holds a view, the target holds the same
/// view as the source; a bridge from a key without a view changes nothing.
pub proof fn law_bridge_shares_the_view(
    views: Map<ResourceKeyView, wgpu::TextureView>,
    from: ResourceKeyView,
    to: ResourceKeyView,
)
    ensures
        views.contains_key(from) ==> ({
            let after = views.insert(to, views[from]);
            &&& after.contains_key(to)
            &&& after.contains_key(from)
            &&& after[to] == after[from]
        }),
{
}

} // verus!
