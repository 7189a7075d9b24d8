use vstd::prelude::*;
use crate::input::{Key, MouseButton};
use crate::math::IntPair;
use crate::state::{
    fan_out, queue_view, with_name, without_name, Notification, OptionalState, OptionalStateEvent, SameAs, State, StateChangedEvent, StateVec,
    StateVecEvent,
};

verus! {

/// A strong handle on a gadget of a `GadgetTree`: the slot it lives in.
/// Two handles are equal exactly when they denote the same gadget.
#[derive(Debug, Clone, Copy, PartialEq, Eq, Structural)]
pub struct Gadget {
    pub id: usize,
}

/// A non-owning reference to a gadget; `None` refers to no gadget at all.
#[derive(Debug, Clone, Copy, PartialEq, Eq, Structural)]
pub struct GadgetRef {
    pub id: Option<usize>,
}

/// A non-owning reference to a window.
#[derive(Debug, Clone, Copy, PartialEq, Eq, Structural)]
pub struct WindowRef {
    pub id: usize,
}

/// What a gadget hangs from.
#[derive(Debug, Clone, Copy, PartialEq, Eq, Structural)]
pub enum GadgetParent {
    Detached,
    Gadget(GadgetRef),
    Window(WindowRef),
}

impl SameAs for Gadget {
    fn same_as(&self, other: &Self) -> (r: bool) {
        self.id == other.id
    }
}

impl Gadget {
    pub open spec fn spec_refer(self) -> GadgetRef {
        GadgetRef { id: Some(self.id) }
    }

    /// A non-owning reference to this gadget.
    pub fn refer(&self) -> (r: GadgetRef)
        ensures
            r == self.spec_refer(),
    {
        GadgetRef { id: Some(self.id) }
    }
}

/// The cells of one gadget.
pub struct GadgetInner {
    pub pos: State<IntPair>,
    pub dim: State<IntPair>,
    pub enabled: State<bool>,
    pub parent: State<GadgetParent>,
    pub children: StateVec<Gadget>,
    pub propagate: State<bool>,
    pub accept_focus: State<bool>,
    pub lock_focus: State<bool>,
    pub focused: State<bool>,
    pub mouse_down: StateVec<MouseButton>,
    pub mouse_pos: OptionalState<IntPair>,
    pub key_down: StateVec<Key>,
    pub accept_text: State<bool>,
    pub pre_edit_pos: State<usize>,
}

/// One gadget as the contracts see it. A slot whose gadget was destroyed is
/// not `live`, and stays so.
pub struct NodeView {
    pub live: bool,
    pub strong: nat,
    pub pos: IntPair,
    pub dim: IntPair,
    pub parent: GadgetParent,
    pub children: Seq<Gadget>,
    pub enabled: bool,
    pub propagate: bool,
    pub accept_focus: bool,
    pub lock_focus: bool,
    pub focused: bool,
    pub key_down: Seq<Key>,
    pub mouse_down: Seq<MouseButton>,
    pub mouse_pos: Option<IntPair>,
}

/// The cells of `i` hold what `n` says.
pub open spec fn inner_matches(i: GadgetInner, n: NodeView) -> bool {
    &&& i.pos.value() == n.pos
    &&& i.dim.value() == n.dim
    &&& i.parent.value() == n.parent
    &&& i.children.items() == n.children
    &&& i.enabled.value() == n.enabled
    &&& i.propagate.value() == n.propagate
    &&& i.accept_focus.value() == n.accept_focus
    &&& i.lock_focus.value() == n.lock_focus
    &&& i.focused.value() == n.focused
    &&& i.key_down.items() == n.key_down
    &&& i.mouse_down.items() == n.mouse_down
    &&& i.mouse_pos.value() == n.mouse_pos
}

struct Slot {
    strong: u64,
    inner: Option<GadgetInner>,
}

spec fn slot_view(s: Slot) -> NodeView {
    match s.inner {
        Some(i) => NodeView {
            live: true,
            strong: s.strong as nat,
            pos: i.pos.value(),
            dim: i.dim.value(),
            parent: i.parent.value(),
            children: i.children.items(),
            enabled: i.enabled.value(),
            propagate: i.propagate.value(),
            accept_focus: i.accept_focus.value(),
            lock_focus: i.lock_focus.value(),
            focused: i.focused.value(),
            key_down: i.key_down.items(),
            mouse_down: i.mouse_down.items(),
            mouse_pos: i.mouse_pos.value(),
        },
        None => dead_node(),
    }
}

/// What is left of a destroyed gadget.
pub open spec fn dead_node() -> NodeView {
    NodeView {
        live: false,
        strong: 0,
        pos: IntPair { x: 0, y: 0 },
        dim: IntPair { x: 0, y: 0 },
        parent: GadgetParent::Detached,
        children: Seq::empty(),
        enabled: false,
        propagate: false,
        accept_focus: false,
        lock_focus: false,
        focused: false,
        key_down: Seq::empty(),
        mouse_down: Seq::empty(),
        mouse_pos: None,
    }
}

/// The gadgets of a program, each in its own slot. A gadget lives while it
/// has a strong owner: a handle held through `create` or `retain`, or the
/// children list of a live parent. A slot is never reused, so a reference to
/// a destroyed gadget never resolves again.
pub struct GadgetTree {
    slots: Vec<Slot>,
}

impl View for GadgetTree {
    type V = Seq<NodeView>;

    closed spec fn view(&self) -> Seq<NodeView> {
        self.slots@.map_values(|s: Slot| slot_view(s))
    }
}

/// Whether slot `id` holds a gadget.
pub open spec fn live(t: Seq<NodeView>, id: int) -> bool {
    0 <= id < t.len() && t[id].live
}

/// What a reference resolves to.
pub open spec fn resolve(t: Seq<NodeView>, r: GadgetRef) -> Option<Gadget> {
    match r.id {
        Some(i) => if live(t, i as int) {
            Some(Gadget { id: i })
        } else {
            None
        },
        None => None,
    }
}

/// The live gadget that `id` hangs from, if any.
pub open spec fn parent_node(t: Seq<NodeView>, id: int) -> Option<int> {
    match t[id].parent {
        GadgetParent::Gadget(r) => match r.id {
            Some(p) => if live(t, p as int) {
                Some(p as int)
            } else {
                None
            },
            None => None,
        },
        _ => None,
    }
}

/// The shape of the tree: every child of a live gadget is live and names it
/// as parent, no children list holds a gadget twice, every gadget with a live
/// parent is in that parent's list, and a live gadget has an owner.
pub open spec fn tree_wf(t: Seq<NodeView>) -> bool {
    &&& t.len() <= usize::MAX
    &&& forall|p: int, k: int|
        #![trigger t[p].children[k]]
        live(t, p) && 0 <= k < t[p].children.len() ==> {
            &&& live(t, t[p].children[k].id as int)
            &&& t[t[p].children[k].id as int].parent == GadgetParent::Gadget(
                GadgetRef { id: Some(p as usize) },
            )
        }
    &&& forall|p: int| #![trigger t[p]] live(t, p) ==> t[p].children.no_duplicates()
    &&& forall|n: int|
        #![trigger parent_node(t, n)]
        live(t, n) && parent_node(t, n) is Some ==> t[parent_node(t, n)->Some_0].children.contains(
            Gadget { id: n as usize },
        )
    &&& forall|n: int| #![trigger t[n]] live(t, n) ==> t[n].strong >= 1 && parent_in_range(t, n)
}

/// The parent of `n`, if a gadget, lies in a slot that exists.
pub open spec fn parent_in_range(t: Seq<NodeView>, n: int) -> bool {
    match t[n].parent {
        GadgetParent::Gadget(r) => match r.id {
            Some(p) => p < t.len(),
            None => true,
        },
        _ => true,
    }
}

/// `a` and `b` are the same gadget but for the number of owners.
pub open spec fn same_but_strong(a: NodeView, b: NodeView) -> bool {
    &&& a.live == b.live
    &&& a.pos == b.pos
    &&& a.dim == b.dim
    &&& a.parent == b.parent
    &&& a.children == b.children
    &&& a.enabled == b.enabled
    &&& a.propagate == b.propagate
    &&& a.accept_focus == b.accept_focus
    &&& a.lock_focus == b.lock_focus
    &&& a.focused == b.focused
    &&& a.key_down == b.key_down
    &&& a.mouse_down == b.mouse_down
    &&& a.mouse_pos == b.mouse_pos
}

/// From `old` to `new` gadgets were only destroyed or lost owners: no slot
/// came or came back, and every survivor kept its shape.
pub open spec fn only_released(old: Seq<NodeView>, new: Seq<NodeView>) -> bool {
    &&& new.len() == old.len()
    &&& forall|j: int| #![trigger new[j]] live(new, j) ==> live(old, j) && same_but_strong(old[j], new[j])
}

impl GadgetRef {
    /// A reference that resolves to nothing.
    pub fn dangling() -> (r: Self)
        ensures
            r.id is None,
    {
        GadgetRef { id: None }
    }

    /// The gadget referred to, if it still exists.
    pub fn get(&self, tree: &GadgetTree) -> (r: Option<Gadget>)
        ensures
            r == resolve(tree@, *self),
    {
        match self.id {
            Some(i) => if tree.is_live(i) {
                Some(Gadget { id: i })
            } else {
                None
            },
            None => None,
        }
    }
}

impl GadgetTree {
    /// The cells of the gadget in slot `id`; meaningful while it lives.
    pub closed spec fn inner_at(&self, id: int) -> GadgetInner {
        self.slots@[id].inner->Some_0
    }

    pub fn new() -> (r: Self)
        ensures
            r@ == Seq::<NodeView>::empty(),
            r.wf(),
            acyclic(r@),
    {
        let r = GadgetTree { slots: Vec::new() };
        proof {
            assert(r@ =~= Seq::<NodeView>::empty());
        }
        r
    }

    /// Number of slots, destroyed gadgets included.
    pub fn len(&self) -> (r: usize)
        ensures
            r == self@.len(),
    {
        self.slots.len()
    }

    pub fn is_live(&self, id: usize) -> (r: bool)
        ensures
            r == live(self@, id as int),
    {
        if id < self.slots.len() {
            match &self.slots[id].inner {
                Some(_) => true,
                None => false,
            }
        } else {
            false
        }
    }

    /// The cells of `g`, if it still exists.
    pub fn inner(&self, g: Gadget) -> (r: Option<&GadgetInner>)
        ensures
            match r {
                Some(i) => live(self@, g.id as int) && inner_matches(*i, self@[g.id as int])
                    && *i == self.inner_at(g.id as int),
                None => !live(self@, g.id as int),
            },
    {
        if g.id < self.slots.len() {
            let s = &self.slots[g.id];
            match &s.inner {
                Some(i) => Some(i),
                None => None,
            }
        } else {
            None
        }
    }
}

/// A gadget as `create` makes it: enabled, detached, childless, letting the
/// focus search pass through it, accepting no focus itself, with one owner.
pub open spec fn default_node() -> NodeView {
    NodeView {
        live: true,
        strong: 1,
        pos: IntPair { x: 0, y: 0 },
        dim: IntPair { x: 0, y: 0 },
        parent: GadgetParent::Detached,
        children: Seq::empty(),
        enabled: true,
        propagate: true,
        accept_focus: false,
        lock_focus: false,
        focused: false,
        key_down: Seq::empty(),
        mouse_down: Seq::empty(),
        mouse_pos: None,
    }
}

impl GadgetTree {
    pub open spec fn wf(&self) -> bool {
        tree_wf(self@)
    }

    /// A new gadget with default cells, owned by the caller.
    pub fn create(&mut self) -> (g: Gadget)
        requires
            old(self).wf(),
        ensures
            final(self).wf(),
            g.id == old(self)@.len(),
            final(self)@ == old(self)@.push(default_node()),
            acyclic(old(self)@) ==> acyclic(final(self)@),
            fresh_cells(final(self).inner_at(g.id as int)),
    {
        let id = self.slots.len();
        let me = GadgetRef { id: Some(id) };
        let origin = IntPair::new(0, 0);
        let inner = GadgetInner {
            pos: State::new(me, origin),
            dim: State::new(me, origin),
            enabled: State::new(me, true),
            parent: State::new(me, GadgetParent::Detached),
            children: StateVec::new(me),
            propagate: State::new(me, true),
            accept_focus: State::new(me, false),
            lock_focus: State::new(me, false),
            focused: State::new(me, false),
            mouse_down: StateVec::new(me),
            mouse_pos: OptionalState::new_empty(me),
            key_down: StateVec::new(me),
            accept_text: State::new(me, false),
            pre_edit_pos: State::new(me, 0),
        };
        self.slots.push(Slot { strong: 1, inner: Some(inner) });
        let total = self.slots.len();
        proof {
            assert(self@.len() == total);
            let t = self@;
            assert(t =~= old(self)@.push(default_node()));
            assert(t[id as int].children =~= Seq::<Gadget>::empty());
            assert forall|n: int| #![trigger parent_node(t, n)]
                live(t, n) && parent_node(t, n) is Some implies t[parent_node(
                    t,
                    n,
                )->Some_0].children.contains(Gadget { id: n as usize }) by {
                assert(n != id);
                assert(t[n] == old(self)@[n]);
                assert(parent_node(t, n) == parent_node(old(self)@, n));
            }
            if acyclic(old(self)@) {
                assert forall|m: int| #![trigger parent_node(t, m)]
                    live(t, m) && parent_node(t, m) is Some implies live(old(self)@, m)
                    && parent_node(t, m) == parent_node(old(self)@, m) by {
                    assert(t[m] == t[m]);
                    assert(old(self)@[m] == old(self)@[m]);
                }
                lemma_acyclic_shorter(old(self)@, t);
            }
        }
        Gadget { id }
    }

    /// Number of owners of `g`; zero once it is destroyed.
    pub fn strong_count(&self, g: Gadget) -> (r: u64)
        ensures
            r == self@[g.id as int].strong || !live(self@, g.id as int) && r == 0,
    {
        if g.id < self.slots.len() {
            match &self.slots[g.id].inner {
                Some(_) => self.slots[g.id].strong,
                None => 0,
            }
        } else {
            0
        }
    }

    /// Registers one more owner of `g`; `false`, with nothing changed, if `g`
    /// no longer exists or its count of owners is at its limit.
    pub fn retain(&mut self, g: Gadget) -> (r: bool)
        requires
            old(self).wf(),
        ensures
            final(self).wf(),
            r == (live(old(self)@, g.id as int) && old(self)@[g.id as int].strong < u64::MAX),
            r ==> final(self)@ == old(self)@.update(
                g.id as int,
                (NodeView { strong: old(self)@[g.id as int].strong + 1, ..old(self)@[g.id as int] }),
            ),
            !r ==> final(self)@ == old(self)@,
    {
        if g.id < self.slots.len() && self.slots[g.id].inner.is_some()
            && self.slots[g.id].strong < u64::MAX {
            let n = self.slots[g.id].strong + 1;
            self.slots[g.id].strong = n;
            proof {
                let t = self@;
                assert(t =~= old(self)@.update(
                    g.id as int,
                    (NodeView { strong: old(self)@[g.id as int].strong + 1, ..old(self)@[g.id as int] }),
                ));
                assert forall|m: int| #![trigger parent_node(t, m)]
                    live(t, m) && parent_node(t, m) is Some implies t[parent_node(
                        t,
                        m,
                    )->Some_0].children.contains(Gadget { id: m as usize }) by {
                    assert(parent_node(t, m) == parent_node(old(self)@, m));
                }
            }
            true
        } else {
            false
        }
    }
}

/// `a` and `b` have the same shape: the same gadgets, owners, parents and
/// children.
pub open spec fn same_shape(a: Seq<NodeView>, b: Seq<NodeView>) -> bool {
    &&& a.len() == b.len()
    &&& forall|j: int|
        #![trigger b[j]]
        0 <= j < b.len() ==> {
            &&& a[j].live == b[j].live
            &&& a[j].strong == b[j].strong
            &&& a[j].parent == b[j].parent
            &&& a[j].children == b[j].children
        }
}

proof fn lemma_wf_same_shape(a: Seq<NodeView>, b: Seq<NodeView>)
    requires
        tree_wf(a),
        same_shape(a, b),
    ensures
        tree_wf(b),
{
    assert forall|n: int| #![trigger parent_node(b, n)]
        live(b, n) && parent_node(b, n) is Some implies b[parent_node(
            b,
            n,
        )->Some_0].children.contains(Gadget { id: n as usize }) by {
        assert(a[n] == a[n]);
        assert(parent_node(b, n) == parent_node(a, n));
        let p = parent_node(a, n)->Some_0;
        assert(b[p].children == a[p].children);
    }
    assert forall|p: int, k: int|
        #![trigger b[p].children[k]]
        live(b, p) && 0 <= k < b[p].children.len() implies {
            &&& live(b, b[p].children[k].id as int)
            &&& b[b[p].children[k].id as int].parent == GadgetParent::Gadget(
                GadgetRef { id: Some(p as usize) },
            )
        } by {
        assert(a[p].children == b[p].children);
        assert(a[p].children[k] == b[p].children[k]);
        let c = b[p].children[k].id as int;
        assert(live(a, c));
        assert(b[c] == b[c]);
    }
    assert forall|n: int| #![trigger b[n]] live(b, n) implies b[n].strong >= 1 && parent_in_range(b, n) by {
        assert(a[n] == a[n]);
    }
}

impl GadgetTree {
    /// Enables or disables `g`. Nothing happens if `g` no longer exists.
    pub fn set_enabled(&mut self, g: Gadget, v: bool)
        requires
            old(self).wf(),
        ensures
            final(self).wf(),
            live(old(self)@, g.id as int) ==> final(self)@ == old(self)@.update(
                g.id as int,
                (NodeView { enabled: v, ..old(self)@[g.id as int] }),
            ),
            !live(old(self)@, g.id as int) ==> final(self)@ == old(self)@,
            live(old(self)@, g.id as int) ==> same_registries(
                old(self).inner_at(g.id as int),
                final(self).inner_at(g.id as int),
            ),
            live(old(self)@, g.id as int) ==> ({
                let c = old(self).inner_at(g.id as int).enabled;
                final(self).inner_at(g.id as int).enabled.pending() == c.pending() + fan_out(
                    c.listeners(),
                    c.event_for(v),
                )
            }),
    {
        if g.id < self.slots.len() {
            match &mut self.slots[g.id].inner {
                Some(inner) => inner.enabled.set(v),
                None => {},
            }
        }
        proof {
            if live(old(self)@, g.id as int) {
                assert(self@ =~= old(self)@.update(
                    g.id as int,
                    (NodeView { enabled: v, ..old(self)@[g.id as int] }),
                ));
            } else {
                assert(self@ =~= old(self)@);
            }
            lemma_wf_same_shape(old(self)@, self@);
        }
    }

    /// Lets the focus search descend into `g`, or stops it there. Nothing happens if `g` no longer exists.
    pub fn set_propagate(&mut self, g: Gadget, v: bool)
        requires
            old(self).wf(),
        ensures
            final(self).wf(),
            live(old(self)@, g.id as int) ==> final(self)@ == old(self)@.update(
                g.id as int,
                (NodeView { propagate: v, ..old(self)@[g.id as int] }),
            ),
            !live(old(self)@, g.id as int) ==> final(self)@ == old(self)@,
            live(old(self)@, g.id as int) ==> same_registries(
                old(self).inner_at(g.id as int),
                final(self).inner_at(g.id as int),
            ),
            live(old(self)@, g.id as int) ==> ({
                let c = old(self).inner_at(g.id as int).propagate;
                final(self).inner_at(g.id as int).propagate.pending() == c.pending() + fan_out(
                    c.listeners(),
                    c.event_for(v),
                )
            }),
    {
        if g.id < self.slots.len() {
            match &mut self.slots[g.id].inner {
                Some(inner) => inner.propagate.set(v),
                None => {},
            }
        }
        proof {
            if live(old(self)@, g.id as int) {
                assert(self@ =~= old(self)@.update(
                    g.id as int,
                    (NodeView { propagate: v, ..old(self)@[g.id as int] }),
                ));
            } else {
                assert(self@ =~= old(self)@);
            }
            lemma_wf_same_shape(old(self)@, self@);
        }
    }

    /// Sets whether `g` votes to accept focus. Nothing happens if `g` no longer exists.
    pub fn set_accept_focus(&mut self, g: Gadget, v: bool)
        requires
            old(self).wf(),
        ensures
            final(self).wf(),
            live(old(self)@, g.id as int) ==> final(self)@ == old(self)@.update(
                g.id as int,
                (NodeView { accept_focus: v, ..old(self)@[g.id as int] }),
            ),
            !live(old(self)@, g.id as int) ==> final(self)@ == old(self)@,
            live(old(self)@, g.id as int) ==> same_registries(
                old(self).inner_at(g.id as int),
                final(self).inner_at(g.id as int),
            ),
            live(old(self)@, g.id as int) ==> ({
                let c = old(self).inner_at(g.id as int).accept_focus;
                final(self).inner_at(g.id as int).accept_focus.pending() == c.pending() + fan_out(
                    c.listeners(),
                    c.event_for(v),
                )
            }),
    {
        if g.id < self.slots.len() {
            match &mut self.slots[g.id].inner {
                Some(inner) => inner.accept_focus.set(v),
                None => {},
            }
        }
        proof {
            if live(old(self)@, g.id as int) {
                assert(self@ =~= old(self)@.update(
                    g.id as int,
                    (NodeView { accept_focus: v, ..old(self)@[g.id as int] }),
                ));
            } else {
                assert(self@ =~= old(self)@);
            }
            lemma_wf_same_shape(old(self)@, self@);
        }
    }

    /// Sets whether `g` votes to keep focus it holds. Nothing happens if `g` no longer exists.
    pub fn set_lock_focus(&mut self, g: Gadget, v: bool)
        requires
            old(self).wf(),
        ensures
            final(self).wf(),
            live(old(self)@, g.id as int) ==> final(self)@ == old(self)@.update(
                g.id as int,
                (NodeView { lock_focus: v, ..old(self)@[g.id as int] }),
            ),
            !live(old(self)@, g.id as int) ==> final(self)@ == old(self)@,
            live(old(self)@, g.id as int) ==> same_registries(
                old(self).inner_at(g.id as int),
                final(self).inner_at(g.id as int),
            ),
            live(old(self)@, g.id as int) ==> ({
                let c = old(self).inner_at(g.id as int).lock_focus;
                final(self).inner_at(g.id as int).lock_focus.pending() == c.pending() + fan_out(
                    c.listeners(),
                    c.event_for(v),
                )
            }),
    {
        if g.id < self.slots.len() {
            match &mut self.slots[g.id].inner {
                Some(inner) => inner.lock_focus.set(v),
                None => {},
            }
        }
        proof {
            if live(old(self)@, g.id as int) {
                assert(self@ =~= old(self)@.update(
                    g.id as int,
                    (NodeView { lock_focus: v, ..old(self)@[g.id as int] }),
                ));
            } else {
                assert(self@ =~= old(self)@);
            }
            lemma_wf_same_shape(old(self)@, self@);
        }
    }

    /// Sets the focused flag of `g`. Nothing happens if `g` no longer exists.
    pub fn set_focused(&mut self, g: Gadget, v: bool)
        requires
            old(self).wf(),
        ensures
            final(self).wf(),
            live(old(self)@, g.id as int) ==> final(self)@ == old(self)@.update(
                g.id as int,
                (NodeView { focused: v, ..old(self)@[g.id as int] }),
            ),
            !live(old(self)@, g.id as int) ==> final(self)@ == old(self)@,
            live(old(self)@, g.id as int) ==> same_registries(
                old(self).inner_at(g.id as int),
                final(self).inner_at(g.id as int),
            ),
            live(old(self)@, g.id as int) ==> ({
                let c = old(self).inner_at(g.id as int).focused;
                final(self).inner_at(g.id as int).focused.pending() == c.pending() + fan_out(
                    c.listeners(),
                    c.event_for(v),
                )
            }),
    {
        if g.id < self.slots.len() {
            match &mut self.slots[g.id].inner {
                Some(inner) => inner.focused.set(v),
                None => {},
            }
        }
        proof {
            if live(old(self)@, g.id as int) {
                assert(self@ =~= old(self)@.update(
                    g.id as int,
                    (NodeView { focused: v, ..old(self)@[g.id as int] }),
                ));
            } else {
                assert(self@ =~= old(self)@);
            }
            lemma_wf_same_shape(old(self)@, self@);
        }
    }

}

/// `t` with one owner fewer for `id`.
pub open spec fn with_one_owner_less(t: Seq<NodeView>, id: int) -> Seq<NodeView> {
    t.update(id, (NodeView { strong: (t[id].strong - 1) as nat, ..t[id] }))
}

proof fn lemma_wf_one_owner_less(t: Seq<NodeView>, id: int)
    requires
        tree_wf(t),
        live(t, id),
        t[id].strong > 1,
    ensures
        tree_wf(with_one_owner_less(t, id)),
        only_released(t, with_one_owner_less(t, id)),
{
    let b = with_one_owner_less(t, id);
    assert forall|n: int| #![trigger parent_node(b, n)]
        live(b, n) && parent_node(b, n) is Some implies b[parent_node(
            b,
            n,
        )->Some_0].children.contains(Gadget { id: n as usize }) by {
        assert(parent_node(b, n) == parent_node(t, n));
        let p = parent_node(t, n)->Some_0;
        assert(b[p].children == t[p].children);
    }
    assert forall|p: int, k: int|
        #![trigger b[p].children[k]]
        live(b, p) && 0 <= k < b[p].children.len() implies {
            &&& live(b, b[p].children[k].id as int)
            &&& b[b[p].children[k].id as int].parent == GadgetParent::Gadget(
                GadgetRef { id: Some(p as usize) },
            )
        } by {
        assert(t[p].children == b[p].children);
        assert(t[p].children[k] == b[p].children[k]);
    }
}

proof fn lemma_wf_destroy(t: Seq<NodeView>, id: int)
    requires
        tree_wf(t),
        live(t, id),
        parent_node(t, id) is None,
    ensures
        tree_wf(t.update(id, dead_node())),
        only_released(t, t.update(id, dead_node())),
{
    let b = t.update(id, dead_node());
    assert forall|n: int| #![trigger parent_node(b, n)]
        live(b, n) && parent_node(b, n) is Some implies b[parent_node(
            b,
            n,
        )->Some_0].children.contains(Gadget { id: n as usize }) by {
        assert(parent_node(b, n) == parent_node(t, n));
        let p = parent_node(t, n)->Some_0;
        assert(b[p].children == t[p].children);
    }
    assert forall|p: int, k: int|
        #![trigger b[p].children[k]]
        live(b, p) && 0 <= k < b[p].children.len() implies {
            &&& live(b, b[p].children[k].id as int)
            &&& b[b[p].children[k].id as int].parent == GadgetParent::Gadget(
                GadgetRef { id: Some(p as usize) },
            )
        } by {
        assert(t[p].children == b[p].children);
        assert(t[p].children[k] == b[p].children[k]);
        let c = t[p].children[k].id as int;
        if c == id {
            assert(p as usize as int == p);
            assert(parent_node(t, id) == Some(p));
        }
    }
}

impl GadgetTree {
    /// Takes one owner from gadget `id`. When none is left the gadget is
    /// destroyed, and each of its children loses the owner that it was.
    fn release_owner(&mut self, id: usize, fuel: usize)
        requires
            old(self).wf(),
            live(old(self)@, id as int) && parent_node(old(self)@, id as int) is Some
                ==> old(self)@[id as int].strong > 1,
        ensures
            final(self).wf(),
            only_released(old(self)@, final(self)@),
            !live(old(self)@, id as int) ==> final(self)@ == old(self)@,
            live(old(self)@, id as int) && old(self)@[id as int].strong > 1 ==> final(self)@
                == with_one_owner_less(old(self)@, id as int),
            live(old(self)@, id as int) && old(self)@[id as int].strong == 1 ==> !live(
                final(self)@,
                id as int,
            ),
            forall|j: int|
                #![trigger final(self).inner_at(j)]
                live(final(self)@, j) ==> final(self).inner_at(j) == old(self).inner_at(j),
        decreases fuel,
    {
        if id >= self.slots.len() || self.slots[id].inner.is_none() {
            return ;
        }
        let s = self.slots[id].strong;
        if s > 1 {
            self.slots[id].strong = s - 1;
            proof {
                assert(self@ =~= with_one_owner_less(old(self)@, id as int));
                lemma_wf_one_owner_less(old(self)@, id as int);
            }
            return ;
        }
        let mut taken: Option<GadgetInner> = None;
        std::mem::swap(&mut taken, &mut self.slots[id].inner);
        self.slots[id].strong = 0;
        proof {
            assert(self@ =~= old(self)@.update(id as int, dead_node()));
            lemma_wf_destroy(old(self)@, id as int);
        }
        if fuel == 0 {
            return ;
        }
        match taken {
            Some(inner) => {
                let kids = inner.children.get_vec();
                let mut k: usize = 0;
                while k < kids.len()
                    invariant
                        self.wf(),
                        only_released(old(self)@, self@),
                        forall|j: int|
                            #![trigger self.inner_at(j)]
                            live(self@, j) ==> self.inner_at(j) == old(self).inner_at(j),
                        !live(self@, id as int),
                        live(old(self)@, id as int),
                        tree_wf(old(self)@),
                        kids@ == old(self)@[id as int].children,
                        0 <= k <= kids@.len(),
                        fuel > 0,
                    decreases kids.len() - k,
                {
                    let c = kids[k];
                    let ghost before = self@;
                    proof {
                        assert(old(self)@[id as int].children[k as int] == c);
                        if live(self@, c.id as int) {
                            assert(self@[c.id as int] == self@[c.id as int]);
                            assert(self@[c.id as int].parent == old(self)@[c.id as int].parent);
                        }
                    }
                    self.release_owner(c.id, fuel - 1);
                    proof {
                        assert forall|j: int| #![trigger self.inner_at(j)] live(self@, j) implies self.inner_at(j)
                            == old(self).inner_at(j) by {
                            assert(self@[j] == self@[j]);
                            assert(before[j] == before[j]);
                        }
                        assert forall|j: int| #![trigger self@[j]] live(self@, j) implies live(
                            old(self)@,
                            j,
                        ) && same_but_strong(old(self)@[j], self@[j]) by {
                            assert(before[j] == before[j]);
                        }
                    }
                    k += 1;
                }
            },
            None => {},
        }
    }
}

/// Why a change of the tree was refused.
#[derive(Debug, Clone, Copy, PartialEq, Eq, Structural)]
pub enum TreeError {
    /// One of the gadgets no longer exists.
    Gone,
    /// The child already hangs from a gadget or a window.
    AlreadyAttached,
    /// The child is the parent itself or one of its ancestors.
    WouldCycle,
    /// The child's count of owners is at its limit.
    TooManyOwners,
    /// The gadget is not among the parent's children.
    NotAChild,
}

/// Whether walking up from `n` meets `a` within `fuel` further steps; a walk
/// that runs out of steps counts as meeting it.
pub open spec fn has_ancestor(t: Seq<NodeView>, n: int, a: int, fuel: nat) -> bool
    decreases fuel,
{
    match parent_node(t, n) {
        Some(q) => if q == a {
            true
        } else if fuel == 0 {
            true
        } else {
            has_ancestor(t, q, a, (fuel - 1) as nat)
        },
        None => false,
    }
}

/// The tree after hanging `c` under `p`.
pub open spec fn attached(t: Seq<NodeView>, p: int, c: int) -> Seq<NodeView> {
    t.update(
        c,
        (NodeView {
            parent: GadgetParent::Gadget(GadgetRef { id: Some(p as usize) }),
            strong: t[c].strong + 1,
            ..t[c]
        }),
    ).update(p, (NodeView { children: t[p].children.push(Gadget { id: c as usize }), ..t[p] }))
}

/// The tree after taking `c` out of `p`'s children, before `c` loses the
/// owner that `p` was.
pub open spec fn detached(t: Seq<NodeView>, p: int, c: int) -> Seq<NodeView> {
    let t1 = t.update(c, (NodeView { parent: GadgetParent::Detached, ..t[c] }));
    t1.update(
        p,
        (NodeView {
            children: t[p].children.remove(
                crate::state::seq_position(t[p].children, Gadget { id: c as usize })->Some_0,
            ),
            ..t1[p]
        }),
    )
}

/// The outcome that `add_child` owes.
pub open spec fn add_child_result(t: Seq<NodeView>, p: int, c: int) -> Result<(), TreeError> {
    if !live(t, p) || !live(t, c) {
        Err(TreeError::Gone)
    } else if t[c].parent != GadgetParent::Detached {
        Err(TreeError::AlreadyAttached)
    } else if p == c || has_ancestor(t, p, c, t.len()) {
        Err(TreeError::WouldCycle)
    } else if t[c].strong >= u64::MAX {
        Err(TreeError::TooManyOwners)
    } else {
        Ok(())
    }
}

/// The outcome that `remove_child` owes.
pub open spec fn remove_child_result(t: Seq<NodeView>, p: int, c: int) -> Result<(), TreeError> {
    if !live(t, p) || !live(t, c) {
        Err(TreeError::Gone)
    } else if !t[p].children.contains(Gadget { id: c as usize }) {
        Err(TreeError::NotAChild)
    } else {
        Ok(())
    }
}


proof fn lemma_wf_detached(t: Seq<NodeView>, p: int, c: int, i: int)
    requires
        tree_wf(t),
        live(t, p),
        live(t, c),
        0 <= i < t[p].children.len(),
        t[p].children[i] == (Gadget { id: c as usize }),
        crate::state::seq_position(t[p].children, Gadget { id: c as usize }) == Some(i),
    ensures
        tree_wf(detached(t, p, c)),
        parent_node(detached(t, p, c), c) is None,
{
    let b = detached(t, p, c);
    let child = Gadget { id: c as usize };
    let kids = t[p].children;
    assert(kids[i] == child);
    assert(parent_node(t, c) == Some(p));
    assert forall|n: int| #![trigger parent_node(b, n)]
        live(b, n) && parent_node(b, n) is Some implies b[parent_node(
            b,
            n,
        )->Some_0].children.contains(Gadget { id: n as usize }) by {
        assert(n != c);
        assert(parent_node(b, n) == parent_node(t, n));
        let q = parent_node(t, n)->Some_0;
        assert(t[q].children.contains(Gadget { id: n as usize }));
        if q == p {
            let k = choose|k: int| 0 <= k < kids.len() && kids[k] == Gadget {
                id: n as usize,
            };
            assert(k != i);
            if k < i {
                assert(b[q].children[k] == Gadget { id: n as usize });
            } else {
                assert(b[q].children[k - 1] == Gadget { id: n as usize });
            }
        }
    }
    assert forall|q: int, k: int|
        #![trigger b[q].children[k]]
        live(b, q) && 0 <= k < b[q].children.len() implies {
            &&& live(b, b[q].children[k].id as int)
            &&& b[b[q].children[k].id as int].parent == GadgetParent::Gadget(
                GadgetRef { id: Some(q as usize) },
            )
        } by {
        let k0 = if q == p && k >= i {
            k + 1
        } else {
            k
        };
        assert(b[q].children[k] == t[q].children[k0]);
        let e = t[q].children[k0].id as int;
        assert(live(t, e));
        if e == c {
            assert(t[c].parent == GadgetParent::Gadget(
                GadgetRef { id: Some(q as usize) },
            ));
            assert(q == p);
            assert(kids[k0] == kids[i]);
        }
    }
    assert forall|q: int| #![trigger b[q]] live(b, q) implies b[q].children.no_duplicates() by {
        if q == p {
            assert forall|x: int, y: int|
                0 <= x < y < b[q].children.len() implies b[q].children[x]
                != b[q].children[y] by {
                let x0 = if x >= i {
                    x + 1
                } else {
                    x
                };
                let y0 = if y >= i {
                    y + 1
                } else {
                    y
                };
                assert(b[q].children[x] == kids[x0]);
                assert(b[q].children[y] == kids[y0]);
            }
        }
    }
    assert(parent_node(b, c) is None);
        }

proof fn lemma_wf_attached(t: Seq<NodeView>, p: int, c: int)
    requires
        tree_wf(t),
        live(t, p),
        live(t, c),
        p != c,
        t[c].parent == GadgetParent::Detached,
    ensures
        tree_wf(attached(t, p, c)),
{
    let b = attached(t, p, c);
    let child = Gadget { id: c as usize };
    assert(!t[p].children.contains(child)) by {
        if t[p].children.contains(child) {
            let k = choose|k: int| 0 <= k < t[p].children.len() && t[p].children[k] == child;
            assert(t[p].children[k] == child);
        }
    }
    assert forall|n: int| #![trigger parent_node(b, n)]
        live(b, n) && parent_node(b, n) is Some implies b[parent_node(
            b,
            n,
        )->Some_0].children.contains(Gadget { id: n as usize }) by {
        if n == c {
            assert(parent_node(b, n) == Some(p));
            assert(b[p].children[b[p].children.len() - 1] == child);
        } else {
            assert(parent_node(b, n) == parent_node(t, n));
            let q = parent_node(t, n)->Some_0;
            assert(t[q].children.contains(Gadget { id: n as usize }));
            if q == p {
                let k = choose|k: int| 0 <= k < t[q].children.len()
                    && t[q].children[k] == Gadget { id: n as usize };
                assert(b[q].children[k] == Gadget { id: n as usize });
            }
        }
    }
    assert forall|q: int, k: int|
        #![trigger b[q].children[k]]
        live(b, q) && 0 <= k < b[q].children.len() implies {
            &&& live(b, b[q].children[k].id as int)
            &&& b[b[q].children[k].id as int].parent == GadgetParent::Gadget(
                GadgetRef { id: Some(q as usize) },
            )
        } by {
        if q == p && k == t[q].children.len() {
        } else {
            assert(b[q].children[k] == t[q].children[k]);
            let d = t[q].children[k].id as int;
            assert(live(t, d));
            if d == c {
                assert(t[c].parent != GadgetParent::Detached);
            }
        }
    }
    assert forall|q: int| #![trigger b[q]] live(b, q) implies b[q].children.no_duplicates() by {
        if q == p {
            assert forall|i: int, j: int|
                0 <= i < j < b[q].children.len() implies b[q].children[i]
                != b[q].children[j] by {
                if j == t[q].children.len() {
                    assert(t[q].children[i] != child);
                }
            }
        }
    }
}

/// Walking up from `n` meets a gadget without a live parent within `fuel`
/// steps.
pub open spec fn reaches_top(t: Seq<NodeView>, n: int, fuel: nat) -> bool
    decreases fuel,
{
    match parent_node(t, n) {
        None => true,
        Some(q) => fuel > 0 && reaches_top(t, q, (fuel - 1) as nat),
    }
}

/// Walking up from `n` ends.
pub open spec fn terminates(t: Seq<NodeView>, n: int) -> bool {
    exists|fuel: nat| reaches_top(t, n, fuel)
}

/// No gadget is its own ancestor: every walk up the parents ends.
pub open spec fn acyclic(t: Seq<NodeView>) -> bool {
    forall|n: int| #![trigger terminates(t, n)] live(t, n) ==> terminates(t, n)
}

/// Walks up in `b` are walks up in `a` cut short: where a live gadget of
/// `b` has a live parent, it has the same one in `a`.
pub open spec fn walks_shorter(a: Seq<NodeView>, b: Seq<NodeView>) -> bool {
    forall|m: int|
        #![trigger parent_node(b, m)]
        live(b, m) && parent_node(b, m) is Some ==> live(a, m) && parent_node(b, m) == parent_node(a, m)
}

proof fn lemma_reach_shorter(a: Seq<NodeView>, b: Seq<NodeView>, n: int, fuel: nat)
    requires
        walks_shorter(a, b),
        live(b, n),
        reaches_top(a, n, fuel),
    ensures
        reaches_top(b, n, fuel),
    decreases fuel,
{
    match parent_node(b, n) {
        None => {},
        Some(q) => {
            assert(parent_node(a, n) == Some(q));
            lemma_reach_shorter(a, b, q, (fuel - 1) as nat);
        },
    }
}

proof fn lemma_acyclic_shorter(a: Seq<NodeView>, b: Seq<NodeView>)
    requires
        acyclic(a),
        walks_shorter(a, b),
        forall|n: int| live(b, n) && !live(a, n) ==> parent_node(b, n) is None,
    ensures
        acyclic(b),
{
    assert forall|n: int| #![trigger terminates(b, n)] live(b, n) implies terminates(b, n) by {
        if live(a, n) {
            assert(terminates(a, n));
            let fuel = choose|fuel: nat| reaches_top(a, n, fuel);
            lemma_reach_shorter(a, b, n, fuel);
        } else {
            assert(reaches_top(b, n, 0));
        }
    }
}

proof fn lemma_reach_avoiding(t: Seq<NodeView>, b: Seq<NodeView>, c: int, n: int, fuel: nat)
    requires
        n != c,
        live(t, n),
        !has_ancestor(t, n, c, fuel),
        forall|m: int| #![trigger parent_node(b, m)] m != c && live(t, m) ==> live(b, m) && parent_node(b, m) == parent_node(t, m),
    ensures
        reaches_top(b, n, fuel),
    decreases fuel,
{
    match parent_node(t, n) {
        None => {},
        Some(q) => {
            assert(parent_node(b, n) == Some(q));
            lemma_reach_avoiding(t, b, c, q, (fuel - 1) as nat);
        },
    }
}

proof fn lemma_reach_attached(t: Seq<NodeView>, p: int, c: int, n: int, fuel: nat)
    requires
        tree_wf(t),
        live(t, p),
        live(t, c),
        p != c,
        t[c].parent == GadgetParent::Detached,
        !has_ancestor(t, p, c, t.len()),
        live(t, n),
        reaches_top(t, n, fuel),
    ensures
        terminates(attached(t, p, c), n),
    decreases fuel,
{
    let b = attached(t, p, c);
    assert forall|m: int| #![trigger parent_node(b, m)] m != c && live(t, m) implies live(b, m)
        && parent_node(b, m) == parent_node(t, m) by {
        assert(b[m].parent == t[m].parent);
    }
    if n == c {
        assert(p as usize as int == p);
        assert(parent_node(b, c) == Some(p));
        lemma_reach_avoiding(t, b, c, p, t.len());
        assert(reaches_top(b, c, t.len() + 1));
    } else {
        match parent_node(t, n) {
            None => {
                assert(parent_node(b, n) is None);
                assert(reaches_top(b, n, 0));
            },
            Some(q) => {
                assert(parent_node(b, n) == Some(q));
                lemma_reach_attached(t, p, c, q, (fuel - 1) as nat);
                let f = choose|f: nat| reaches_top(b, q, f);
                assert(reaches_top(b, n, f + 1));
            },
        }
    }
}

proof fn lemma_released_walks_shorter(a: Seq<NodeView>, b: Seq<NodeView>)
    requires
        only_released(a, b),
    ensures
        acyclic(a) ==> acyclic(b),
{
    assert forall|m: int| #![trigger parent_node(b, m)]
        live(b, m) && parent_node(b, m) is Some implies live(a, m) && parent_node(b, m)
        == parent_node(a, m) by {
        assert(b[m] == b[m]);
        let q = parent_node(b, m)->Some_0;
        assert(b[q] == b[q]);
    }
    if acyclic(a) {
        lemma_acyclic_shorter(a, b);
    }
}

/// Hanging a gadget under a parent that does not already descend from it,
/// as `add_child` demands, keeps every walk up the parents finite.
pub proof fn lemma_attach_keeps_acyclic(t: Seq<NodeView>, p: int, c: int)
    requires
        tree_wf(t),
        acyclic(t),
        add_child_result(t, p, c) is Ok,
    ensures
        acyclic(attached(t, p, c)),
{
    let b = attached(t, p, c);
    assert forall|n: int| #![trigger terminates(b, n)] live(b, n) implies terminates(b, n) by {
        assert(terminates(t, n));
        let fuel = choose|fuel: nat| reaches_top(t, n, fuel);
        lemma_reach_attached(t, p, c, n, fuel);
    }
}

/// Taking a gadget out of its parent keeps every walk up the parents
/// finite.
pub proof fn lemma_detach_keeps_acyclic(t: Seq<NodeView>, p: int, c: int)
    requires
        acyclic(t),
        live(t, p),
        live(t, c),
    ensures
        acyclic(detached(t, p, c)),
{
    let b = detached(t, p, c);
    assert forall|m: int| #![trigger parent_node(b, m)]
        live(b, m) && parent_node(b, m) is Some implies live(t, m) && parent_node(b, m)
        == parent_node(t, m) by {
        assert(b[m].parent == t[m].parent);
    }
    lemma_acyclic_shorter(t, b);
}

impl GadgetTree {
    /// Walks up from `n` looking for `a`, as `has_ancestor` says.
    fn check_ancestor(&self, n: usize, a: usize, fuel: usize) -> (r: bool)
        requires
            self.wf(),
            live(self@, n as int),
        ensures
            r == has_ancestor(self@, n as int, a as int, fuel as nat),
        decreases fuel,
    {
        let q = match self.parent_of(n) {
            Some(q) => q,
            None => return false,
        };
        if q == a {
            true
        } else if fuel == 0 {
            true
        } else {
            self.check_ancestor(q, a, fuel - 1)
        }
    }

    /// The live gadget that `n` hangs from.
    pub(crate) fn parent_of(&self, n: usize) -> (r: Option<usize>)
        requires
            self.wf(),
            live(self@, n as int),
        ensures
            match r {
                Some(q) => parent_node(self@, n as int) == Some(q as int),
                None => parent_node(self@, n as int) is None,
            },
    {
        match &self.slots[n].inner {
            Some(inner) => match inner.parent.get() {
                GadgetParent::Gadget(r) => match r.id {
                    Some(q) => if self.is_live(q) {
                        Some(q)
                    } else {
                        None
                    },
                    None => None,
                },
                _ => None,
            },
            None => None,
        }
    }

    /// Gives up one owner of `g`: the handle that the caller held. When that
    /// was the last owner, `g` is destroyed, and so is each child that has no
    /// owner left. Refused, with nothing changed, when `g` no longer exists
    /// or its one owner is its parent.
    pub fn release(&mut self, g: Gadget) -> (r: bool)
        requires
            old(self).wf(),
        ensures
            final(self).wf(),
            only_released(old(self)@, final(self)@),
            r == (live(old(self)@, g.id as int) && !(old(self)@[g.id as int].strong == 1
                && parent_node(old(self)@, g.id as int) is Some)),
            !r ==> final(self)@ == old(self)@,
            r && old(self)@[g.id as int].strong > 1 ==> final(self)@ == with_one_owner_less(
                old(self)@,
                g.id as int,
            ),
            r && old(self)@[g.id as int].strong == 1 ==> !live(final(self)@, g.id as int),
            acyclic(old(self)@) ==> acyclic(final(self)@),
    {
        if !self.is_live(g.id) {
            return false;
        }
        if self.slots[g.id].strong == 1 && self.parent_of(g.id).is_some() {
            return false;
        }
        let fuel = self.slots.len();
        self.release_owner(g.id, fuel);
        proof {
            lemma_released_walks_shorter(old(self)@, self@);
        }
        true
    }

    /// Hangs `child` under `parent`: the child's parent cell names `parent`,
    /// the child is appended to the parent's children, and the parent
    /// becomes one more owner of it.
    pub fn add_child(&mut self, parent: Gadget, child: Gadget) -> (r: Result<(), TreeError>)
        requires
            old(self).wf(),
        ensures
            final(self).wf(),
            r == add_child_result(old(self)@, parent.id as int, child.id as int),
            r is Ok ==> final(self)@ == attached(old(self)@, parent.id as int, child.id as int),
            r is Err ==> final(self)@ == old(self)@,
            acyclic(old(self)@) ==> acyclic(final(self)@),
            r is Ok ==> ({
                let pc = old(self).inner_at(parent.id as int).children;
                final(self).inner_at(parent.id as int).children.pending() == pc.pending() + fan_out(
                    pc.add_listeners(),
                    pc.add_event(pc.items().len() as int, child),
                )
            }),
            r is Ok ==> ({
                let cp = old(self).inner_at(child.id as int).parent;
                final(self).inner_at(child.id as int).parent.pending() == cp.pending() + fan_out(
                    cp.listeners(),
                    cp.event_for(GadgetParent::Gadget(parent.spec_refer())),
                )
            }),
    {
        let p = parent.id;
        let c = child.id;
        if !self.is_live(p) || !self.is_live(c) {
            return Err(TreeError::Gone);
        }
        let attached_now = match &self.slots[c].inner {
            Some(inner) => match inner.parent.get() {
                GadgetParent::Detached => false,
                _ => true,
            },
            None => true,
        };
        if attached_now {
            return Err(TreeError::AlreadyAttached);
        }
        let fuel = self.slots.len();
        if p == c || self.check_ancestor(p, c, fuel) {
            return Err(TreeError::WouldCycle);
        }
        let s = self.slots[c].strong;
        if s == u64::MAX {
            return Err(TreeError::TooManyOwners);
        }
        let ghost t = self@;
        self.slots[c].strong = s + 1;
        match &mut self.slots[c].inner {
            Some(inner) => inner.parent.set(GadgetParent::Gadget(GadgetRef { id: Some(p) })),
            None => {},
        }
        match &mut self.slots[p].inner {
            Some(inner) => inner.children.push(child),
            None => {},
        }
        proof {
            assert(self@ =~= attached(t, p as int, c as int));
            lemma_wf_attached(t, p as int, c as int);
            if acyclic(t) {
                lemma_attach_keeps_acyclic(t, p as int, c as int);
            }
        }
        Ok(())
    }

    /// Takes `child` out of `parent`'s children and detaches it; the parent
    /// stops owning it, which destroys it if it had no other owner.
    pub fn remove_child(&mut self, parent: Gadget, child: Gadget) -> (r: Result<(), TreeError>)
        requires
            old(self).wf(),
        ensures
            final(self).wf(),
            r == remove_child_result(old(self)@, parent.id as int, child.id as int),
            r is Err ==> final(self)@ == old(self)@,
            r is Ok ==> only_released(
                detached(old(self)@, parent.id as int, child.id as int),
                final(self)@,
            ),
            r is Ok && old(self)@[child.id as int].strong > 1 ==> final(self)@
                == with_one_owner_less(
                detached(old(self)@, parent.id as int, child.id as int),
                child.id as int,
            ),
            r is Ok && old(self)@[child.id as int].strong == 1 ==> !live(
                final(self)@,
                child.id as int,
            ),
            acyclic(old(self)@) ==> acyclic(final(self)@),
            r is Ok && live(final(self)@, parent.id as int) ==> ({
                let pc = old(self).inner_at(parent.id as int).children;
                final(self).inner_at(parent.id as int).children.pending() == pc.pending() + fan_out(
                    pc.remove_listeners(),
                    pc.remove_event(crate::state::seq_position(pc.items(), child)->Some_0, child),
                )
            }),
            r is Ok && live(final(self)@, child.id as int) ==> ({
                let cp = old(self).inner_at(child.id as int).parent;
                final(self).inner_at(child.id as int).parent.pending() == cp.pending() + fan_out(
                    cp.listeners(),
                    cp.event_for(GadgetParent::Detached),
                )
            }),
    {
        let p = parent.id;
        let c = child.id;
        if !self.is_live(p) || !self.is_live(c) {
            return Err(TreeError::Gone);
        }
        let pos = match &self.slots[p].inner {
            Some(inner) => inner.children.position(&child),
            None => None,
        };
        let i = match pos {
            Some(i) => i,
            None => return Err(TreeError::NotAChild),
        };
        let ghost t = self@;
        match &mut self.slots[c].inner {
            Some(inner) => inner.parent.set(GadgetParent::Detached),
            None => {},
        }
        match &mut self.slots[p].inner {
            Some(inner) => {
                let _ = inner.children.remove_at(i);
            },
            None => {},
        }
        proof {
            assert(self@ =~= detached(t, p as int, c as int));
            lemma_wf_detached(t, p as int, c as int, i as int);
        }
        let ghost mid = self@;
        let fuel = self.slots.len();
        self.release_owner(c, fuel);
        proof {
            if acyclic(t) {
                lemma_detach_keeps_acyclic(t, p as int, c as int);
                let b = self@;
                assert forall|m: int| #![trigger parent_node(b, m)]
                    live(b, m) && parent_node(b, m) is Some implies live(mid, m) && parent_node(b, m)
                    == parent_node(mid, m) by {
                    assert(b[m] == b[m]);
                    assert(mid[m] == mid[m]);
                }
                lemma_acyclic_shorter(mid, b);
            }
        }
        Ok(())
    }
}

/// `x` stands in `s` at exactly one position.
pub open spec fn occurs_once<T>(s: Seq<T>, x: T) -> bool {
    exists|k: int|
        0 <= k < s.len() && s[k] == x && forall|j: int| 0 <= j < s.len() && s[j] == x ==> j == k
}

/// A gadget that hangs from a live gadget appears exactly once among that
/// gadget's children.
pub proof fn lemma_child_listed_once(t: Seq<NodeView>, n: int)
    requires
        tree_wf(t),
        live(t, n),
        parent_node(t, n) is Some,
    ensures
        occurs_once(t[parent_node(t, n)->Some_0].children, Gadget { id: n as usize }),
{
    let p = parent_node(t, n)->Some_0;
    let kids = t[p].children;
    let g = Gadget { id: n as usize };
    assert(kids.contains(g));
    let k = choose|k: int| 0 <= k < kids.len() && kids[k] == g;
    assert(t[p] == t[p]);
    assert(kids.no_duplicates());
    assert forall|j: int| 0 <= j < kids.len() && kids[j] == g implies j == k by {
        if j != k {
            assert(kids[j] != kids[k]);
        }
    }
}

/// Hanging a gadget under a parent and then taking it out again gives back
/// the tree as it was, on both sides.
pub proof fn lemma_add_remove_round_trip(t: Seq<NodeView>, p: int, c: int)
    requires
        tree_wf(t),
        add_child_result(t, p, c) is Ok,
    ensures
        remove_child_result(attached(t, p, c), p, c) is Ok,
        attached(t, p, c)[c].strong > 1,
        with_one_owner_less(detached(attached(t, p, c), p, c), c) == t,
{
    let t1 = attached(t, p, c);
    let g = Gadget { id: c as usize };
    let kids = t[p].children;
    assert(!kids.contains(g)) by {
        if kids.contains(g) {
            let k = choose|k: int| 0 <= k < kids.len() && kids[k] == g;
            assert(t[p].children[k] == g);
        }
    }
    assert(t1[p].children == kids.push(g));
    assert(t1[p].children[kids.len() as int] == g);
    crate::state::lemma_seq_position(t1[p].children, g, kids.len() as int);
    assert(t1[p].children.remove(kids.len() as int) =~= kids);
    let t2 = with_one_owner_less(detached(t1, p, c), c);
    assert(t2 =~= t);
}

/// The window that `n` belongs to, found by walking up at most `fuel`
/// parents; none if the walk ends at a detached gadget or a destroyed one.
pub open spec fn window_of(t: Seq<NodeView>, n: int, fuel: nat) -> Option<WindowRef>
    decreases fuel,
{
    if !live(t, n) {
        None
    } else {
        match t[n].parent {
            GadgetParent::Detached => None,
            GadgetParent::Window(w) => Some(w),
            GadgetParent::Gadget(r) => match resolve(t, r) {
                Some(q) => if fuel == 0 {
                    None
                } else {
                    window_of(t, q.id as int, (fuel - 1) as nat)
                },
                None => None,
            },
        }
    }
}

impl GadgetTree {
    fn window_walk(&self, n: usize, fuel: usize) -> (r: Option<WindowRef>)
        ensures
            r == window_of(self@, n as int, fuel as nat),
        decreases fuel,
    {
        if !self.is_live(n) {
            return None;
        }
        let parent = match &self.slots[n].inner {
            Some(inner) => inner.parent.get(),
            None => GadgetParent::Detached,
        };
        match parent {
            GadgetParent::Detached => None,
            GadgetParent::Window(w) => Some(w),
            GadgetParent::Gadget(r) => match r.get(self) {
                Some(q) => if fuel == 0 {
                    None
                } else {
                    self.window_walk(q.id, fuel - 1)
                },
                None => None,
            },
        }
    }

    /// Makes `g` the root of window `w`: its parent cell names the window.
    /// Refused when `g` no longer exists or already hangs from something.
    pub fn attach_to_window(&mut self, g: Gadget, w: WindowRef) -> (r: bool)
        requires
            old(self).wf(),
        ensures
            final(self).wf(),
            r == (live(old(self)@, g.id as int) && old(self)@[g.id as int].parent
                == GadgetParent::Detached),
            r ==> final(self)@ == old(self)@.update(
                g.id as int,
                (NodeView { parent: GadgetParent::Window(w), ..old(self)@[g.id as int] }),
            ),
            !r ==> final(self)@ == old(self)@,
            final(self)@ == rooted(old(self)@, g, w),
            acyclic(old(self)@) ==> acyclic(final(self)@),
    {
        if !self.is_live(g.id) {
            return false;
        }
        let detached_now = match &self.slots[g.id].inner {
            Some(inner) => match inner.parent.get() {
                GadgetParent::Detached => true,
                _ => false,
            },
            None => false,
        };
        if !detached_now {
            return false;
        }
        let ghost t = self@;
        match &mut self.slots[g.id].inner {
            Some(inner) => inner.parent.set(GadgetParent::Window(w)),
            None => {},
        }
        proof {
            let b = self@;
            assert(b =~= t.update(
                g.id as int,
                (NodeView { parent: GadgetParent::Window(w), ..t[g.id as int] }),
            ));
            assert forall|n: int| #![trigger parent_node(b, n)]
                live(b, n) && parent_node(b, n) is Some implies b[parent_node(
                    b,
                    n,
                )->Some_0].children.contains(Gadget { id: n as usize }) by {
                assert(n != g.id);
                assert(parent_node(b, n) == parent_node(t, n));
                let q = parent_node(t, n)->Some_0;
                assert(b[q].children == t[q].children);
            }
            assert forall|q: int, k: int|
                #![trigger b[q].children[k]]
                live(b, q) && 0 <= k < b[q].children.len() implies {
                    &&& live(b, b[q].children[k].id as int)
                    &&& b[b[q].children[k].id as int].parent == GadgetParent::Gadget(
                        GadgetRef { id: Some(q as usize) },
                    )
                } by {
                assert(b[q].children[k] == t[q].children[k]);
                let e = t[q].children[k].id as int;
                assert(live(t, e));
            }
            if acyclic(t) {
                assert forall|m: int| #![trigger parent_node(b, m)]
                    live(b, m) && parent_node(b, m) is Some implies live(t, m) && parent_node(b, m)
                    == parent_node(t, m) by {
                    assert(b[m] == b[m]);
                    assert(t[m] == t[m]);
                }
                lemma_acyclic_shorter(t, b);
            }
        }
        true
    }
}

impl Gadget {
    /// The window this gadget belongs to: the parent chain is followed up to
    /// a window; none if it ends at a detached or destroyed gadget.
    pub fn get_window(&self, tree: &GadgetTree) -> (r: Option<WindowRef>)
        ensures
            r == window_of(tree@, self.id as int, tree@.len()),
    {
        tree.window_walk(self.id, tree.len())
    }
}

/// A reference obtained from a gadget resolves to that gadget while it
/// lives; once the gadget is destroyed it resolves to nothing, in every
/// later state reached by releasing owners.
pub proof fn lemma_reference_resolution(t: Seq<NodeView>, later: Seq<NodeView>, g: Gadget)
    requires
        only_released(t, later),
    ensures
        live(t, g.id as int) ==> resolve(t, g.spec_refer()) == Some(g),
        !live(t, g.id as int) ==> resolve(later, g.spec_refer()) is None,
        live(later, g.id as int) ==> resolve(later, g.spec_refer()) == Some(g),
{
    if live(later, g.id as int) {
        assert(later[g.id as int] == later[g.id as int]);
    }
}

impl GadgetTree {
    /// Records `key` as held on `g`. Nothing happens if `g` no longer exists.
    pub fn press_key(&mut self, g: Gadget, key: Key)
        requires
            old(self).wf(),
        ensures
            final(self).wf(),
            live(old(self)@, g.id as int) ==> final(self)@ == old(self)@.update(
                g.id as int,
                (NodeView {
                    key_down: old(self)@[g.id as int].key_down.push(key),
                    ..old(self)@[g.id as int]
                }),
            ),
            !live(old(self)@, g.id as int) ==> final(self)@ == old(self)@,
    {
        if g.id < self.slots.len() {
            match &mut self.slots[g.id].inner {
                Some(inner) => inner.key_down.push(key),
                None => {},
            }
        }
        proof {
            if live(old(self)@, g.id as int) {
                assert(self@ =~= old(self)@.update(
                    g.id as int,
                    (NodeView {
                        key_down: old(self)@[g.id as int].key_down.push(key),
                        ..old(self)@[g.id as int]
                    }),
                ));
            } else {
                assert(self@ =~= old(self)@);
            }
            lemma_wf_same_shape(old(self)@, self@);
        }
    }

    /// Drops the first record of `key` held on `g`, if any.
    pub fn release_key(&mut self, g: Gadget, key: Key)
        requires
            old(self).wf(),
        ensures
            final(self).wf(),
            live(old(self)@, g.id as int) ==> final(self)@ == old(self)@.update(
                g.id as int,
                (NodeView {
                    key_down: match crate::state::seq_position(old(self)@[g.id as int].key_down, key) {
                        Some(i) => old(self)@[g.id as int].key_down.remove(i),
                        None => old(self)@[g.id as int].key_down,
                    },
                    ..old(self)@[g.id as int]
                }),
            ),
            !live(old(self)@, g.id as int) ==> final(self)@ == old(self)@,
    {
        if g.id < self.slots.len() {
            match &mut self.slots[g.id].inner {
                Some(inner) => {
                    let _ = inner.key_down.remove(&key);
                },
                None => {},
            }
        }
        proof {
            if live(old(self)@, g.id as int) {
                assert(self@ =~= old(self)@.update(
                    g.id as int,
                    (NodeView {
                        key_down: match crate::state::seq_position(
                            old(self)@[g.id as int].key_down,
                            key,
                        ) {
                            Some(i) => old(self)@[g.id as int].key_down.remove(i),
                            None => old(self)@[g.id as int].key_down,
                        },
                        ..old(self)@[g.id as int]
                    }),
                ));
            } else {
                assert(self@ =~= old(self)@);
            }
            lemma_wf_same_shape(old(self)@, self@);
        }
    }

    /// Records `button` as pressed on `g`.
    pub fn press_button(&mut self, g: Gadget, button: MouseButton)
        requires
            old(self).wf(),
        ensures
            final(self).wf(),
            live(old(self)@, g.id as int) ==> final(self)@ == old(self)@.update(
                g.id as int,
                (NodeView {
                    mouse_down: old(self)@[g.id as int].mouse_down.push(button),
                    ..old(self)@[g.id as int]
                }),
            ),
            !live(old(self)@, g.id as int) ==> final(self)@ == old(self)@,
    {
        if g.id < self.slots.len() {
            match &mut self.slots[g.id].inner {
                Some(inner) => inner.mouse_down.push(button),
                None => {},
            }
        }
        proof {
            if live(old(self)@, g.id as int) {
                assert(self@ =~= old(self)@.update(
                    g.id as int,
                    (NodeView {
                        mouse_down: old(self)@[g.id as int].mouse_down.push(button),
                        ..old(self)@[g.id as int]
                    }),
                ));
            } else {
                assert(self@ =~= old(self)@);
            }
            lemma_wf_same_shape(old(self)@, self@);
        }
    }

    /// Drops the first record of `button` pressed on `g`, if any.
    pub fn release_button(&mut self, g: Gadget, button: MouseButton)
        requires
            old(self).wf(),
        ensures
            final(self).wf(),
            live(old(self)@, g.id as int) ==> final(self)@ == old(self)@.update(
                g.id as int,
                (NodeView {
                    mouse_down: match crate::state::seq_position(
                        old(self)@[g.id as int].mouse_down,
                        button,
                    ) {
                        Some(i) => old(self)@[g.id as int].mouse_down.remove(i),
                        None => old(self)@[g.id as int].mouse_down,
                    },
                    ..old(self)@[g.id as int]
                }),
            ),
            !live(old(self)@, g.id as int) ==> final(self)@ == old(self)@,
    {
        if g.id < self.slots.len() {
            match &mut self.slots[g.id].inner {
                Some(inner) => {
                    let _ = inner.mouse_down.remove(&button);
                },
                None => {},
            }
        }
        proof {
            if live(old(self)@, g.id as int) {
                assert(self@ =~= old(self)@.update(
                    g.id as int,
                    (NodeView {
                        mouse_down: match crate::state::seq_position(
                            old(self)@[g.id as int].mouse_down,
                            button,
                        ) {
                            Some(i) => old(self)@[g.id as int].mouse_down.remove(i),
                            None => old(self)@[g.id as int].mouse_down,
                        },
                        ..old(self)@[g.id as int]
                    }),
                ));
            } else {
                assert(self@ =~= old(self)@);
            }
            lemma_wf_same_shape(old(self)@, self@);
        }
    }

    /// Sets or clears the pointer position over `g`.
    pub fn set_mouse_pos(&mut self, g: Gadget, pos: Option<IntPair>)
        requires
            old(self).wf(),
        ensures
            final(self).wf(),
            live(old(self)@, g.id as int) ==> final(self)@ == old(self)@.update(
                g.id as int,
                (NodeView { mouse_pos: pos, ..old(self)@[g.id as int] }),
            ),
            !live(old(self)@, g.id as int) ==> final(self)@ == old(self)@,
    {
        if g.id < self.slots.len() {
            match &mut self.slots[g.id].inner {
                Some(inner) => inner.mouse_pos.set(pos),
                None => {},
            }
        }
        proof {
            if live(old(self)@, g.id as int) {
                assert(self@ =~= old(self)@.update(
                    g.id as int,
                    (NodeView { mouse_pos: pos, ..old(self)@[g.id as int] }),
                ));
            } else {
                assert(self@ =~= old(self)@);
            }
            lemma_wf_same_shape(old(self)@, self@);
        }
    }
}

/// Whether the point `p` lies in the rectangle of `n`, edges included.
pub open spec fn hits(n: NodeView, p: IntPair) -> bool {
    &&& n.pos.x <= p.x <= n.pos.x + n.dim.x
    &&& n.pos.y <= p.y <= n.pos.y + n.dim.y
}

/// A gadget after the pointer moved to `p` over its container: a hit gadget
/// sees the point relative to its own origin; any other loses the pointer
/// and the buttons it saw pressed.
pub open spec fn pointed(n: NodeView, p: Option<IntPair>) -> NodeView {
    match p {
        Some(q) => if hits(n, q) {
            NodeView {
                mouse_pos: Some(IntPair { x: (q.x - n.pos.x) as i32, y: (q.y - n.pos.y) as i32 }),
                ..n
            }
        } else {
            NodeView { mouse_pos: None, mouse_down: Seq::empty(), ..n }
        },
        None => NodeView { mouse_pos: None, mouse_down: Seq::empty(), ..n },
    }
}

/// A gadget after `button` went down (or up) over its container: only a
/// gadget under the pointer records it.
pub open spec fn pressed(n: NodeView, button: MouseButton, down: bool) -> NodeView {
    if n.mouse_pos is Some {
        if down {
            NodeView { mouse_down: n.mouse_down.push(button), ..n }
        } else {
            NodeView {
                mouse_down: match crate::state::seq_position(n.mouse_down, button) {
                    Some(i) => n.mouse_down.remove(i),
                    None => n.mouse_down,
                },
                ..n
            }
        }
    } else {
        n
    }
}

impl GadgetTree {
    /// Moves `g` to `pos` within its container.
    pub fn set_pos(&mut self, g: Gadget, pos: IntPair)
        requires
            old(self).wf(),
        ensures
            final(self).wf(),
            live(old(self)@, g.id as int) ==> final(self)@ == old(self)@.update(
                g.id as int,
                (NodeView { pos, ..old(self)@[g.id as int] }),
            ),
            !live(old(self)@, g.id as int) ==> final(self)@ == old(self)@,
            live(old(self)@, g.id as int) ==> same_registries(
                old(self).inner_at(g.id as int),
                final(self).inner_at(g.id as int),
            ),
            live(old(self)@, g.id as int) ==> ({
                let c = old(self).inner_at(g.id as int).pos;
                final(self).inner_at(g.id as int).pos.pending() == c.pending() + fan_out(
                    c.listeners(),
                    c.event_for(pos),
                )
            }),
    {
        if g.id < self.slots.len() {
            match &mut self.slots[g.id].inner {
                Some(inner) => inner.pos.set(pos),
                None => {},
            }
        }
        proof {
            if live(old(self)@, g.id as int) {
                assert(self@ =~= old(self)@.update(
                    g.id as int,
                    (NodeView { pos, ..old(self)@[g.id as int] }),
                ));
            } else {
                assert(self@ =~= old(self)@);
            }
            lemma_wf_same_shape(old(self)@, self@);
        }
    }

    /// Resizes `g` to `dim`.
    pub fn set_dim(&mut self, g: Gadget, dim: IntPair)
        requires
            old(self).wf(),
        ensures
            final(self).wf(),
            live(old(self)@, g.id as int) ==> final(self)@ == old(self)@.update(
                g.id as int,
                (NodeView { dim, ..old(self)@[g.id as int] }),
            ),
            !live(old(self)@, g.id as int) ==> final(self)@ == old(self)@,
            live(old(self)@, g.id as int) ==> same_registries(
                old(self).inner_at(g.id as int),
                final(self).inner_at(g.id as int),
            ),
            live(old(self)@, g.id as int) ==> ({
                let c = old(self).inner_at(g.id as int).dim;
                final(self).inner_at(g.id as int).dim.pending() == c.pending() + fan_out(
                    c.listeners(),
                    c.event_for(dim),
                )
            }),
    {
        if g.id < self.slots.len() {
            match &mut self.slots[g.id].inner {
                Some(inner) => inner.dim.set(dim),
                None => {},
            }
        }
        proof {
            if live(old(self)@, g.id as int) {
                assert(self@ =~= old(self)@.update(
                    g.id as int,
                    (NodeView { dim, ..old(self)@[g.id as int] }),
                ));
            } else {
                assert(self@ =~= old(self)@);
            }
            lemma_wf_same_shape(old(self)@, self@);
        }
    }

    /// Applies `pointed` to `g`.
    pub fn point(&mut self, g: Gadget, p: Option<IntPair>)
        requires
            old(self).wf(),
        ensures
            final(self).wf(),
            live(old(self)@, g.id as int) ==> final(self)@ == old(self)@.update(
                g.id as int,
                pointed(old(self)@[g.id as int], p),
            ),
            !live(old(self)@, g.id as int) ==> final(self)@ == old(self)@,
    {
        if g.id < self.slots.len() {
            match &mut self.slots[g.id].inner {
                Some(inner) => {
                    let pos = inner.pos.get();
                    let dim = inner.dim.get();
                    let hit = match p {
                        Some(q) => pos.x as i64 <= q.x as i64 && q.x as i64 <= pos.x as i64
                            + dim.x as i64 && pos.y as i64 <= q.y as i64 && q.y as i64
                            <= pos.y as i64 + dim.y as i64,
                        None => false,
                    };
                    match p {
                        Some(q) => if hit {
                            let rel = IntPair { x: q.x - pos.x, y: q.y - pos.y };
                            inner.mouse_pos.put(rel);
                        } else {
                            inner.mouse_down.clear();
                            inner.mouse_pos.set(None);
                        },
                        None => {
                            inner.mouse_down.clear();
                            inner.mouse_pos.set(None);
                        },
                    }
                },
                None => {},
            }
        }
        proof {
            if live(old(self)@, g.id as int) {
                assert(self@ =~= old(self)@.update(
                    g.id as int,
                    pointed(old(self)@[g.id as int], p),
                ));
            } else {
                assert(self@ =~= old(self)@);
            }
            lemma_wf_same_shape(old(self)@, self@);
        }
    }

    /// Applies `pressed` to `g`.
    pub fn press(&mut self, g: Gadget, button: MouseButton, down: bool)
        requires
            old(self).wf(),
        ensures
            final(self).wf(),
            live(old(self)@, g.id as int) ==> final(self)@ == old(self)@.update(
                g.id as int,
                pressed(old(self)@[g.id as int], button, down),
            ),
            !live(old(self)@, g.id as int) ==> final(self)@ == old(self)@,
    {
        if g.id < self.slots.len() {
            match &mut self.slots[g.id].inner {
                Some(inner) => if inner.mouse_pos.is_set() {
                    if down {
                        inner.mouse_down.push(button);
                    } else {
                        let _ = inner.mouse_down.remove(&button);
                    }
                },
                None => {},
            }
        }
        proof {
            if live(old(self)@, g.id as int) {
                assert(self@ =~= old(self)@.update(
                    g.id as int,
                    pressed(old(self)@[g.id as int], button, down),
                ));
            } else {
                assert(self@ =~= old(self)@);
            }
            lemma_wf_same_shape(old(self)@, self@);
        }
    }
}

/// The cells of a gadget that listeners can watch.
#[derive(Debug, Clone, Copy, PartialEq, Eq, Structural)]
pub enum GadgetCell {
    Pos,
    Dim,
    Enabled,
    Parent,
    Children,
    Propagate,
    AcceptFocus,
    LockFocus,
    Focused,
    MouseDown,
    MousePos,
    KeyDown,
}

/// The deliveries that the cells of one gadget had scheduled.
pub struct GadgetPending {
    pub pos: Vec<Notification<StateChangedEvent<IntPair>>>,
    pub dim: Vec<Notification<StateChangedEvent<IntPair>>>,
    pub enabled: Vec<Notification<StateChangedEvent<bool>>>,
    pub parent: Vec<Notification<StateChangedEvent<GadgetParent>>>,
    pub children: Vec<Notification<StateVecEvent<Gadget>>>,
    pub propagate: Vec<Notification<StateChangedEvent<bool>>>,
    pub accept_focus: Vec<Notification<StateChangedEvent<bool>>>,
    pub lock_focus: Vec<Notification<StateChangedEvent<bool>>>,
    pub focused: Vec<Notification<StateChangedEvent<bool>>>,
    pub mouse_down: Vec<Notification<StateVecEvent<MouseButton>>>,
    pub mouse_pos: Vec<Notification<OptionalStateEvent<IntPair>>>,
    pub key_down: Vec<Notification<StateVecEvent<Key>>>,
}

/// `a` and `b` have the same listener registries on every cell.
pub open spec fn same_registries(a: GadgetInner, b: GadgetInner) -> bool {
    &&& b.pos.listeners() == a.pos.listeners()
    &&& b.dim.listeners() == a.dim.listeners()
    &&& b.enabled.listeners() == a.enabled.listeners()
    &&& b.parent.listeners() == a.parent.listeners()
    &&& b.children.add_listeners() == a.children.add_listeners()
    &&& b.children.set_listeners() == a.children.set_listeners()
    &&& b.children.remove_listeners() == a.children.remove_listeners()
    &&& b.propagate.listeners() == a.propagate.listeners()
    &&& b.accept_focus.listeners() == a.accept_focus.listeners()
    &&& b.lock_focus.listeners() == a.lock_focus.listeners()
    &&& b.focused.listeners() == a.focused.listeners()
    &&& b.mouse_down.add_listeners() == a.mouse_down.add_listeners()
    &&& b.mouse_down.set_listeners() == a.mouse_down.set_listeners()
    &&& b.mouse_down.remove_listeners() == a.mouse_down.remove_listeners()
    &&& b.mouse_pos.set_listeners() == a.mouse_pos.set_listeners()
    &&& b.mouse_pos.unset_listeners() == a.mouse_pos.unset_listeners()
    &&& b.mouse_pos.change_listeners() == a.mouse_pos.change_listeners()
    &&& b.key_down.add_listeners() == a.key_down.add_listeners()
    &&& b.key_down.set_listeners() == a.key_down.set_listeners()
    &&& b.key_down.remove_listeners() == a.key_down.remove_listeners()
}

/// No cell of `a` has a listener or a scheduled delivery.
pub open spec fn fresh_cells(a: GadgetInner) -> bool {
    &&& a.pos.listeners().len() == 0
    &&& a.pos.pending().len() == 0
    &&& a.dim.listeners().len() == 0
    &&& a.dim.pending().len() == 0
    &&& a.enabled.listeners().len() == 0
    &&& a.enabled.pending().len() == 0
    &&& a.parent.listeners().len() == 0
    &&& a.parent.pending().len() == 0
    &&& a.children.add_listeners().len() == 0
    &&& a.children.set_listeners().len() == 0
    &&& a.children.remove_listeners().len() == 0
    &&& a.children.pending().len() == 0
    &&& a.propagate.listeners().len() == 0
    &&& a.propagate.pending().len() == 0
    &&& a.accept_focus.listeners().len() == 0
    &&& a.accept_focus.pending().len() == 0
    &&& a.lock_focus.listeners().len() == 0
    &&& a.lock_focus.pending().len() == 0
    &&& a.focused.listeners().len() == 0
    &&& a.focused.pending().len() == 0
    &&& a.mouse_down.add_listeners().len() == 0
    &&& a.mouse_down.set_listeners().len() == 0
    &&& a.mouse_down.remove_listeners().len() == 0
    &&& a.mouse_down.pending().len() == 0
    &&& a.mouse_pos.set_listeners().len() == 0
    &&& a.mouse_pos.unset_listeners().len() == 0
    &&& a.mouse_pos.change_listeners().len() == 0
    &&& a.mouse_pos.pending().len() == 0
    &&& a.key_down.add_listeners().len() == 0
    &&& a.key_down.set_listeners().len() == 0
    &&& a.key_down.remove_listeners().len() == 0
    &&& a.key_down.pending().len() == 0
}

/// `b` is `a` with `name` registered for every kind of change of `cell`,
/// and nothing else changed.
pub open spec fn listened(a: GadgetInner, b: GadgetInner, cell: GadgetCell, name: Seq<char>) -> bool {
    &&& b.pos.listeners() == (if cell == GadgetCell::Pos {
        with_name(a.pos.listeners(), name)
    } else {
        a.pos.listeners()
    })
    &&& b.pos.value() == a.pos.value()
    &&& b.pos.owner() == a.pos.owner()
    &&& b.pos.pending() == a.pos.pending()
    &&& b.dim.listeners() == (if cell == GadgetCell::Dim {
        with_name(a.dim.listeners(), name)
    } else {
        a.dim.listeners()
    })
    &&& b.dim.value() == a.dim.value()
    &&& b.dim.owner() == a.dim.owner()
    &&& b.dim.pending() == a.dim.pending()
    &&& b.enabled.listeners() == (if cell == GadgetCell::Enabled {
        with_name(a.enabled.listeners(), name)
    } else {
        a.enabled.listeners()
    })
    &&& b.enabled.value() == a.enabled.value()
    &&& b.enabled.owner() == a.enabled.owner()
    &&& b.enabled.pending() == a.enabled.pending()
    &&& b.parent.listeners() == (if cell == GadgetCell::Parent {
        with_name(a.parent.listeners(), name)
    } else {
        a.parent.listeners()
    })
    &&& b.parent.value() == a.parent.value()
    &&& b.parent.owner() == a.parent.owner()
    &&& b.parent.pending() == a.parent.pending()
    &&& b.children.add_listeners() == (if cell == GadgetCell::Children {
        with_name(a.children.add_listeners(), name)
    } else {
        a.children.add_listeners()
    })
    &&& b.children.set_listeners() == (if cell == GadgetCell::Children {
        with_name(a.children.set_listeners(), name)
    } else {
        a.children.set_listeners()
    })
    &&& b.children.remove_listeners() == (if cell == GadgetCell::Children {
        with_name(a.children.remove_listeners(), name)
    } else {
        a.children.remove_listeners()
    })
    &&& b.children.items() == a.children.items()
    &&& b.children.owner() == a.children.owner()
    &&& b.children.pending() == a.children.pending()
    &&& b.propagate.listeners() == (if cell == GadgetCell::Propagate {
        with_name(a.propagate.listeners(), name)
    } else {
        a.propagate.listeners()
    })
    &&& b.propagate.value() == a.propagate.value()
    &&& b.propagate.owner() == a.propagate.owner()
    &&& b.propagate.pending() == a.propagate.pending()
    &&& b.accept_focus.listeners() == (if cell == GadgetCell::AcceptFocus {
        with_name(a.accept_focus.listeners(), name)
    } else {
        a.accept_focus.listeners()
    })
    &&& b.accept_focus.value() == a.accept_focus.value()
    &&& b.accept_focus.owner() == a.accept_focus.owner()
    &&& b.accept_focus.pending() == a.accept_focus.pending()
    &&& b.lock_focus.listeners() == (if cell == GadgetCell::LockFocus {
        with_name(a.lock_focus.listeners(), name)
    } else {
        a.lock_focus.listeners()
    })
    &&& b.lock_focus.value() == a.lock_focus.value()
    &&& b.lock_focus.owner() == a.lock_focus.owner()
    &&& b.lock_focus.pending() == a.lock_focus.pending()
    &&& b.focused.listeners() == (if cell == GadgetCell::Focused {
        with_name(a.focused.listeners(), name)
    } else {
        a.focused.listeners()
    })
    &&& b.focused.value() == a.focused.value()
    &&& b.focused.owner() == a.focused.owner()
    &&& b.focused.pending() == a.focused.pending()
    &&& b.mouse_down.add_listeners() == (if cell == GadgetCell::MouseDown {
        with_name(a.mouse_down.add_listeners(), name)
    } else {
        a.mouse_down.add_listeners()
    })
    &&& b.mouse_down.set_listeners() == (if cell == GadgetCell::MouseDown {
        with_name(a.mouse_down.set_listeners(), name)
    } else {
        a.mouse_down.set_listeners()
    })
    &&& b.mouse_down.remove_listeners() == (if cell == GadgetCell::MouseDown {
        with_name(a.mouse_down.remove_listeners(), name)
    } else {
        a.mouse_down.remove_listeners()
    })
    &&& b.mouse_down.items() == a.mouse_down.items()
    &&& b.mouse_down.owner() == a.mouse_down.owner()
    &&& b.mouse_down.pending() == a.mouse_down.pending()
    &&& b.mouse_pos.set_listeners() == (if cell == GadgetCell::MousePos {
        with_name(a.mouse_pos.set_listeners(), name)
    } else {
        a.mouse_pos.set_listeners()
    })
    &&& b.mouse_pos.unset_listeners() == (if cell == GadgetCell::MousePos {
        with_name(a.mouse_pos.unset_listeners(), name)
    } else {
        a.mouse_pos.unset_listeners()
    })
    &&& b.mouse_pos.change_listeners() == (if cell == GadgetCell::MousePos {
        with_name(a.mouse_pos.change_listeners(), name)
    } else {
        a.mouse_pos.change_listeners()
    })
    &&& b.mouse_pos.value() == a.mouse_pos.value()
    &&& b.mouse_pos.owner() == a.mouse_pos.owner()
    &&& b.mouse_pos.pending() == a.mouse_pos.pending()
    &&& b.key_down.add_listeners() == (if cell == GadgetCell::KeyDown {
        with_name(a.key_down.add_listeners(), name)
    } else {
        a.key_down.add_listeners()
    })
    &&& b.key_down.set_listeners() == (if cell == GadgetCell::KeyDown {
        with_name(a.key_down.set_listeners(), name)
    } else {
        a.key_down.set_listeners()
    })
    &&& b.key_down.remove_listeners() == (if cell == GadgetCell::KeyDown {
        with_name(a.key_down.remove_listeners(), name)
    } else {
        a.key_down.remove_listeners()
    })
    &&& b.key_down.items() == a.key_down.items()
    &&& b.key_down.owner() == a.key_down.owner()
    &&& b.key_down.pending() == a.key_down.pending()
}

/// `b` is `a` with `name` unregistered for every kind of change of `cell`,
/// and nothing else changed.
pub open spec fn unlistened(a: GadgetInner, b: GadgetInner, cell: GadgetCell, name: Seq<char>) -> bool {
    &&& b.pos.listeners() == (if cell == GadgetCell::Pos {
        without_name(a.pos.listeners(), name)
    } else {
        a.pos.listeners()
    })
    &&& b.pos.value() == a.pos.value()
    &&& b.pos.owner() == a.pos.owner()
    &&& b.pos.pending() == a.pos.pending()
    &&& b.dim.listeners() == (if cell == GadgetCell::Dim {
        without_name(a.dim.listeners(), name)
    } else {
        a.dim.listeners()
    })
    &&& b.dim.value() == a.dim.value()
    &&& b.dim.owner() == a.dim.owner()
    &&& b.dim.pending() == a.dim.pending()
    &&& b.enabled.listeners() == (if cell == GadgetCell::Enabled {
        without_name(a.enabled.listeners(), name)
    } else {
        a.enabled.listeners()
    })
    &&& b.enabled.value() == a.enabled.value()
    &&& b.enabled.owner() == a.enabled.owner()
    &&& b.enabled.pending() == a.enabled.pending()
    &&& b.parent.listeners() == (if cell == GadgetCell::Parent {
        without_name(a.parent.listeners(), name)
    } else {
        a.parent.listeners()
    })
    &&& b.parent.value() == a.parent.value()
    &&& b.parent.owner() == a.parent.owner()
    &&& b.parent.pending() == a.parent.pending()
    &&& b.children.add_listeners() == (if cell == GadgetCell::Children {
        without_name(a.children.add_listeners(), name)
    } else {
        a.children.add_listeners()
    })
    &&& b.children.set_listeners() == (if cell == GadgetCell::Children {
        without_name(a.children.set_listeners(), name)
    } else {
        a.children.set_listeners()
    })
    &&& b.children.remove_listeners() == (if cell == GadgetCell::Children {
        without_name(a.children.remove_listeners(), name)
    } else {
        a.children.remove_listeners()
    })
    &&& b.children.items() == a.children.items()
    &&& b.children.owner() == a.children.owner()
    &&& b.children.pending() == a.children.pending()
    &&& b.propagate.listeners() == (if cell == GadgetCell::Propagate {
        without_name(a.propagate.listeners(), name)
    } else {
        a.propagate.listeners()
    })
    &&& b.propagate.value() == a.propagate.value()
    &&& b.propagate.owner() == a.propagate.owner()
    &&& b.propagate.pending() == a.propagate.pending()
    &&& b.accept_focus.listeners() == (if cell == GadgetCell::AcceptFocus {
        without_name(a.accept_focus.listeners(), name)
    } else {
        a.accept_focus.listeners()
    })
    &&& b.accept_focus.value() == a.accept_focus.value()
    &&& b.accept_focus.owner() == a.accept_focus.owner()
    &&& b.accept_focus.pending() == a.accept_focus.pending()
    &&& b.lock_focus.listeners() == (if cell == GadgetCell::LockFocus {
        without_name(a.lock_focus.listeners(), name)
    } else {
        a.lock_focus.listeners()
    })
    &&& b.lock_focus.value() == a.lock_focus.value()
    &&& b.lock_focus.owner() == a.lock_focus.owner()
    &&& b.lock_focus.pending() == a.lock_focus.pending()
    &&& b.focused.listeners() == (if cell == GadgetCell::Focused {
        without_name(a.focused.listeners(), name)
    } else {
        a.focused.listeners()
    })
    &&& b.focused.value() == a.focused.value()
    &&& b.focused.owner() == a.focused.owner()
    &&& b.focused.pending() == a.focused.pending()
    &&& b.mouse_down.add_listeners() == (if cell == GadgetCell::MouseDown {
        without_name(a.mouse_down.add_listeners(), name)
    } else {
        a.mouse_down.add_listeners()
    })
    &&& b.mouse_down.set_listeners() == (if cell == GadgetCell::MouseDown {
        without_name(a.mouse_down.set_listeners(), name)
    } else {
        a.mouse_down.set_listeners()
    })
    &&& b.mouse_down.remove_listeners() == (if cell == GadgetCell::MouseDown {
        without_name(a.mouse_down.remove_listeners(), name)
    } else {
        a.mouse_down.remove_listeners()
    })
    &&& b.mouse_down.items() == a.mouse_down.items()
    &&& b.mouse_down.owner() == a.mouse_down.owner()
    &&& b.mouse_down.pending() == a.mouse_down.pending()
    &&& b.mouse_pos.set_listeners() == (if cell == GadgetCell::MousePos {
        without_name(a.mouse_pos.set_listeners(), name)
    } else {
        a.mouse_pos.set_listeners()
    })
    &&& b.mouse_pos.unset_listeners() == (if cell == GadgetCell::MousePos {
        without_name(a.mouse_pos.unset_listeners(), name)
    } else {
        a.mouse_pos.unset_listeners()
    })
    &&& b.mouse_pos.change_listeners() == (if cell == GadgetCell::MousePos {
        without_name(a.mouse_pos.change_listeners(), name)
    } else {
        a.mouse_pos.change_listeners()
    })
    &&& b.mouse_pos.value() == a.mouse_pos.value()
    &&& b.mouse_pos.owner() == a.mouse_pos.owner()
    &&& b.mouse_pos.pending() == a.mouse_pos.pending()
    &&& b.key_down.add_listeners() == (if cell == GadgetCell::KeyDown {
        without_name(a.key_down.add_listeners(), name)
    } else {
        a.key_down.add_listeners()
    })
    &&& b.key_down.set_listeners() == (if cell == GadgetCell::KeyDown {
        without_name(a.key_down.set_listeners(), name)
    } else {
        a.key_down.set_listeners()
    })
    &&& b.key_down.remove_listeners() == (if cell == GadgetCell::KeyDown {
        without_name(a.key_down.remove_listeners(), name)
    } else {
        a.key_down.remove_listeners()
    })
    &&& b.key_down.items() == a.key_down.items()
    &&& b.key_down.owner() == a.key_down.owner()
    &&& b.key_down.pending() == a.key_down.pending()
}

/// `r` holds what the cells of `a` had scheduled, and `b` is `a` with
/// every queue emptied.
pub open spec fn drained(a: GadgetInner, b: GadgetInner, r: GadgetPending) -> bool {
    &&& queue_view(r.pos@) == a.pos.pending()
    &&& b.pos.pending().len() == 0
    &&& b.pos.listeners() == a.pos.listeners()
    &&& b.pos.value() == a.pos.value()
    &&& b.pos.owner() == a.pos.owner()
    &&& queue_view(r.dim@) == a.dim.pending()
    &&& b.dim.pending().len() == 0
    &&& b.dim.listeners() == a.dim.listeners()
    &&& b.dim.value() == a.dim.value()
    &&& b.dim.owner() == a.dim.owner()
    &&& queue_view(r.enabled@) == a.enabled.pending()
    &&& b.enabled.pending().len() == 0
    &&& b.enabled.listeners() == a.enabled.listeners()
    &&& b.enabled.value() == a.enabled.value()
    &&& b.enabled.owner() == a.enabled.owner()
    &&& queue_view(r.parent@) == a.parent.pending()
    &&& b.parent.pending().len() == 0
    &&& b.parent.listeners() == a.parent.listeners()
    &&& b.parent.value() == a.parent.value()
    &&& b.parent.owner() == a.parent.owner()
    &&& queue_view(r.children@) == a.children.pending()
    &&& b.children.pending().len() == 0
    &&& b.children.add_listeners() == a.children.add_listeners()
    &&& b.children.set_listeners() == a.children.set_listeners()
    &&& b.children.remove_listeners() == a.children.remove_listeners()
    &&& b.children.items() == a.children.items()
    &&& b.children.owner() == a.children.owner()
    &&& queue_view(r.propagate@) == a.propagate.pending()
    &&& b.propagate.pending().len() == 0
    &&& b.propagate.listeners() == a.propagate.listeners()
    &&& b.propagate.value() == a.propagate.value()
    &&& b.propagate.owner() == a.propagate.owner()
    &&& queue_view(r.accept_focus@) == a.accept_focus.pending()
    &&& b.accept_focus.pending().len() == 0
    &&& b.accept_focus.listeners() == a.accept_focus.listeners()
    &&& b.accept_focus.value() == a.accept_focus.value()
    &&& b.accept_focus.owner() == a.accept_focus.owner()
    &&& queue_view(r.lock_focus@) == a.lock_focus.pending()
    &&& b.lock_focus.pending().len() == 0
    &&& b.lock_focus.listeners() == a.lock_focus.listeners()
    &&& b.lock_focus.value() == a.lock_focus.value()
    &&& b.lock_focus.owner() == a.lock_focus.owner()
    &&& queue_view(r.focused@) == a.focused.pending()
    &&& b.focused.pending().len() == 0
    &&& b.focused.listeners() == a.focused.listeners()
    &&& b.focused.value() == a.focused.value()
    &&& b.focused.owner() == a.focused.owner()
    &&& queue_view(r.mouse_down@) == a.mouse_down.pending()
    &&& b.mouse_down.pending().len() == 0
    &&& b.mouse_down.add_listeners() == a.mouse_down.add_listeners()
    &&& b.mouse_down.set_listeners() == a.mouse_down.set_listeners()
    &&& b.mouse_down.remove_listeners() == a.mouse_down.remove_listeners()
    &&& b.mouse_down.items() == a.mouse_down.items()
    &&& b.mouse_down.owner() == a.mouse_down.owner()
    &&& queue_view(r.mouse_pos@) == a.mouse_pos.pending()
    &&& b.mouse_pos.pending().len() == 0
    &&& b.mouse_pos.set_listeners() == a.mouse_pos.set_listeners()
    &&& b.mouse_pos.unset_listeners() == a.mouse_pos.unset_listeners()
    &&& b.mouse_pos.change_listeners() == a.mouse_pos.change_listeners()
    &&& b.mouse_pos.value() == a.mouse_pos.value()
    &&& b.mouse_pos.owner() == a.mouse_pos.owner()
    &&& queue_view(r.key_down@) == a.key_down.pending()
    &&& b.key_down.pending().len() == 0
    &&& b.key_down.add_listeners() == a.key_down.add_listeners()
    &&& b.key_down.set_listeners() == a.key_down.set_listeners()
    &&& b.key_down.remove_listeners() == a.key_down.remove_listeners()
    &&& b.key_down.items() == a.key_down.items()
    &&& b.key_down.owner() == a.key_down.owner()
}

impl GadgetTree {
    /// Registers the listener `name` on one cell of `g`, for every kind of
    /// change that cell reports; `false` if `g` no longer exists. Values, the
    /// shape of the tree and the other gadgets stay as they are.
    #[verifier::rlimit(40)]
    pub fn listen(&mut self, g: Gadget, cell: GadgetCell, name: &str) -> (r: bool)
        requires
            old(self).wf(),
        ensures
            final(self).wf(),
            final(self)@ == old(self)@,
            r == live(old(self)@, g.id as int),
            r ==> listened(old(self).inner_at(g.id as int), final(self).inner_at(g.id as int), cell, name@),
            forall|j: int|
                #![trigger final(self).inner_at(j)]
                0 <= j < old(self)@.len() && j != g.id ==> final(self).inner_at(j) == old(self).inner_at(j),
    {
        if g.id >= self.slots.len() {
            return false;
        }
        let r = match &mut self.slots[g.id].inner {
            Some(inner) => {
                match cell {
                    GadgetCell::Pos => {
                        inner.pos.listen(name);
                    },
                    GadgetCell::Dim => {
                        inner.dim.listen(name);
                    },
                    GadgetCell::Enabled => {
                        inner.enabled.listen(name);
                    },
                    GadgetCell::Parent => {
                        inner.parent.listen(name);
                    },
                    GadgetCell::Children => {
                        inner.children.listen_add(name);
                        inner.children.listen_set(name);
                        inner.children.listen_remove(name);
                    },
                    GadgetCell::Propagate => {
                        inner.propagate.listen(name);
                    },
                    GadgetCell::AcceptFocus => {
                        inner.accept_focus.listen(name);
                    },
                    GadgetCell::LockFocus => {
                        inner.lock_focus.listen(name);
                    },
                    GadgetCell::Focused => {
                        inner.focused.listen(name);
                    },
                    GadgetCell::MouseDown => {
                        inner.mouse_down.listen_add(name);
                        inner.mouse_down.listen_set(name);
                        inner.mouse_down.listen_remove(name);
                    },
                    GadgetCell::MousePos => {
                        inner.mouse_pos.listen_set(name);
                        inner.mouse_pos.listen_unset(name);
                        inner.mouse_pos.listen_change(name);
                    },
                    GadgetCell::KeyDown => {
                        inner.key_down.listen_add(name);
                        inner.key_down.listen_set(name);
                        inner.key_down.listen_remove(name);
                    },
                }
                true
            },
            None => false,
        };
        proof {
            assert(self@ =~= old(self)@);
            assert forall|j: int| 0 <= j < old(self)@.len() && j != g.id implies self.slots@[j]
                == old(self).slots@[j] by {}
        }
        r
    }

    /// Unregisters the listener `name` from every kind of change of one cell
    /// of `g`.
    #[verifier::rlimit(40)]
    pub fn remove_listener(&mut self, g: Gadget, cell: GadgetCell, name: &str)
        requires
            old(self).wf(),
        ensures
            final(self).wf(),
            final(self)@ == old(self)@,
            live(old(self)@, g.id as int) ==> unlistened(old(self).inner_at(g.id as int), final(self).inner_at(g.id as int), cell, name@),
            forall|j: int|
                #![trigger final(self).inner_at(j)]
                0 <= j < old(self)@.len() && j != g.id ==> final(self).inner_at(j) == old(self).inner_at(j),
    {
        if g.id < self.slots.len() {
            match &mut self.slots[g.id].inner {
                Some(inner) => match cell {
                    GadgetCell::Pos => inner.pos.remove_listener(name),
                    GadgetCell::Dim => inner.dim.remove_listener(name),
                    GadgetCell::Enabled => inner.enabled.remove_listener(name),
                    GadgetCell::Parent => inner.parent.remove_listener(name),
                    GadgetCell::Children => {
                        inner.children.remove_listener_add(name);
                        inner.children.remove_listener_set(name);
                        inner.children.remove_listener_remove(name);
                    },
                    GadgetCell::Propagate => inner.propagate.remove_listener(name),
                    GadgetCell::AcceptFocus => inner.accept_focus.remove_listener(name),
                    GadgetCell::LockFocus => inner.lock_focus.remove_listener(name),
                    GadgetCell::Focused => inner.focused.remove_listener(name),
                    GadgetCell::MouseDown => {
                        inner.mouse_down.remove_listener_add(name);
                        inner.mouse_down.remove_listener_set(name);
                        inner.mouse_down.remove_listener_remove(name);
                    },
                    GadgetCell::MousePos => {
                        inner.mouse_pos.remove_listener_set(name);
                        inner.mouse_pos.remove_listener_unset(name);
                        inner.mouse_pos.remove_listener_change(name);
                    },
                    GadgetCell::KeyDown => {
                        inner.key_down.remove_listener_add(name);
                        inner.key_down.remove_listener_set(name);
                        inner.key_down.remove_listener_remove(name);
                    },
                },
                None => {},
            }
        }
        proof {
            assert(self@ =~= old(self)@);
            assert forall|j: int| 0 <= j < old(self)@.len() && j != g.id implies self.slots@[j]
                == old(self).slots@[j] by {}
        }
    }

    /// Hands out what the cells of `g` had scheduled, oldest first, and
    /// empties their queues; `None` if `g` no longer exists.
    #[verifier::rlimit(40)]
    pub fn take_pending(&mut self, g: Gadget) -> (r: Option<GadgetPending>)
        requires
            old(self).wf(),
        ensures
            final(self).wf(),
            final(self)@ == old(self)@,
            r is Some == live(old(self)@, g.id as int),
            r matches Some(p) ==> drained(old(self).inner_at(g.id as int), final(self).inner_at(g.id as int), p),
            forall|j: int|
                #![trigger final(self).inner_at(j)]
                0 <= j < old(self)@.len() && j != g.id ==> final(self).inner_at(j) == old(self).inner_at(j),
    {
        if g.id >= self.slots.len() {
            return None;
        }
        let r = match &mut self.slots[g.id].inner {
            Some(inner) => {
                Some(GadgetPending {
                    pos: inner.pos.take_pending(),
                    dim: inner.dim.take_pending(),
                    enabled: inner.enabled.take_pending(),
                    parent: inner.parent.take_pending(),
                    children: inner.children.take_pending(),
                    propagate: inner.propagate.take_pending(),
                    accept_focus: inner.accept_focus.take_pending(),
                    lock_focus: inner.lock_focus.take_pending(),
                    focused: inner.focused.take_pending(),
                    mouse_down: inner.mouse_down.take_pending(),
                    mouse_pos: inner.mouse_pos.take_pending(),
                    key_down: inner.key_down.take_pending(),
                })
            },
            None => None,
        };
        proof {
            assert(self@ =~= old(self)@);
            assert forall|j: int| 0 <= j < old(self)@.len() && j != g.id implies self.slots@[j]
                == old(self).slots@[j] by {}
        }
        r
    }
}

/// The tree after `g` stops hanging from window `w`; unchanged if it did not.
pub open spec fn unrooted(t: Seq<NodeView>, g: Gadget, w: WindowRef) -> Seq<NodeView> {
    if live(t, g.id as int) && t[g.id as int].parent == GadgetParent::Window(w) {
        t.update(g.id as int, (NodeView { parent: GadgetParent::Detached, ..t[g.id as int] }))
    } else {
        t
    }
}

/// The tree after a detached `g` starts to hang from window `w`; unchanged
/// if it was not detached.
pub open spec fn rooted(t: Seq<NodeView>, g: Gadget, w: WindowRef) -> Seq<NodeView> {
    if live(t, g.id as int) && t[g.id as int].parent == GadgetParent::Detached {
        t.update(g.id as int, (NodeView { parent: GadgetParent::Window(w), ..t[g.id as int] }))
    } else {
        t
    }
}

impl GadgetTree {
    /// Makes `g` stop hanging from window `w`, if it does.
    pub fn detach_from_window(&mut self, g: Gadget, w: WindowRef)
        requires
            old(self).wf(),
        ensures
            final(self).wf(),
            final(self)@ == unrooted(old(self)@, g, w),
            acyclic(old(self)@) ==> acyclic(final(self)@),
    {
        if !self.is_live(g.id) {
            return ;
        }
        let hangs = match &self.slots[g.id].inner {
            Some(inner) => inner.parent.get() == GadgetParent::Window(w),
            None => false,
        };
        if !hangs {
            return ;
        }
        let ghost t = self@;
        match &mut self.slots[g.id].inner {
            Some(inner) => inner.parent.set(GadgetParent::Detached),
            None => {},
        }
        proof {
            let b = self@;
            assert(b =~= unrooted(t, g, w));
            lemma_wf_same_shape_but_parent(t, b, g.id as int);
            if acyclic(t) {
                assert forall|m: int| #![trigger parent_node(b, m)]
                    live(b, m) && parent_node(b, m) is Some implies live(t, m) && parent_node(b, m)
                    == parent_node(t, m) by {
                    assert(b[m] == b[m]);
                    assert(t[m] == t[m]);
                }
                lemma_acyclic_shorter(t, b);
            }
        }
    }
}

proof fn lemma_wf_same_shape_but_parent(a: Seq<NodeView>, b: Seq<NodeView>, g: int)
    requires
        tree_wf(a),
        live(a, g),
        a[g].parent is Window,
        b == a.update(g, (NodeView { parent: GadgetParent::Detached, ..a[g] })),
    ensures
        tree_wf(b),
{
    assert forall|n: int| #![trigger parent_node(b, n)]
        live(b, n) && parent_node(b, n) is Some implies b[parent_node(
            b,
            n,
        )->Some_0].children.contains(Gadget { id: n as usize }) by {
        assert(n != g);
        assert(parent_node(b, n) == parent_node(a, n));
        let q = parent_node(a, n)->Some_0;
        assert(b[q].children == a[q].children);
    }
    assert forall|q: int, k: int|
        #![trigger b[q].children[k]]
        live(b, q) && 0 <= k < b[q].children.len() implies {
            &&& live(b, b[q].children[k].id as int)
            &&& b[b[q].children[k].id as int].parent == GadgetParent::Gadget(
                GadgetRef { id: Some(q as usize) },
            )
        } by {
        assert(b[q].children[k] == a[q].children[k]);
        let e = a[q].children[k].id as int;
        assert(live(a, e));
    }
}

} // verus!
