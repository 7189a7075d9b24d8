use vstd::prelude::*;
use crate::gadget::{live, parent_node, resolve, Gadget, GadgetRef, GadgetTree, NodeView, WindowRef};
use crate::state::{
    fan_out, seq_position, OptionalState, OptionalStateEvent, OptionalStateSetEvent,
};

verus! {

/// Whether a gadget gains or loses focus.
#[derive(Debug, Clone, Copy, PartialEq, Eq, Structural)]
pub enum FocusEventInfo {
    Gain,
    Lose,
}

/// The first gadget that accepts focus in a pre-order walk of `kids` from
/// index `i` on: a gadget that lets the search through is entered (at most
/// `fuel` levels deep) and never taken itself; any other gadget is taken if
/// it accepts focus.
pub open spec fn search(t: Seq<NodeView>, kids: Seq<Gadget>, i: int, fuel: nat) -> Option<Gadget>
    decreases fuel, kids.len() - i,
{
    if i < 0 || i >= kids.len() {
        None
    } else {
        let c = kids[i];
        if !live(t, c.id as int) {
            search(t, kids, i + 1, fuel)
        } else if t[c.id as int].propagate {
            if fuel == 0 {
                search(t, kids, i + 1, fuel)
            } else {
                match search(t, t[c.id as int].children, 0, (fuel - 1) as nat) {
                    Some(g) => Some(g),
                    None => search(t, kids, i + 1, fuel),
                }
            }
        } else if t[c.id as int].accept_focus {
            Some(c)
        } else {
            search(t, kids, i + 1, fuel)
        }
    }
}

/// Where focus goes after leaving `cur`: at each ancestor that lets the
/// search through, the siblings after the subtree just left are searched;
/// the walk stops at a window, a detached top or a destroyed parent.
pub open spec fn walk_up(t: Seq<NodeView>, cur: int, fuel: nat) -> Option<Gadget>
    decreases fuel,
{
    match parent_node(t, cur) {
        None => None,
        Some(p) => {
            let found = if t[p].propagate {
                match seq_position(t[p].children, Gadget { id: cur as usize }) {
                    Some(k) => search(t, t[p].children, k + 1, t.len()),
                    None => None,
                }
            } else {
                None
            };
            match found {
                Some(g) => Some(g),
                None => if fuel == 0 {
                    None
                } else {
                    walk_up(t, p, (fuel - 1) as nat)
                },
            }
        },
    }
}

/// The entries of a manual order that still resolve, in order.
pub open spec fn live_refs(t: Seq<NodeView>, order: Seq<GadgetRef>) -> Seq<GadgetRef>
    decreases order.len(),
{
    if order.len() == 0 {
        Seq::empty()
    } else {
        let rest = live_refs(t, order.drop_last());
        if resolve(t, order.last()) is Some {
            rest.push(order.last())
        } else {
            rest
        }
    }
}

/// The first entry of `order` that accepts focus, trying positions
/// `start + k`, `start + k + 1`, ... round the list, `len - k` of them.
pub open spec fn scan(t: Seq<NodeView>, order: Seq<GadgetRef>, start: int, k: int) -> Option<Gadget>
    decreases order.len() - k,
{
    if k < 0 || k >= order.len() {
        None
    } else {
        match resolve(t, order[(start + k) % (order.len() as int)]) {
            Some(g) => if t[g.id as int].accept_focus {
                Some(g)
            } else {
                scan(t, order, start, k + 1)
            },
            None => scan(t, order, start, k + 1),
        }
    }
}

/// The gadget that a focus reference names, if it still exists.
pub open spec fn holder(t: Seq<NodeView>, f: Option<GadgetRef>) -> Option<Gadget> {
    match f {
        Some(r) => resolve(t, r),
        None => None,
    }
}

/// Whether the current holder votes against losing focus.
pub open spec fn refuses_release(t: Seq<NodeView>, f: Option<GadgetRef>) -> bool {
    match holder(t, f) {
        Some(g) => t[g.id as int].lock_focus,
        None => false,
    }
}

/// The next focus in automatic order.
pub open spec fn auto_next(t: Seq<NodeView>, f: Option<GadgetRef>, root: Gadget) -> Option<Gadget> {
    match holder(t, f) {
        None => if live(t, root.id as int) && t[root.id as int].propagate {
            search(t, t[root.id as int].children, 0, t.len())
        } else {
            None
        },
        Some(g) => walk_up(t, g.id as int, t.len()),
    }
}

/// Where a manual scan starts: right after the holder, or at the front.
pub open spec fn manual_start(t: Seq<NodeView>, order: Seq<GadgetRef>, f: Option<GadgetRef>) -> int {
    match holder(t, f) {
        Some(g) => match seq_position(order, g.spec_refer()) {
            Some(k) => (k + 1) % (order.len() as int),
            None => 0,
        },
        None => 0,
    }
}

/// The next focus in a manual order whose entries all resolve.
pub open spec fn manual_next(t: Seq<NodeView>, order: Seq<GadgetRef>, f: Option<GadgetRef>) -> Option<Gadget> {
    if order.len() == 0 {
        None
    } else {
        scan(t, order, manual_start(t, order, f), 0)
    }
}

/// Where one cycle sends focus: by the manual order if there is one (its
/// entries that no longer resolve left out), else by the hierarchy.
pub open spec fn cycle_next(
    t: Seq<NodeView>,
    f: Option<GadgetRef>,
    manual: Option<Seq<GadgetRef>>,
    root: Gadget,
) -> Option<Gadget> {
    match manual {
        Some(o) => manual_next(t, live_refs(t, o), f),
        None => auto_next(t, f, root),
    }
}

/// The tree after focus moves from `from` to `to`: the old holder's
/// focused flag is lowered, then the new holder's raised.
pub open spec fn refocused(t: Seq<NodeView>, from: Option<Gadget>, to: Option<Gadget>) -> Seq<NodeView> {
    let t1 = match from {
        Some(g) => t.update(g.id as int, (NodeView { focused: false, ..t[g.id as int] })),
        None => t,
    };
    match to {
        Some(g) => t1.update(g.id as int, (NodeView { focused: true, ..t1[g.id as int] })),
        None => t1,
    }
}

/// What the focus cell `c`, once emptied, reports when `next` gains focus.
pub open spec fn focus_gained(c: &OptionalState<GadgetRef>, next: Option<Gadget>) -> Seq<
    (Seq<char>, OptionalStateEvent<GadgetRef>),
> {
    match next {
        Some(g) => fan_out(
            c.set_listeners(),
            OptionalStateEvent::Put(OptionalStateSetEvent { gadget: c.owner(), value: g.spec_refer() }),
        ),
        None => Seq::empty(),
    }
}

/// A focus reference for an optional gadget.
pub open spec fn ref_of(g: Option<Gadget>) -> Option<GadgetRef> {
    match g {
        Some(x) => Some(x.spec_refer()),
        None => None,
    }
}

/// The per-window focus tracker: the focused gadget, if any, and an
/// optional manual order that overrides the order of the hierarchy.
pub struct CaribouFocus {
    pub focused: OptionalState<GadgetRef>,
    pub manual_order: Option<Vec<GadgetRef>>,
    pub window_ref: Option<WindowRef>,
}

impl CaribouFocus {
    pub open spec fn manual(&self) -> Option<Seq<GadgetRef>> {
        match self.manual_order {
            Some(v) => Some(v@),
            None => None,
        }
    }

    /// An unfocused tracker in automatic mode.
    pub fn new() -> (r: Self)
        ensures
            r.focused.value() is None,
            r.manual() is None,
            r.window_ref is None,
    {
        CaribouFocus {
            focused: OptionalState::new_empty(GadgetRef::dangling()),
            manual_order: None,
            window_ref: None,
        }
    }

    /// Remembers the window this tracker serves.
    pub fn attach(&mut self, window: WindowRef)
        ensures
            final(self).window_ref == Some(window),
            final(self).focused == old(self).focused,
            final(self).manual() == old(self).manual(),
    {
        self.window_ref = Some(window);
    }

    /// Replaces the manual order; `None` returns to automatic order.
    pub fn set_manual_order(&mut self, order: Option<Vec<GadgetRef>>)
        ensures
            final(self).manual() == (match order {
                Some(v) => Some(v@),
                None => None,
            }),
            final(self).focused == old(self).focused,
            final(self).window_ref == old(self).window_ref,
    {
        self.manual_order = order;
    }

    /// The focused gadget, if it still exists.
    pub fn current(&self, tree: &GadgetTree) -> (r: Option<Gadget>)
        ensures
            r == holder(tree@, self.focused.value()),
    {
        match self.focused.get() {
            Some(r) => r.get(tree),
            None => None,
        }
    }

    /// Whether the focused gadget votes against losing focus.
    pub fn focus_locked(&self, tree: &GadgetTree) -> (r: bool)
        ensures
            r == refuses_release(tree@, self.focused.value()),
    {
        match self.current(tree) {
            Some(g) => match tree.inner(g) {
                Some(inner) => inner.lock_focus.get(),
                None => false,
            },
            None => false,
        }
    }

    /// Leaves the tracker unfocused; the gadget that held focus, if it still
    /// exists, has its focused flag lowered.
    pub fn clear_focus(&mut self, tree: &mut GadgetTree)
        requires
            old(tree).wf(),
        ensures
            final(tree).wf(),
            final(self).focused.value() is None,
            final(self).focused.same_wiring(&old(self).focused),
            final(self).manual() == old(self).manual(),
            final(self).window_ref == old(self).window_ref,
            final(tree)@ == refocused(old(tree)@, holder(old(tree)@, old(self).focused.value()), None),
            final(self).focused.pending() == old(self).focused.pending() + old(
                self,
            ).focused.transition(None),
    {
        let from = self.current(tree);
        let _ = self.focused.take();
        match from {
            Some(g) => tree.set_focused(g, false),
            None => {},
        }
    }

    /// Whether `g` is the focused gadget.
    pub fn is_focused(&self, tree: &GadgetTree, g: Gadget) -> (r: bool)
        ensures
            r == (holder(tree@, self.focused.value()) == Some(g)),
    {
        match self.current(tree) {
            Some(h) => h.id == g.id,
            None => false,
        }
    }
}

proof fn lemma_search_live(t: Seq<NodeView>, kids: Seq<Gadget>, i: int, fuel: nat)
    ensures
        search(t, kids, i, fuel) matches Some(g) ==> live(t, g.id as int) && t[g.id as int].accept_focus,
    decreases fuel, kids.len() - i,
{
    if i < 0 || i >= kids.len() {
    } else {
        let c = kids[i];
        lemma_search_live(t, kids, i + 1, fuel);
        if live(t, c.id as int) && t[c.id as int].propagate && fuel > 0 {
            lemma_search_live(t, t[c.id as int].children, 0, (fuel - 1) as nat);
        }
    }
}

proof fn lemma_walk_up_live(t: Seq<NodeView>, cur: int, fuel: nat)
    ensures
        walk_up(t, cur, fuel) matches Some(g) ==> live(t, g.id as int) && t[g.id as int].accept_focus,
    decreases fuel,
{
    match parent_node(t, cur) {
        None => {},
        Some(p) => {
            match seq_position(t[p].children, Gadget { id: cur as usize }) {
                Some(k) => lemma_search_live(t, t[p].children, k + 1, t.len()),
                None => {},
            }
            if fuel > 0 {
                lemma_walk_up_live(t, p, (fuel - 1) as nat);
            }
        },
    }
}

proof fn lemma_scan_live(t: Seq<NodeView>, order: Seq<GadgetRef>, start: int, k: int)
    ensures
        scan(t, order, start, k) matches Some(g) ==> live(t, g.id as int) && t[g.id as int].accept_focus,
    decreases order.len() - k,
{
    if k < 0 || k >= order.len() {
    } else {
        lemma_scan_live(t, order, start, k + 1);
    }
}

/// Focus only ever goes to a live gadget that votes to accept it.
pub proof fn lemma_next_focus_accepts(
    t: Seq<NodeView>,
    f: Option<GadgetRef>,
    manual: Option<Seq<GadgetRef>>,
    root: Gadget,
)
    ensures
        cycle_next(t, f, manual, root) matches Some(g) ==> live(t, g.id as int)
            && t[g.id as int].accept_focus,
{
    match manual {
        Some(o) => {
            let order = live_refs(t, o);
            if order.len() > 0 {
                lemma_scan_live(t, order, manual_start(t, order, f), 0);
            }
        },
        None => match holder(t, f) {
            Some(h) => lemma_walk_up_live(t, h.id as int, t.len()),
            None => if live(t, root.id as int) && t[root.id as int].propagate {
                lemma_search_live(t, t[root.id as int].children, 0, t.len());
            },
        },
    }
}

/// The first gadget that accepts focus in a pre-order walk of `kids` from
/// index `from` on, as `search` says.
pub fn focus_propagate(tree: &GadgetTree, kids: &Vec<Gadget>, from: usize, fuel: usize) -> (r: Option<Gadget>)
    ensures
        r == search(tree@, kids@, from as int, fuel as nat),
    decreases fuel,
{
    let mut i: usize = from;
    while i < kids.len()
        invariant
            from <= i,
            search(tree@, kids@, from as int, fuel as nat) == search(
                tree@,
                kids@,
                i as int,
                fuel as nat,
            ),
        decreases kids.len() - i,
    {
        let c = kids[i];
        match tree.inner(c) {
            None => {},
            Some(inner) => {
                if inner.propagate.get() {
                    if fuel > 0 {
                        match focus_propagate(tree, inner.children.get_vec(), 0, fuel - 1) {
                            Some(g) => {
                                return Some(g);
                            },
                            None => {},
                        }
                    }
                } else if inner.accept_focus.get() {
                    return Some(c);
                }
            },
        }
        i += 1;
    }
    None
}

/// Where focus goes after leaving `cur`, as `walk_up` says.
fn focus_walk_up(tree: &GadgetTree, cur: usize, fuel: usize) -> (r: Option<Gadget>)
    requires
        tree.wf(),
        live(tree@, cur as int),
    ensures
        r == walk_up(tree@, cur as int, fuel as nat),
    decreases fuel,
{
    let p = match tree.parent_of(cur) {
        Some(p) => p,
        None => return None,
    };
    let found = match tree.inner(Gadget { id: p }) {
        Some(inner) => if inner.propagate.get() {
            let kids = inner.children.get_vec();
            let nk = kids.len();
            match inner.children.position(&Gadget { id: cur }) {
                Some(k) => {
                    assert(k < nk);
                    focus_propagate(tree, kids, k + 1, tree.len())
                },
                None => None,
            }
        } else {
            None
        },
        None => None,
    };
    match found {
        Some(g) => Some(g),
        None => if fuel == 0 {
            None
        } else {
            focus_walk_up(tree, p, fuel - 1)
        },
    }
}

/// The entries of `order` that still resolve, as `live_refs` says.
fn keep_live(tree: &GadgetTree, order: &Vec<GadgetRef>) -> (r: Vec<GadgetRef>)
    ensures
        r@ == live_refs(tree@, order@),
{
    let mut r: Vec<GadgetRef> = Vec::new();
    let mut i: usize = 0;
    while i < order.len()
        invariant
            i <= order@.len(),
            r@ == live_refs(tree@, order@.subrange(0, i as int)),
        decreases order.len() - i,
    {
        proof {
            assert(order@.subrange(0, i + 1).drop_last() =~= order@.subrange(0, i as int));
        }
        if order[i].get(tree).is_some() {
            r.push(order[i]);
        }
        i += 1;
    }
    proof {
        assert(order@.subrange(0, order@.len() as int) =~= order@);
    }
    r
}

/// The first entry that accepts focus going round `order` from `start`, as
/// `scan` says.
fn scan_from(tree: &GadgetTree, order: &Vec<GadgetRef>, start: usize) -> (r: Option<Gadget>)
    requires
        start < order@.len(),
    ensures
        r == scan(tree@, order@, start as int, 0),
{
    let n = order.len();
    let mut k: usize = 0;
    while k < n
        invariant
            n == order@.len(),
            start < n,
            k <= n,
            scan(tree@, order@, start as int, 0) == scan(tree@, order@, start as int, k as int),
        decreases n - k,
    {
        let idx = if k < n - start {
            start + k
        } else {
            k - (n - start)
        };
        proof {
            let a = start as int + k as int;
            let m = n as int;
            if a < m {
                vstd::arithmetic::div_mod::lemma_small_mod(a as nat, m as nat);
            } else {
                vstd::arithmetic::div_mod::lemma_small_mod((a - m) as nat, m as nat);
                vstd::arithmetic::div_mod::lemma_mod_sub_multiples_vanish(a, m);
            }
            assert(a % m == idx as int);
        }
        match order[idx].get(tree) {
            Some(g) => match tree.inner(g) {
                Some(inner) => if inner.accept_focus.get() {
                    return Some(g);
                },
                None => {},
            },
            None => {},
        }
        k += 1;
    }
    None
}

/// The first position of `me` in `order`.
fn ref_position(order: &Vec<GadgetRef>, me: GadgetRef) -> (r: Option<usize>)
    ensures
        match r {
            Some(k) => k < order@.len() && seq_position(order@, me) == Some(k as int),
            None => seq_position(order@, me) is None,
        },
{
    let mut i: usize = 0;
    while i < order.len()
        invariant
            i <= order@.len(),
            forall|j: int| 0 <= j < i ==> order@[j] != me,
        decreases order.len() - i,
    {
        if order[i] == me {
            proof {
                crate::state::lemma_seq_position(order@, me, i as int);
            }
            return Some(i);
        }
        i += 1;
    }
    proof {
        assert(!order@.contains(me));
    }
    None
}

impl CaribouFocus {
    /// The next focus in manual order, as `manual_next` says.
    fn manual_pick(&self, tree: &GadgetTree, order: &Vec<GadgetRef>) -> (r: Option<Gadget>)
        ensures
            r == manual_next(tree@, order@, self.focused.value()),
    {
        let n = order.len();
        if n == 0 {
            return None;
        }
        let start = match self.current(tree) {
            Some(g) => {
                let me = g.refer();
                let pos = ref_position(order, me);
                match pos {
                    Some(k) => {
                        proof {
                            let a = k as int + 1;
                            if a < n {
                                vstd::arithmetic::div_mod::lemma_small_mod(a as nat, n as nat);
                            } else {
                                vstd::arithmetic::div_mod::lemma_mod_self_0(n as int);
                            }
                        }
                        if k + 1 == n {
                            0
                        } else {
                            k + 1
                        }
                    },
                    None => 0,
                }
            },
            None => 0,
        };
        scan_from(tree, order, start)
    }

    /// Moves focus on to the next gadget. A manual order, if set, first
    /// loses its entries that no longer resolve. If the focused gadget votes
    /// to keep focus nothing else changes. Otherwise focus goes to the next
    /// gadget that accepts it, in manual order round the list, or in the
    /// order of the hierarchy from the gadget that held it; when none is
    /// found the tracker is left unfocused, and the next call starts again
    /// from the root.
    pub fn cycle(&mut self, tree: &mut GadgetTree, root: Gadget)
        requires
            old(tree).wf(),
        ensures
            final(tree).wf(),
            final(self).manual() == (match old(self).manual() {
                Some(o) => Some(live_refs(old(tree)@, o)),
                None => None,
            }),
            final(self).window_ref == old(self).window_ref,
            final(self).focused.same_wiring(&old(self).focused),
            refuses_release(old(tree)@, old(self).focused.value()) ==> {
                &&& *final(tree) == *old(tree)
                &&& final(self).focused.value() == old(self).focused.value()
                &&& final(self).focused.pending() == old(self).focused.pending()
            },
            !refuses_release(old(tree)@, old(self).focused.value()) ==> {
                let t = old(tree)@;
                let f = old(self).focused.value();
                let next = cycle_next(t, f, old(self).manual(), root);
                &&& final(self).focused.value() == ref_of(next)
                &&& final(tree)@ == refocused(t, holder(t, f), next)
                &&& next matches Some(g) ==> live(t, g.id as int) && t[g.id as int].accept_focus
                &&& final(self).focused.pending() == old(self).focused.pending() + old(
                    self,
                ).focused.transition(None) + focus_gained(&old(self).focused, next)
            },
    {
        let ghost t = tree@;
        let mut taken: Option<Vec<GadgetRef>> = None;
        std::mem::swap(&mut taken, &mut self.manual_order);
        let manual = match taken {
            Some(o) => Some(keep_live(tree, &o)),
            None => None,
        };
        if self.focus_locked(tree) {
            self.manual_order = manual;
            return ;
        }
        let from = self.current(tree);
        let next = match &manual {
            Some(o) => self.manual_pick(tree, o),
            None => match from {
                Some(g) => {
                    let fuel = tree.len();
                    focus_walk_up(tree, g.id, fuel)
                },
                None => match tree.inner(root) {
                    Some(inner) => if inner.propagate.get() {
                        focus_propagate(tree, inner.children.get_vec(), 0, tree.len())
                    } else {
                        None
                    },
                    None => None,
                },
            },
        };
        proof {
            lemma_next_focus_accepts(t, old(self).focused.value(), old(self).manual(), root);
        }
        self.manual_order = manual;
        self.clear_focus(tree);
        match next {
            Some(g) => {
                self.focused.put(g.refer());
                tree.set_focused(g, true);
            },
            None => {
                proof {
                    assert(self.focused.pending() =~= old(self).focused.pending() + old(
                        self,
                    ).focused.transition(None) + focus_gained(&old(self).focused, next));
                }
            },
        }
    }
}

/// A manual order holding one gadget that accepts focus and never refuses
/// to release it is a fixed point of cycling: from an unfocused tracker, or
/// one focused on that gadget, a cycle focuses it, and the state reached
/// meets the same conditions again.
pub proof fn lemma_single_candidate_fixed_point(t: Seq<NodeView>, a: Gadget, f: Option<GadgetRef>)
    requires
        live(t, a.id as int),
        t[a.id as int].accept_focus,
        !t[a.id as int].lock_focus,
        holder(t, f) is None || holder(t, f) == Some(a),
    ensures
        live_refs(t, seq![a.spec_refer()]) == seq![a.spec_refer()],
        !refuses_release(t, f),
        manual_next(t, seq![a.spec_refer()], f) == Some(a),
        ({
            let t2 = refocused(t, holder(t, f), Some(a));
            &&& live(t2, a.id as int)
            &&& t2[a.id as int].accept_focus
            &&& !t2[a.id as int].lock_focus
            &&& holder(t2, ref_of(Some(a))) == Some(a)
        }),
{
    let order = seq![a.spec_refer()];
    assert(order.drop_last() =~= Seq::<GadgetRef>::empty());
    assert(live_refs(t, order.drop_last()) =~= Seq::<GadgetRef>::empty());
    assert(Seq::<GadgetRef>::empty().push(a.spec_refer()) =~= order);
    assert(resolve(t, a.spec_refer()) == Some(a));
    let start = manual_start(t, order, f);
    match holder(t, f) {
        Some(g) => {
            crate::state::lemma_seq_position(order, g.spec_refer(), 0);
            vstd::arithmetic::div_mod::lemma_mod_self_0(1);
            assert(start == 0);
        },
        None => {},
    }
    assert((start + 0) % 1 == 0);
    assert(scan(t, order, start, 0) == Some(a));
}

} // verus!
