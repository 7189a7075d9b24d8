use vstd::prelude::*;
use crate::gadget::{
    default_node, live, pointed, pressed, tree_wf, Gadget, GadgetCell, GadgetTree, NodeView,
};
use crate::input::{Key, MouseButton};
use crate::state::fan_out;
use crate::math::IntPair;

verus! {

/// The visual state of a button.
#[derive(Debug, Clone, Copy, PartialEq, Eq, Structural)]
pub enum ButtonState {
    Normal,
    Hover,
    Pressed,
}

/// What happens to a button.
#[derive(Debug, Clone, Copy, PartialEq, Eq, Structural)]
pub enum ButtonInput {
    /// The pointer came over it.
    PointerEnter,
    /// The pointer left it.
    PointerLeave,
    ButtonDown(MouseButton),
    ButtonUp(MouseButton),
    KeyDown(Key),
    KeyUp(Key),
}

/// The state a button goes to on `input`, given whether the pointer is over
/// it and whether the primary button is held on it once the input is taken
/// in. The primary button and Return press it; releasing the primary button
/// leaves it hovered; releasing Return leaves it hovered, or normal if the
/// pointer is elsewhere, unless the primary button still holds it down.
pub open spec fn button_next(
    state: ButtonState,
    input: ButtonInput,
    hovering: bool,
    primary_held: bool,
) -> ButtonState {
    match input {
        ButtonInput::PointerEnter => ButtonState::Hover,
        ButtonInput::PointerLeave => ButtonState::Normal,
        ButtonInput::ButtonDown(b) => if b == MouseButton::Primary {
            ButtonState::Pressed
        } else {
            state
        },
        ButtonInput::ButtonUp(b) => if b == MouseButton::Primary {
            ButtonState::Hover
        } else {
            state
        },
        ButtonInput::KeyDown(k) => if k == Key::Return {
            ButtonState::Pressed
        } else {
            state
        },
        ButtonInput::KeyUp(k) => if k != Key::Return {
            state
        } else if hovering {
            if primary_held {
                state
            } else {
                ButtonState::Hover
            }
        } else {
            ButtonState::Normal
        },
    }
}

impl ButtonState {
    /// The state after `input`, as `button_next` says.
    pub fn next(self, input: ButtonInput, hovering: bool, primary_held: bool) -> (r: ButtonState)
        ensures
            r == button_next(self, input, hovering, primary_held),
    {
        match input {
            ButtonInput::PointerEnter => ButtonState::Hover,
            ButtonInput::PointerLeave => ButtonState::Normal,
            ButtonInput::ButtonDown(b) => if b == MouseButton::Primary {
                ButtonState::Pressed
            } else {
                self
            },
            ButtonInput::ButtonUp(b) => if b == MouseButton::Primary {
                ButtonState::Hover
            } else {
                self
            },
            ButtonInput::KeyDown(k) => if k == Key::Return {
                ButtonState::Pressed
            } else {
                self
            },
            ButtonInput::KeyUp(k) => if k != Key::Return {
                self
            } else if hovering {
                if primary_held {
                    self
                } else {
                    ButtonState::Hover
                }
            } else {
                ButtonState::Normal
            },
        }
    }
}

/// Editing state of a single-line text box.
#[derive(Debug, Clone, Copy, PartialEq, Eq, Structural)]
pub enum TextBoxState {
    Unfocused,
    Edit,
    PreEdit,
}

/// A gadget as a text box starts out: as `create` makes it, but accepting
/// focus, not entered by the focus search, and not refusing to let focus go.
pub open spec fn textbox_node() -> NodeView {
    NodeView { accept_focus: true, lock_focus: false, propagate: false, ..default_node() }
}

/// A push button.
pub struct Button;

impl Button {
    /// A new button gadget, owned by the caller; it takes focus like a text
    /// box does.
    pub fn create(tree: &mut GadgetTree) -> (g: Gadget)
        requires
            old(tree).wf(),
        ensures
            final(tree).wf(),
            g.id == old(tree)@.len(),
            final(tree)@ == old(tree)@.push(textbox_node()),
    {
        Textbox::create(tree)
    }

    /// A button accepts focus exactly while it is enabled.
    pub fn on_enabled(tree: &mut GadgetTree, g: Gadget, enabled: bool)
        requires
            old(tree).wf(),
        ensures
            final(tree).wf(),
            crate::gadget::live(old(tree)@, g.id as int) ==> final(tree)@ == old(tree)@.update(
                g.id as int,
                (NodeView { accept_focus: enabled, ..old(tree)@[g.id as int] }),
            ),
            !crate::gadget::live(old(tree)@, g.id as int) ==> final(tree)@ == old(tree)@,
    {
        tree.set_accept_focus(g, enabled);
    }
}

/// A single-line text input.
pub struct Textbox;

impl Textbox {
    /// A new text box gadget, owned by the caller.
    pub fn create(tree: &mut GadgetTree) -> (g: Gadget)
        requires
            old(tree).wf(),
        ensures
            final(tree).wf(),
            g.id == old(tree)@.len(),
            final(tree)@ == old(tree)@.push(textbox_node()),
    {
        let g = tree.create();
        tree.set_accept_focus(g, true);
        tree.set_lock_focus(g, false);
        tree.set_propagate(g, false);
        proof {
            assert(tree@ =~= old(tree)@.push(textbox_node()));
        }
        g
    }
}

/// A layout as `create` makes it: 150 by 150, letting the focus search
/// through, otherwise as `GadgetTree::create` makes a gadget.
pub open spec fn layout_node() -> NodeView {
    NodeView { dim: IntPair { x: 150, y: 150 }, ..default_node() }
}

/// The listener through which a layout passes pointer moves to its children.
pub const LAYOUT_POINTER: &'static str = "layout_pointer";

/// The listener through which a layout passes button presses to its children.
pub const LAYOUT_BUTTONS: &'static str = "layout_buttons";

/// A container that lays its children out and lets the focus search
/// through them.
pub struct Layout;

impl Layout {
    /// A new layout gadget of 150 by 150, owned by the caller. Its pointer
    /// cell and its pressed-buttons cell are wired, under `LAYOUT_POINTER` and
    /// `LAYOUT_BUTTONS`, to be passed on to its children by `route_pointer`
    /// and `route_button`.
    pub fn create(tree: &mut GadgetTree) -> (g: Gadget)
        requires
            old(tree).wf(),
        ensures
            final(tree).wf(),
            g.id == old(tree)@.len(),
            final(tree)@ == old(tree)@.push(layout_node()),
            final(tree).inner_at(g.id as int).mouse_pos.set_listeners() == seq![LAYOUT_POINTER@],
            final(tree).inner_at(g.id as int).mouse_pos.unset_listeners() == seq![LAYOUT_POINTER@],
            final(tree).inner_at(g.id as int).mouse_pos.change_listeners() == seq![LAYOUT_POINTER@],
            final(tree).inner_at(g.id as int).mouse_down.add_listeners() == seq![LAYOUT_BUTTONS@],
            final(tree).inner_at(g.id as int).mouse_down.remove_listeners() == seq![LAYOUT_BUTTONS@],
    {
        let g = tree.create();
        tree.set_dim(g, IntPair::new(150, 150));
        tree.set_propagate(g, true);
        tree.listen(g, GadgetCell::MousePos, LAYOUT_POINTER);
        tree.listen(g, GadgetCell::MouseDown, LAYOUT_BUTTONS);
        proof {
            assert(tree@ =~= old(tree)@.push(layout_node()));
            let i = tree.inner_at(g.id as int);
            assert(i.mouse_pos.set_listeners() =~= seq![LAYOUT_POINTER@]);
            assert(i.mouse_pos.unset_listeners() =~= seq![LAYOUT_POINTER@]);
            assert(i.mouse_pos.change_listeners() =~= seq![LAYOUT_POINTER@]);
            assert(i.mouse_down.add_listeners() =~= seq![LAYOUT_BUTTONS@]);
            assert(i.mouse_down.remove_listeners() =~= seq![LAYOUT_BUTTONS@]);
        }
        g
    }

    /// Hangs `child` under `parent`; see `GadgetTree::add_child`.
    pub fn add_child(tree: &mut GadgetTree, parent: Gadget, child: Gadget) -> (r: Result<
        (),
        crate::gadget::TreeError,
    >)
        requires
            old(tree).wf(),
        ensures
            final(tree).wf(),
            r == crate::gadget::add_child_result(old(tree)@, parent.id as int, child.id as int),
            r is Ok ==> final(tree)@ == crate::gadget::attached(
                old(tree)@,
                parent.id as int,
                child.id as int,
            ),
            r is Err ==> final(tree)@ == old(tree)@,
            crate::gadget::acyclic(old(tree)@) ==> crate::gadget::acyclic(final(tree)@),
            r is Ok ==> ({
                let pc = old(tree).inner_at(parent.id as int).children;
                final(tree).inner_at(parent.id as int).children.pending() == pc.pending() + fan_out(
                    pc.add_listeners(),
                    pc.add_event(pc.items().len() as int, child),
                )
            }),
            r is Ok ==> ({
                let cp = old(tree).inner_at(child.id as int).parent;
                final(tree).inner_at(child.id as int).parent.pending() == cp.pending() + fan_out(
                    cp.listeners(),
                    cp.event_for(crate::gadget::GadgetParent::Gadget(parent.spec_refer())),
                )
            }),
    {
        tree.add_child(parent, child)
    }

    /// Takes `child` out of `parent`; see `GadgetTree::remove_child`.
    pub fn remove_child(tree: &mut GadgetTree, parent: Gadget, child: Gadget) -> (r: Result<
        (),
        crate::gadget::TreeError,
    >)
        requires
            old(tree).wf(),
        ensures
            final(tree).wf(),
            r == crate::gadget::remove_child_result(old(tree)@, parent.id as int, child.id as int),
            r is Err ==> final(tree)@ == old(tree)@,
            r is Ok && old(tree)@[child.id as int].strong > 1 ==> final(tree)@
                == crate::gadget::with_one_owner_less(
                crate::gadget::detached(old(tree)@, parent.id as int, child.id as int),
                child.id as int,
            ),
            r is Ok && old(tree)@[child.id as int].strong == 1 ==> !crate::gadget::live(
                final(tree)@,
                child.id as int,
            ),
            crate::gadget::acyclic(old(tree)@) ==> crate::gadget::acyclic(final(tree)@),
            r is Ok && live(final(tree)@, parent.id as int) ==> ({
                let pc = old(tree).inner_at(parent.id as int).children;
                final(tree).inner_at(parent.id as int).children.pending() == pc.pending() + fan_out(
                    pc.remove_listeners(),
                    pc.remove_event(crate::state::seq_position(pc.items(), child)->Some_0, child),
                )
            }),
            r is Ok && live(final(tree)@, child.id as int) ==> ({
                let cp = old(tree).inner_at(child.id as int).parent;
                final(tree).inner_at(child.id as int).parent.pending() == cp.pending() + fan_out(
                    cp.listeners(),
                    cp.event_for(crate::gadget::GadgetParent::Detached),
                )
            }),
    {
        tree.remove_child(parent, child)
    }

    /// The pointer moved to `p` over `layout`, or left it (`None`): each
    /// child is `pointed` in turn; other gadgets are untouched.
    pub fn route_pointer(tree: &mut GadgetTree, layout: Gadget, p: Option<IntPair>)
        requires
            old(tree).wf(),
        ensures
            final(tree).wf(),
            routed(old(tree)@, final(tree)@, layout, pointer_step(p)),
    {
        let ghost t = tree@;
        let ghost f = pointer_step(p);
        if !tree.is_live(layout.id) {
            return ;
        }
        let ghost kids = t[layout.id as int].children;
        let nk = match tree.inner(layout) {
            Some(inner) => inner.children.len(),
            None => 0,
        };
        let mut i: usize = 0;
        loop
            invariant
                tree.wf(),
                tree_wf(t),
                t == old(tree)@,
                live(t, layout.id as int),
                kids == t[layout.id as int].children,
                live(tree@, layout.id as int),
                tree@[layout.id as int].children == kids,
                nk == kids.len(),
                f == pointer_step(p),
                routed_prefix(t, tree@, kids, i as int, f),
                i <= kids.len(),
            decreases kids.len() - i,
        {
            let child = match tree.inner(layout) {
                Some(inner) => inner.children.get(i),
                None => None,
            };
            match child {
                Some(c) => {
                    let ghost before = tree@;
                    proof {
                        assert(t[layout.id as int].children.no_duplicates());
                        assert(t[layout.id as int].children[i as int] == c);
                        lemma_routed_step(t, before, kids, i as int, f);
                    }
                    tree.point(c, p);
                    proof {
                        lemma_routed_next(t, before, tree@, kids, i as int, f);
                    }
                    i += 1;
                },
                None => {
                    proof {
                        lemma_routed_done(t, tree@, layout, kids, i as int, f);
                    }
                    return ;
                },
            }
        }
    }

    /// `button` went down (`down`) or up over `layout`: each child under the
    /// pointer records it, as `pressed` says; other gadgets are untouched.
    pub fn route_button(tree: &mut GadgetTree, layout: Gadget, button: MouseButton, down: bool)
        requires
            old(tree).wf(),
        ensures
            final(tree).wf(),
            routed(old(tree)@, final(tree)@, layout, button_step(button, down)),
    {
        let ghost t = tree@;
        let ghost f = button_step(button, down);
        if !tree.is_live(layout.id) {
            return ;
        }
        let ghost kids = t[layout.id as int].children;
        let nk = match tree.inner(layout) {
            Some(inner) => inner.children.len(),
            None => 0,
        };
        let mut i: usize = 0;
        loop
            invariant
                tree.wf(),
                tree_wf(t),
                t == old(tree)@,
                live(t, layout.id as int),
                kids == t[layout.id as int].children,
                live(tree@, layout.id as int),
                tree@[layout.id as int].children == kids,
                nk == kids.len(),
                f == button_step(button, down),
                routed_prefix(t, tree@, kids, i as int, f),
                i <= kids.len(),
            decreases kids.len() - i,
        {
            let child = match tree.inner(layout) {
                Some(inner) => inner.children.get(i),
                None => None,
            };
            match child {
                Some(c) => {
                    let ghost before = tree@;
                    proof {
                        assert(t[layout.id as int].children.no_duplicates());
                        assert(t[layout.id as int].children[i as int] == c);
                        lemma_routed_step(t, before, kids, i as int, f);
                    }
                    tree.press(c, button, down);
                    proof {
                        lemma_routed_next(t, before, tree@, kids, i as int, f);
                    }
                    i += 1;
                },
                None => {
                    proof {
                        lemma_routed_done(t, tree@, layout, kids, i as int, f);
                    }
                    return ;
                },
            }
        }
    }
}

/// What the pointer moving to `p` does to one child.
pub open spec fn pointer_step(p: Option<IntPair>) -> spec_fn(NodeView) -> NodeView {
    |n: NodeView| pointed(n, p)
}

/// What a button going down or up does to one child.
pub open spec fn button_step(button: MouseButton, down: bool) -> spec_fn(NodeView) -> NodeView {
    |n: NodeView| pressed(n, button, down)
}

/// `new` is `old` with `f` applied to each child of `layout` and nothing
/// else changed.
pub open spec fn routed(
    old: Seq<NodeView>,
    new: Seq<NodeView>,
    layout: Gadget,
    f: spec_fn(NodeView) -> NodeView,
) -> bool {
    &&& new.len() == old.len()
    &&& forall|j: int|
        #![trigger new[j]]
        0 <= j < old.len() ==> new[j] == if live(old, layout.id as int) && old[layout.id as int].children.contains(
            Gadget { id: j as usize },
        ) {
            f(old[j])
        } else {
            old[j]
        }
}

/// `new` is `old` with `f` applied to the first `i` of `kids`.
pub open spec fn routed_prefix(
    old: Seq<NodeView>,
    new: Seq<NodeView>,
    kids: Seq<Gadget>,
    i: int,
    f: spec_fn(NodeView) -> NodeView,
) -> bool {
    &&& new.len() == old.len()
    &&& forall|j: int|
        #![trigger new[j]]
        0 <= j < old.len() ==> new[j] == if kids.subrange(0, i).contains(Gadget { id: j as usize }) {
            f(old[j])
        } else {
            old[j]
        }
}

proof fn lemma_routed_step(
    old: Seq<NodeView>,
    cur: Seq<NodeView>,
    kids: Seq<Gadget>,
    i: int,
    f: spec_fn(NodeView) -> NodeView,
)
    requires
        0 <= i < kids.len(),
        kids.no_duplicates(),
        routed_prefix(old, cur, kids, i, f),
        0 <= kids[i].id < old.len(),
    ensures
        cur[kids[i].id as int] == old[kids[i].id as int],
{
    let c = kids[i];
    let s1 = kids.subrange(0, i);
    assert(!s1.contains(c)) by {
        if s1.contains(c) {
            let k = choose|k: int| 0 <= k < s1.len() && s1[k] == c;
            assert(kids[k] == kids[i]);
        }
    }
    assert(cur[c.id as int] == cur[c.id as int]);
}

proof fn lemma_routed_next(
    old: Seq<NodeView>,
    before: Seq<NodeView>,
    after: Seq<NodeView>,
    kids: Seq<Gadget>,
    i: int,
    f: spec_fn(NodeView) -> NodeView,
)
    requires
        0 <= i < kids.len(),
        kids.no_duplicates(),
        old.len() <= usize::MAX,
        0 <= kids[i].id < old.len(),
        routed_prefix(old, before, kids, i, f),
        before[kids[i].id as int] == old[kids[i].id as int],
        after == before.update(kids[i].id as int, f(before[kids[i].id as int])),
    ensures
        routed_prefix(old, after, kids, i + 1, f),
{
    let s1 = kids.subrange(0, i);
    let s2 = kids.subrange(0, i + 1);
    assert forall|j: int| #![trigger after[j]] 0 <= j < old.len() implies after[j] == if s2.contains(
        Gadget { id: j as usize },
    ) {
        f(old[j])
    } else {
        old[j]
    } by {
        let g = Gadget { id: j as usize };
        assert(before[j] == before[j]);
        if s2.contains(g) {
            let k = choose|k: int| 0 <= k < s2.len() && s2[k] == g;
            if k < i {
                assert(s1[k] == g);
            }
        }
        if s1.contains(g) {
            let k = choose|k: int| 0 <= k < s1.len() && s1[k] == g;
            assert(s2[k] == g);
        }
        if j == kids[i].id {
            assert(s2[i] == kids[i]);
        }
    }
}

proof fn lemma_routed_done(
    old: Seq<NodeView>,
    cur: Seq<NodeView>,
    layout: Gadget,
    kids: Seq<Gadget>,
    i: int,
    f: spec_fn(NodeView) -> NodeView,
)
    requires
        live(old, layout.id as int),
        kids == old[layout.id as int].children,
        i == kids.len(),
        routed_prefix(old, cur, kids, i, f),
    ensures
        routed(old, cur, layout, f),
{
    assert(kids.subrange(0, i) =~= kids);
}

} // verus!
