use vstd::prelude::*;
use crate::focus::{cycle_next, holder, ref_of, refocused, refuses_release, CaribouFocus};
use crate::gadget::{
    acyclic, live, rooted, unrooted, window_of, Gadget, GadgetParent, GadgetRef, GadgetTree,
    NodeView, WindowRef,
};
use crate::input::{Key, MouseButton};
use crate::math::IntPair;
use crate::state::{fan_out, seq_position, OptionalState, State, StateVec};

verus! {

/// A backend window that can be asked to draw again.
pub trait WindowImpl {
    fn request_redraw(&self);
}

/// Asks the backend window registered under `env_id` to redraw; `false`
/// if there is none.
pub fn skia_request_redraw<W: WindowImpl>(registry: &Vec<W>, env_id: usize) -> (r: bool)
    ensures
        r == (env_id < registry@.len()),
{
    if env_id < registry.len() {
        registry[env_id].request_redraw();
        true
    } else {
        false
    }
}

/// A top-level window: its input cells, its root gadget and its focus
/// tracker.
pub struct Window {
    pub id: WindowRef,
    pub title: State<&'static str>,
    pub pos: State<IntPair>,
    pub dim: State<IntPair>,
    pub root: State<Gadget>,
    pub mouse_down: StateVec<MouseButton>,
    pub mouse_pos: OptionalState<IntPair>,
    pub key_down: StateVec<Key>,
    pub cb_focus: CaribouFocus,
}

/// Names of the listeners that a window wires on its own cells.
pub const FOCUS_LISTENER: &'static str = "cb_focus";
pub const MOUSE_DOWN_ADD: &'static str = "mouse_down_add_sync";
pub const MOUSE_DOWN_REMOVE: &'static str = "mouse_down_remove_sync";
pub const MOUSE_POS_SET: &'static str = "mouse_pos_set_sync";
pub const MOUSE_POS_UNSET: &'static str = "mouse_pos_unset_sync";
pub const MOUSE_POS_CHANGE: &'static str = "mouse_pos_change_sync";
pub const ROOT_SWITCH: &'static str = "root_switch";

impl Window {
    pub fn refer(&self) -> (r: WindowRef)
        ensures
            r == self.id,
    {
        self.id
    }

    /// A window `id` titled "Caribou", of 800 by 600 at the origin, showing
    /// `root`. The window's input cells are wired to be mirrored into the
    /// root and, for keys, into the focused gadget. The root is made to hang
    /// from the window only if it was detached: a root that already hangs
    /// from a gadget or another window keeps its parent.
    pub fn new(tree: &mut GadgetTree, id: WindowRef, root: Gadget) -> (w: Window)
        requires
            old(tree).wf(),
        ensures
            final(tree).wf(),
            w.id == id,
            w.title.value()@ == "Caribou"@,
            w.root.value() == root,
            w.pos.value() == (IntPair { x: 0, y: 0 }),
            w.dim.value() == (IntPair { x: 800, y: 600 }),
            w.mouse_down.items().len() == 0,
            w.key_down.items().len() == 0,
            w.mouse_pos.value() is None,
            w.cb_focus.window_ref == Some(id),
            w.cb_focus.focused.value() is None,
            w.cb_focus.manual() is None,
            w.key_down.add_listeners() == (seq![FOCUS_LISTENER@]),
            w.key_down.remove_listeners() == (seq![FOCUS_LISTENER@]),
            w.mouse_down.add_listeners() == (seq![MOUSE_DOWN_ADD@]),
            w.mouse_down.remove_listeners() == (seq![MOUSE_DOWN_REMOVE@]),
            w.mouse_pos.set_listeners() == (seq![MOUSE_POS_SET@]),
            w.mouse_pos.unset_listeners() == (seq![MOUSE_POS_UNSET@]),
            w.mouse_pos.change_listeners() == (seq![MOUSE_POS_CHANGE@]),
            w.root.listeners() == (seq![ROOT_SWITCH@]),
            live(old(tree)@, root.id as int) && old(tree)@[root.id as int].parent
                == GadgetParent::Detached ==> final(tree)@ == old(tree)@.update(
                root.id as int,
                (NodeView { parent: GadgetParent::Window(id), ..old(tree)@[root.id as int] }),
            ),
            !(live(old(tree)@, root.id as int) && old(tree)@[root.id as int].parent
                == GadgetParent::Detached) ==> final(tree)@ == old(tree)@,
            final(tree)@ == rooted(old(tree)@, root, id),
            crate::gadget::acyclic(old(tree)@) ==> crate::gadget::acyclic(final(tree)@),
    {
        let none = GadgetRef::dangling();
        let mut w = Window {
            id,
            title: State::new(none, "Caribou"),
            pos: State::new(none, IntPair::new(0, 0)),
            dim: State::new(none, IntPair::new(800, 600)),
            root: State::new(none, root),
            mouse_down: StateVec::new(none),
            mouse_pos: OptionalState::new_empty(none),
            key_down: StateVec::new(none),
            cb_focus: CaribouFocus::new(),
        };
        w.cb_focus.attach(id);
        w.key_down.listen_add(FOCUS_LISTENER);
        w.key_down.listen_remove(FOCUS_LISTENER);
        w.mouse_down.listen_add(MOUSE_DOWN_ADD);
        w.mouse_down.listen_remove(MOUSE_DOWN_REMOVE);
        w.mouse_pos.listen_set(MOUSE_POS_SET);
        w.mouse_pos.listen_unset(MOUSE_POS_UNSET);
        w.mouse_pos.listen_change(MOUSE_POS_CHANGE);
        w.root.listen(ROOT_SWITCH);
        tree.attach_to_window(root, id);
        proof {
            assert(w.key_down.add_listeners() =~= seq![FOCUS_LISTENER@]);
            assert(w.key_down.remove_listeners() =~= seq![FOCUS_LISTENER@]);
            assert(w.mouse_down.add_listeners() =~= seq![MOUSE_DOWN_ADD@]);
            assert(w.mouse_down.remove_listeners() =~= seq![MOUSE_DOWN_REMOVE@]);
            assert(w.mouse_pos.set_listeners() =~= seq![MOUSE_POS_SET@]);
            assert(w.mouse_pos.unset_listeners() =~= seq![MOUSE_POS_UNSET@]);
            assert(w.mouse_pos.change_listeners() =~= seq![MOUSE_POS_CHANGE@]);
            assert(w.root.listeners() =~= seq![ROOT_SWITCH@]);
        }
        w
    }

    /// A key went down on the window: Tab moves focus on; any other key is
    /// recorded as held on the focused gadget, if there is one.
    pub fn on_key_down(&mut self, tree: &mut GadgetTree, key: Key)
        requires
            old(tree).wf(),
        ensures
            final(tree).wf(),
            key == Key::Tab && refuses_release(old(tree)@, old(self).cb_focus.focused.value())
                ==> final(tree)@ == old(tree)@ && final(self).cb_focus.focused.value() == old(
                self,
            ).cb_focus.focused.value(),
            key == Key::Tab && !refuses_release(old(tree)@, old(self).cb_focus.focused.value())
                ==> {
                let t = old(tree)@;
                let f = old(self).cb_focus.focused.value();
                let next = cycle_next(t, f, old(self).cb_focus.manual(), old(self).root.value());
                &&& final(self).cb_focus.focused.value() == ref_of(next)
                &&& final(tree)@ == refocused(t, holder(t, f), next)
            },
            key != Key::Tab ==> final(self).cb_focus.focused.value() == old(
                self,
            ).cb_focus.focused.value(),
            key != Key::Tab ==> match holder(old(tree)@, old(self).cb_focus.focused.value()) {
                Some(g) => final(tree)@ == old(tree)@.update(
                    g.id as int,
                    (NodeView {
                        key_down: old(tree)@[g.id as int].key_down.push(key),
                        ..old(tree)@[g.id as int]
                    }),
                ),
                None => final(tree)@ == old(tree)@,
            },
    {
        if key == Key::Tab {
            let root = self.root.get();
            self.cb_focus.cycle(tree, root);
        } else {
            match self.cb_focus.current(tree) {
                Some(g) => tree.press_key(g, key),
                None => {},
            }
        }
    }

    /// A key came up on the window: any key but Tab stops being held on the
    /// focused gadget, if there is one.
    pub fn on_key_up(&mut self, tree: &mut GadgetTree, key: Key)
        requires
            old(tree).wf(),
        ensures
            final(tree).wf(),
            final(self).cb_focus.focused.value() == old(self).cb_focus.focused.value(),
            key == Key::Tab ==> final(tree)@ == old(tree)@,
            key != Key::Tab ==> match holder(old(tree)@, old(self).cb_focus.focused.value()) {
                Some(g) => final(tree)@ == old(tree)@.update(
                    g.id as int,
                    (NodeView {
                        key_down: match seq_position(old(tree)@[g.id as int].key_down, key) {
                            Some(i) => old(tree)@[g.id as int].key_down.remove(i),
                            None => old(tree)@[g.id as int].key_down,
                        },
                        ..old(tree)@[g.id as int]
                    }),
                ),
                None => final(tree)@ == old(tree)@,
            },
    {
        if key != Key::Tab {
            match self.cb_focus.current(tree) {
                Some(g) => tree.release_key(g, key),
                None => {},
            }
        }
    }

    /// A button went down on the window: the root records it as pressed.
    pub fn on_mouse_down(&self, tree: &mut GadgetTree, button: MouseButton)
        requires
            old(tree).wf(),
        ensures
            final(tree).wf(),
            ({
                let g = self.root.value();
                live(old(tree)@, g.id as int) ==> final(tree)@ == old(tree)@.update(
                    g.id as int,
                    (NodeView {
                        mouse_down: old(tree)@[g.id as int].mouse_down.push(button),
                        ..old(tree)@[g.id as int]
                    }),
                )
            }),
            !live(old(tree)@, self.root.value().id as int) ==> final(tree)@ == old(tree)@,
    {
        tree.press_button(self.root.get(), button);
    }

    /// A button came up on the window: the root drops it from its pressed
    /// buttons.
    pub fn on_mouse_up(&self, tree: &mut GadgetTree, button: MouseButton)
        requires
            old(tree).wf(),
        ensures
            final(tree).wf(),
            ({
                let g = self.root.value();
                live(old(tree)@, g.id as int) ==> final(tree)@ == old(tree)@.update(
                    g.id as int,
                    (NodeView {
                        mouse_down: match seq_position(old(tree)@[g.id as int].mouse_down, button) {
                            Some(i) => old(tree)@[g.id as int].mouse_down.remove(i),
                            None => old(tree)@[g.id as int].mouse_down,
                        },
                        ..old(tree)@[g.id as int]
                    }),
                )
            }),
            !live(old(tree)@, self.root.value().id as int) ==> final(tree)@ == old(tree)@,
    {
        tree.release_button(self.root.get(), button);
    }

    /// The pointer moved over the window, entered it or left it: the root's
    /// pointer position follows.
    pub fn on_mouse_pos(&self, tree: &mut GadgetTree, pos: Option<IntPair>)
        requires
            old(tree).wf(),
        ensures
            final(tree).wf(),
            ({
                let g = self.root.value();
                live(old(tree)@, g.id as int) ==> final(tree)@ == old(tree)@.update(
                    g.id as int,
                    (NodeView { mouse_pos: pos, ..old(tree)@[g.id as int] }),
                )
            }),
            !live(old(tree)@, self.root.value().id as int) ==> final(tree)@ == old(tree)@,
    {
        tree.set_mouse_pos(self.root.get(), pos);
    }

    /// Shows `root` in place of the current root: the old root stops hanging
    /// from the window, the new one starts to if it was detached, and the root
    /// cell reports the switch to its listeners.
    pub fn set_root(&mut self, tree: &mut GadgetTree, root: Gadget)
        requires
            old(tree).wf(),
        ensures
            final(tree).wf(),
            acyclic(old(tree)@) ==> acyclic(final(tree)@),
            final(tree)@ == rooted(unrooted(old(tree)@, old(self).root.value(), old(self).id), root, old(self).id),
            final(self).id == old(self).id,
            final(self).root.value() == root,
            final(self).root.listeners() == old(self).root.listeners(),
            final(self).root.pending() == old(self).root.pending() + fan_out(
                old(self).root.listeners(),
                old(self).root.event_for(root),
            ),
    {
        let previous = self.root.get();
        tree.detach_from_window(previous, self.id);
        self.root.set(root);
        tree.attach_to_window(root, self.id);
    }

    /// Whether `g` holds focus in this window: its parents lead up to this
    /// window, and the window's tracker names it.
    pub fn is_focused(&self, tree: &GadgetTree, g: Gadget) -> (r: bool)
        ensures
            r == (window_of(tree@, g.id as int, tree@.len()) == Some(self.id) && holder(
                tree@,
                self.cb_focus.focused.value(),
            ) == Some(g)),
    {
        match g.get_window(tree) {
            Some(w) => w == self.id && self.cb_focus.is_focused(tree, g),
            None => false,
        }
    }
}

impl Gadget {
    /// Whether this gadget holds focus in `window`: its parents lead up to
    /// that window and the window's tracker names it; false for a gadget
    /// that hangs from no window.
    pub fn is_focused(&self, tree: &GadgetTree, window: &Window) -> (r: bool)
        ensures
            r == (window_of(tree@, self.id as int, tree@.len()) == Some(window.id) && holder(
                tree@,
                window.cb_focus.focused.value(),
            ) == Some(*self)),
    {
        window.is_focused(tree, *self)
    }
}

} // verus!
