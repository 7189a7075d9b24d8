use caribou::state::OptionalStateEvent;
use caribou::widgets::Button;
use caribou::focus::CaribouFocus;
use caribou::gadget::{Gadget, GadgetCell, GadgetTree, WindowRef};
use caribou::input::Key;
use caribou::widgets::{Layout, Textbox};
use caribou::window::Window;

fn leaf(tree: &mut GadgetTree) -> Gadget {
    let g = tree.create();
    tree.set_propagate(g, false);
    tree.set_accept_focus(g, true);
    g
}

fn focused_flag(tree: &GadgetTree, g: Gadget) -> bool {
    tree.inner(g).unwrap().focused.get()
}

#[test]
fn manual_single_candidate_stays_focused() {
    let mut tree = GadgetTree::new();
    let root = tree.create();
    let a = leaf(&mut tree);
    let mut focus = CaribouFocus::new();
    focus.set_manual_order(Some(vec![a.refer()]));
    for _ in 0..4 {
        focus.cycle(&mut tree, root);
        assert_eq!(focus.current(&tree), Some(a));
        assert!(focused_flag(&tree, a));
    }
}

#[test]
fn automatic_order_visits_children_then_exhausts() {
    let mut tree = GadgetTree::new();
    let root = tree.create();
    let x = leaf(&mut tree);
    let y = leaf(&mut tree);
    tree.add_child(root, x).unwrap();
    tree.add_child(root, y).unwrap();
    let mut focus = CaribouFocus::new();
    focus.cycle(&mut tree, root);
    assert_eq!(focus.current(&tree), Some(x));
    assert!(focused_flag(&tree, x));
    focus.cycle(&mut tree, root);
    assert_eq!(focus.current(&tree), Some(y));
    assert!(!focused_flag(&tree, x));
    assert!(focused_flag(&tree, y));
    focus.cycle(&mut tree, root);
    assert_eq!(focus.current(&tree), None);
    assert_eq!(focus.focused.get(), None);
    assert!(!focused_flag(&tree, y));
    focus.cycle(&mut tree, root);
    assert_eq!(focus.current(&tree), Some(x));
}

#[test]
fn refusal_to_release_halts_cycling() {
    let mut tree = GadgetTree::new();
    let root = tree.create();
    let x = leaf(&mut tree);
    let y = leaf(&mut tree);
    tree.add_child(root, x).unwrap();
    tree.add_child(root, y).unwrap();
    let mut focus = CaribouFocus::new();
    focus.cycle(&mut tree, root);
    tree.set_lock_focus(x, true);
    focus.cycle(&mut tree, root);
    focus.cycle(&mut tree, root);
    assert_eq!(focus.current(&tree), Some(x));
    assert!(focus.focus_locked(&tree));
    assert!(focused_flag(&tree, x));
    assert!(!focused_flag(&tree, y));
}

#[test]
fn search_enters_containers_and_skips_empty_ones() {
    let mut tree = GadgetTree::new();
    let root = Layout::create(&mut tree);
    let empty = Layout::create(&mut tree);
    let group = Layout::create(&mut tree);
    let inner = leaf(&mut tree);
    let after = leaf(&mut tree);
    Layout::add_child(&mut tree, root, empty).unwrap();
    Layout::add_child(&mut tree, root, group).unwrap();
    Layout::add_child(&mut tree, group, inner).unwrap();
    Layout::add_child(&mut tree, root, after).unwrap();
    let mut focus = CaribouFocus::new();
    focus.cycle(&mut tree, root);
    assert_eq!(focus.current(&tree), Some(inner));
    focus.cycle(&mut tree, root);
    assert_eq!(focus.current(&tree), Some(after));
    assert!(focus.is_focused(&tree, after));
    assert!(!focus.is_focused(&tree, inner));
}

#[test]
fn non_propagating_root_gives_no_focus() {
    let mut tree = GadgetTree::new();
    let root = tree.create();
    let x = leaf(&mut tree);
    tree.add_child(root, x).unwrap();
    tree.set_propagate(root, false);
    let mut focus = CaribouFocus::new();
    focus.cycle(&mut tree, root);
    assert_eq!(focus.current(&tree), None);
}

#[test]
fn manual_order_wraps_skips_refusers_and_drops_stale_entries() {
    let mut tree = GadgetTree::new();
    let root = tree.create();
    let a = leaf(&mut tree);
    let b = tree.create();
    let c = leaf(&mut tree);
    let stale = leaf(&mut tree);
    let mut focus = CaribouFocus::new();
    focus.set_manual_order(Some(vec![a.refer(), stale.refer(), b.refer(), c.refer()]));
    assert!(tree.release(stale));
    focus.cycle(&mut tree, root);
    assert_eq!(focus.current(&tree), Some(a));
    assert_eq!(focus.manual_order.as_ref().unwrap().len(), 3);
    focus.cycle(&mut tree, root);
    assert_eq!(focus.current(&tree), Some(c));
    focus.cycle(&mut tree, root);
    assert_eq!(focus.current(&tree), Some(a));
}

#[test]
fn manual_order_without_acceptors_leaves_unfocused() {
    let mut tree = GadgetTree::new();
    let root = tree.create();
    let a = leaf(&mut tree);
    let b = tree.create();
    let mut focus = CaribouFocus::new();
    focus.set_manual_order(Some(vec![a.refer()]));
    focus.cycle(&mut tree, root);
    assert_eq!(focus.current(&tree), Some(a));
    focus.set_manual_order(Some(vec![b.refer()]));
    focus.cycle(&mut tree, root);
    assert_eq!(focus.current(&tree), None);
    assert!(!focused_flag(&tree, a));
    focus.set_manual_order(Some(vec![]));
    focus.cycle(&mut tree, root);
    assert_eq!(focus.current(&tree), None);
}

#[test]
fn focused_gadget_destroyed_counts_as_unfocused() {
    let mut tree = GadgetTree::new();
    let root = tree.create();
    let x = leaf(&mut tree);
    let y = leaf(&mut tree);
    tree.add_child(root, x).unwrap();
    tree.add_child(root, y).unwrap();
    let mut focus = CaribouFocus::new();
    focus.cycle(&mut tree, root);
    focus.cycle(&mut tree, root);
    assert_eq!(focus.current(&tree), Some(y));
    assert!(tree.release(y));
    tree.remove_child(root, y).unwrap();
    assert_eq!(focus.current(&tree), None);
    focus.cycle(&mut tree, root);
    assert_eq!(focus.current(&tree), Some(x));
}

#[test]
fn window_tab_cycles_and_other_keys_reach_the_focused_gadget() {
    let mut tree = GadgetTree::new();
    let root = Layout::create(&mut tree);
    let field = Textbox::create(&mut tree);
    Layout::add_child(&mut tree, root, field).unwrap();
    let mut window = Window::new(&mut tree, WindowRef { id: 1 }, root);
    assert_eq!(field.get_window(&tree), Some(WindowRef { id: 1 }));
    window.on_key_down(&mut tree, Key::A);
    assert!(tree.inner(field).unwrap().key_down.get_vec().is_empty());
    window.on_key_down(&mut tree, Key::Tab);
    assert_eq!(window.cb_focus.current(&tree), Some(field));
    window.on_key_down(&mut tree, Key::B);
    assert_eq!(tree.inner(field).unwrap().key_down.get_vec().clone(), vec![Key::B]);
    window.on_key_up(&mut tree, Key::B);
    assert!(tree.inner(field).unwrap().key_down.get_vec().is_empty());
    assert!(tree.inner(field).unwrap().key_down.get_vec().is_empty());
}

#[test]
fn clear_focus_lowers_the_flag() {
    let mut tree = GadgetTree::new();
    let root = tree.create();
    let x = leaf(&mut tree);
    tree.add_child(root, x).unwrap();
    let mut focus = CaribouFocus::new();
    focus.cycle(&mut tree, root);
    assert!(focus.is_focused(&tree, x));
    focus.clear_focus(&mut tree);
    assert!(!focus.is_focused(&tree, x));
    assert!(!focused_flag(&tree, x));
}

#[test]
fn disabled_button_is_skipped() {
    let mut tree = GadgetTree::new();
    let root = Layout::create(&mut tree);
    let a = Button::create(&mut tree);
    let b = Button::create(&mut tree);
    Layout::add_child(&mut tree, root, a).unwrap();
    Layout::add_child(&mut tree, root, b).unwrap();
    Button::on_enabled(&mut tree, a, false);
    let mut focus = CaribouFocus::new();
    focus.cycle(&mut tree, root);
    assert_eq!(focus.current(&tree), Some(b));
}

#[test]
fn focus_change_is_delivered_to_gadget_listeners() {
    let mut tree = GadgetTree::new();
    let root = tree.create();
    let x = leaf(&mut tree);
    tree.add_child(root, x).unwrap();
    assert!(tree.listen(x, GadgetCell::Focused, "repaint"));
    let mut focus = CaribouFocus::new();
    focus.cycle(&mut tree, root);
    focus.cycle(&mut tree, root);
    let pending = tree.take_pending(x).unwrap();
    let seen: Vec<(String, bool)> =
        pending.focused.iter().map(|n| (n.listener.clone(), n.event.value)).collect();
    assert_eq!(seen, vec![("repaint".to_string(), true), ("repaint".to_string(), false)]);
    assert!(tree.take_pending(x).unwrap().focused.is_empty());
    tree.remove_listener(x, GadgetCell::Focused, "repaint");
    focus.cycle(&mut tree, root);
    assert!(tree.take_pending(x).unwrap().focused.is_empty());
}

#[test]
fn window_focus_requires_the_gadget_to_be_in_the_window() {
    let mut tree = GadgetTree::new();
    let root = Layout::create(&mut tree);
    let field = Textbox::create(&mut tree);
    Layout::add_child(&mut tree, root, field).unwrap();
    let mut window = Window::new(&mut tree, WindowRef { id: 3 }, root);
    window.on_key_down(&mut tree, Key::Tab);
    assert!(window.is_focused(&tree, field));
    assert!(field.is_focused(&tree, &window));
    assert!(tree.retain(field));
    Layout::remove_child(&mut tree, root, field).unwrap();
    assert_eq!(window.cb_focus.current(&tree), Some(field));
    assert!(!window.is_focused(&tree, field));
    assert!(!field.is_focused(&tree, &window));
}

#[test]
fn cycle_reports_focus_changes_on_the_tracker_cell() {
    let mut tree = GadgetTree::new();
    let root = tree.create();
    let x = leaf(&mut tree);
    tree.add_child(root, x).unwrap();
    let mut focus = CaribouFocus::new();
    focus.focused.listen_set("s");
    focus.focused.listen_unset("u");
    focus.cycle(&mut tree, root);
    tree.set_lock_focus(x, true);
    focus.cycle(&mut tree, root);
    tree.set_lock_focus(x, false);
    focus.cycle(&mut tree, root);
    let kinds: Vec<&str> = focus
        .focused
        .take_pending()
        .iter()
        .map(|n| match n.event {
            OptionalStateEvent::Put(_) => "set",
            OptionalStateEvent::Unset(_) => "unset",
            OptionalStateEvent::Change(_) => "change",
        })
        .collect();
    assert_eq!(kinds, vec!["set", "unset"]);
}
