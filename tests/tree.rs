use caribou::gadget::{GadgetParent, GadgetTree, TreeError, WindowRef};

#[test]
fn reference_resolves_until_last_owner_drops() {
    let mut tree = GadgetTree::new();
    let g = tree.create();
    let r = g.refer();
    assert_eq!(r.get(&tree), Some(g));
    assert!(tree.retain(g));
    assert!(tree.release(g));
    assert_eq!(r.get(&tree), Some(g));
    assert!(tree.release(g));
    assert_eq!(r.get(&tree), None);
    assert!(!tree.release(g));
    assert_eq!(tree.strong_count(g), 0);
}

#[test]
fn dangling_reference_resolves_to_nothing() {
    let tree = GadgetTree::new();
    assert_eq!(caribou::gadget::GadgetRef::dangling().get(&tree), None);
}

#[test]
fn add_child_links_both_sides() {
    let mut tree = GadgetTree::new();
    let p = tree.create();
    let c = tree.create();
    assert_eq!(tree.add_child(p, c), Ok(()));
    let pi = tree.inner(p).unwrap();
    assert_eq!(pi.children.get_vec().clone(), vec![c]);
    assert_eq!(tree.inner(c).unwrap().parent.get(), GadgetParent::Gadget(p.refer()));
    assert_eq!(tree.strong_count(c), 2);
}

#[test]
fn add_then_remove_restores_both_sides() {
    let mut tree = GadgetTree::new();
    let p = tree.create();
    let other = tree.create();
    let c = tree.create();
    tree.add_child(p, other).unwrap();
    tree.add_child(p, c).unwrap();
    tree.remove_child(p, c).unwrap();
    assert_eq!(tree.inner(p).unwrap().children.get_vec().clone(), vec![other]);
    assert_eq!(tree.inner(c).unwrap().parent.get(), GadgetParent::Detached);
    assert_eq!(tree.strong_count(c), 1);
}

#[test]
fn add_child_errors() {
    let mut tree = GadgetTree::new();
    let a = tree.create();
    let b = tree.create();
    let c = tree.create();
    assert_eq!(tree.add_child(a, a), Err(TreeError::WouldCycle));
    tree.add_child(a, b).unwrap();
    assert_eq!(tree.add_child(c, b), Err(TreeError::AlreadyAttached));
    assert_eq!(tree.add_child(b, a), Err(TreeError::WouldCycle));
    let gone = tree.create();
    assert!(tree.release(gone));
    assert_eq!(tree.add_child(a, gone), Err(TreeError::Gone));
}

#[test]
fn remove_child_of_another_parent_is_refused() {
    let mut tree = GadgetTree::new();
    let a = tree.create();
    let b = tree.create();
    let c = tree.create();
    tree.add_child(a, c).unwrap();
    assert_eq!(tree.remove_child(b, c), Err(TreeError::NotAChild));
    assert_eq!(tree.inner(c).unwrap().parent.get(), GadgetParent::Gadget(a.refer()));
}

#[test]
fn removing_an_unowned_child_destroys_it() {
    let mut tree = GadgetTree::new();
    let p = tree.create();
    let c = tree.create();
    tree.add_child(p, c).unwrap();
    let r = c.refer();
    assert!(tree.release(c));
    assert!(!tree.release(c));
    assert_eq!(tree.strong_count(c), 1);
    tree.remove_child(p, c).unwrap();
    assert_eq!(r.get(&tree), None);
}

#[test]
fn destroying_a_parent_destroys_children_without_other_owners() {
    let mut tree = GadgetTree::new();
    let p = tree.create();
    let kept = tree.create();
    let dropped = tree.create();
    let grandchild = tree.create();
    tree.add_child(p, kept).unwrap();
    tree.add_child(p, dropped).unwrap();
    tree.add_child(dropped, grandchild).unwrap();
    assert!(tree.release(dropped));
    assert!(tree.release(grandchild));
    assert!(tree.release(p));
    assert!(!tree.is_live(p.id));
    assert!(!tree.is_live(dropped.id));
    assert!(!tree.is_live(grandchild.id));
    assert!(tree.is_live(kept.id));
    assert_eq!(tree.strong_count(kept), 1);
}

#[test]
fn window_found_through_parents() {
    let mut tree = GadgetTree::new();
    let root = tree.create();
    let mid = tree.create();
    let leaf = tree.create();
    tree.add_child(root, mid).unwrap();
    tree.add_child(mid, leaf).unwrap();
    assert_eq!(leaf.get_window(&tree), None);
    assert!(tree.attach_to_window(root, WindowRef { id: 4 }));
    assert_eq!(leaf.get_window(&tree), Some(WindowRef { id: 4 }));
    assert!(!tree.attach_to_window(root, WindowRef { id: 5 }));
}

#[test]
fn new_gadget_has_default_flags() {
    let mut tree = GadgetTree::new();
    let g = tree.create();
    let i = tree.inner(g).unwrap();
    assert!(i.enabled.get());
    assert!(i.propagate.get());
    assert!(!i.accept_focus.get());
    assert!(!i.lock_focus.get());
    assert!(!i.focused.get());
    assert_eq!(i.parent.get(), GadgetParent::Detached);
    assert_eq!(tree.len(), 1);
}
