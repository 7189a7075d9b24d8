use caribou::widgets::{Layout, LAYOUT_BUTTONS, LAYOUT_POINTER};
use std::cell::Cell;
use std::time::Duration;
use caribou::gadget::{GadgetParent, GadgetRef, GadgetTree, WindowRef};
use caribou::input::{Key, Modifier, Modifier2, MouseButton};
use caribou::widgets::{ButtonInput, ButtonState};
use caribou::math::IntPair;
use caribou::schedule::ScheduleResult;
use caribou::text::{FontFamily, Platform};
use caribou::window::{skia_request_redraw, Window, WindowImpl};

#[test]
fn int_pair_arithmetic() {
    let a = IntPair::new(3, -4);
    let b = IntPair::new(1, 2);
    assert_eq!(a.add(&b), IntPair { x: 4, y: -2 });
    assert_eq!(a.sub(&b), IntPair { x: 2, y: -6 });
    assert_eq!(a.times(3), IntPair { x: 9, y: -12 });
}

#[test]
fn font_families_per_platform() {
    assert_eq!(FontFamily::ui(Platform::Windows), "Segoe UI");
    assert_eq!(FontFamily::ui(Platform::MacOs), "Helvetica");
    assert_eq!(FontFamily::ui(Platform::Linux), "Noto Sans");
    assert_eq!(FontFamily::ui_cjk(Platform::Windows), "Microsoft YaHei");
    assert_eq!(FontFamily::ui_cjk(Platform::MacOs), "PingFang SC");
    assert_eq!(FontFamily::ui_cjk(Platform::Linux), "Noto Sans CJK SC");
}

#[test]
fn schedule_next_delay() {
    let d = Duration::from_millis(5);
    assert_eq!(ScheduleResult::Repeat.next_delay(d), Some(d));
    let e = Duration::from_secs(2);
    assert_eq!(ScheduleResult::RepeatAfter(e).next_delay(d), Some(e));
    assert_eq!(ScheduleResult::Break.next_delay(d), None);
}

struct Counter<'a> {
    hits: &'a Cell<u32>,
}

impl<'a> WindowImpl for Counter<'a> {
    fn request_redraw(&self) {
        self.hits.set(self.hits.get() + 1);
    }
}

#[test]
fn redraw_request_reaches_registered_window_only() {
    let hits = Cell::new(0);
    let registry = vec![Counter { hits: &hits }];
    assert!(skia_request_redraw(&registry, 0));
    assert!(!skia_request_redraw(&registry, 1));
    assert_eq!(hits.get(), 1);
}

#[test]
fn modifier_bits() {
    let m = Modifier2::empty().with(Modifier::Shift).with(Modifier::Alt);
    assert_eq!(m.bits, 5);
    assert!(m.contains(Modifier::Alt));
    assert!(!m.contains(Modifier::Meta));
}

#[test]
fn window_mirrors_pointer_into_root() {
    let mut tree = GadgetTree::new();
    let root = tree.create();
    let window = Window::new(&mut tree, WindowRef { id: 2 }, root);
    assert_eq!(window.dim.get(), IntPair { x: 800, y: 600 });
    window.on_mouse_down(&mut tree, MouseButton::Primary);
    window.on_mouse_pos(&mut tree, Some(IntPair::new(5, 6)));
    let inner = tree.inner(root).unwrap();
    assert_eq!(inner.mouse_down.get_vec().clone(), vec![MouseButton::Primary]);
    assert_eq!(inner.mouse_pos.get(), Some(IntPair::new(5, 6)));
    window.on_mouse_up(&mut tree, MouseButton::Primary);
    window.on_mouse_pos(&mut tree, None);
    let inner = tree.inner(root).unwrap();
    assert!(inner.mouse_down.get_vec().is_empty());
    assert_eq!(inner.mouse_pos.get(), None);
}

#[test]
fn layout_routes_pointer_and_buttons_to_hit_child() {
    let mut tree = GadgetTree::new();
    let layout = Layout::create(&mut tree);
    let left = tree.create();
    let right = tree.create();
    tree.set_pos(left, IntPair::new(0, 0));
    tree.set_dim(left, IntPair::new(10, 10));
    tree.set_pos(right, IntPair::new(20, 0));
    tree.set_dim(right, IntPair::new(10, 10));
    Layout::add_child(&mut tree, layout, left).unwrap();
    Layout::add_child(&mut tree, layout, right).unwrap();

    Layout::route_pointer(&mut tree, layout, Some(IntPair::new(25, 4)));
    assert_eq!(tree.inner(right).unwrap().mouse_pos.get(), Some(IntPair::new(5, 4)));
    assert_eq!(tree.inner(left).unwrap().mouse_pos.get(), None);

    Layout::route_button(&mut tree, layout, MouseButton::Secondary, true);
    assert_eq!(tree.inner(right).unwrap().mouse_down.get_vec().clone(), vec![MouseButton::Secondary]);
    assert!(tree.inner(left).unwrap().mouse_down.get_vec().is_empty());

    Layout::route_pointer(&mut tree, layout, Some(IntPair::new(10, 10)));
    assert_eq!(tree.inner(left).unwrap().mouse_pos.get(), Some(IntPair::new(10, 10)));
    assert_eq!(tree.inner(right).unwrap().mouse_pos.get(), None);
    assert!(tree.inner(right).unwrap().mouse_down.get_vec().is_empty());

    Layout::route_button(&mut tree, layout, MouseButton::Primary, true);
    Layout::route_button(&mut tree, layout, MouseButton::Primary, false);
    assert!(tree.inner(left).unwrap().mouse_down.get_vec().is_empty());

    Layout::route_pointer(&mut tree, layout, None);
    assert_eq!(tree.inner(left).unwrap().mouse_pos.get(), None);
}

#[test]
fn button_state_follows_pointer_buttons_and_return() {
    let s = ButtonState::Normal;
    let s = s.next(ButtonInput::PointerEnter, true, false);
    assert_eq!(s, ButtonState::Hover);
    assert_eq!(s.next(ButtonInput::ButtonDown(MouseButton::Secondary), true, false), ButtonState::Hover);
    let s = s.next(ButtonInput::ButtonDown(MouseButton::Primary), true, true);
    assert_eq!(s, ButtonState::Pressed);
    assert_eq!(s.next(ButtonInput::KeyUp(Key::Return), true, true), ButtonState::Pressed);
    let s = s.next(ButtonInput::ButtonUp(MouseButton::Primary), true, false);
    assert_eq!(s, ButtonState::Hover);
    let s = s.next(ButtonInput::KeyDown(Key::Return), true, false);
    assert_eq!(s, ButtonState::Pressed);
    assert_eq!(s.next(ButtonInput::KeyUp(Key::Return), true, false), ButtonState::Hover);
    assert_eq!(s.next(ButtonInput::KeyUp(Key::Return), false, false), ButtonState::Normal);
    assert_eq!(s.next(ButtonInput::KeyUp(Key::A), false, false), ButtonState::Pressed);
    assert_eq!(s.next(ButtonInput::PointerLeave, false, false), ButtonState::Normal);
}

#[test]
fn layout_is_sized_and_wired_for_routing() {
    let mut tree = GadgetTree::new();
    let layout = Layout::create(&mut tree);
    assert_eq!(tree.inner(layout).unwrap().dim.get(), IntPair::new(150, 150));
    let window = Window::new(&mut tree, WindowRef { id: 7 }, layout);
    assert_eq!(window.title.get(), "Caribou");
    window.on_mouse_pos(&mut tree, Some(IntPair::new(1, 2)));
    let pending = tree.take_pending(layout).unwrap();
    assert_eq!(pending.mouse_pos.len(), 1);
    assert_eq!(pending.mouse_pos[0].listener, LAYOUT_POINTER);
    window.on_mouse_down(&mut tree, MouseButton::Primary);
    let pending = tree.take_pending(layout).unwrap();
    assert_eq!(pending.mouse_down.len(), 1);
    assert_eq!(pending.mouse_down[0].listener, LAYOUT_BUTTONS);
}

#[test]
fn switching_root_rehangs_the_window() {
    let mut tree = GadgetTree::new();
    let first = tree.create();
    let second = tree.create();
    let mut window = Window::new(&mut tree, WindowRef { id: 9 }, first);
    window.root.listen("root_watch");
    window.set_root(&mut tree, second);
    assert_eq!(window.root.get(), second);
    assert_eq!(tree.inner(first).unwrap().parent.get(), GadgetParent::Detached);
    assert_eq!(tree.inner(second).unwrap().parent.get(), GadgetParent::Window(WindowRef { id: 9 }));
    let queue = window.root.take_pending();
    assert_eq!(queue.len(), 2);
    assert_eq!(queue[1].event.value, second);
}

#[test]
fn map_set_then_lookup_gives_new_value() {
    let mut map: caribou::state::StateMap<u32, u8> = caribou::state::StateMap::new(GadgetRef::dangling());
    map.set(1, 10);
    map.set(2, 20);
    map.set(1, 11);
    assert_eq!(map.get(&1), Some(11));
    assert_eq!(map.get(&2), Some(20));
    assert_eq!(map.len(), 2);
}
