use caribou::state::StateMap;
use caribou::gadget::GadgetRef;
use caribou::input::Key;
use caribou::state::{OptionalState, OptionalStateEvent, State, StateError, StateVec, StateVecEvent};

fn owner() -> GadgetRef {
    GadgetRef { id: Some(3) }
}

#[test]
fn set_schedules_one_delivery_per_listener() {
    let mut cell = State::new(owner(), 1u32);
    assert!(cell.listen("layout"));
    assert!(cell.listen("paint"));
    cell.set(7);
    assert_eq!(cell.get(), 7);
    let queue = cell.take_pending();
    assert_eq!(queue.len(), 2);
    assert_eq!(queue[0].listener, "layout");
    assert_eq!(queue[1].listener, "paint");
    assert_eq!(queue[0].event.value, 7);
    assert_eq!(queue[1].event.value, 7);
    assert_eq!(queue[0].event.gadget, owner());
    assert!(cell.take_pending().is_empty());
}

#[test]
fn sets_are_delivered_in_program_order() {
    let mut cell = State::new(owner(), 0i64);
    cell.listen("watcher");
    cell.set(1);
    cell.set(2);
    cell.set(3);
    let values: Vec<i64> = cell.take_pending().iter().map(|n| n.event.value).collect();
    assert_eq!(values, vec![1, 2, 3]);
}

#[test]
fn set_without_listeners_schedules_nothing() {
    let mut cell = State::new(owner(), false);
    cell.set(true);
    assert!(cell.get_cloned());
    assert!(cell.take_pending().is_empty());
}

#[test]
fn listening_twice_under_one_name_keeps_one_entry() {
    let mut cell = State::new(owner(), 0u8);
    assert!(cell.listen("a"));
    assert!(!cell.listen("a"));
    cell.set(4);
    assert_eq!(cell.take_pending().len(), 1);
}

#[test]
fn removing_a_listener_stops_its_deliveries() {
    let mut cell = State::new(owner(), 0u8);
    cell.listen("a");
    cell.listen("b");
    cell.remove_listener("a");
    cell.remove_listener("missing");
    cell.set(9);
    let queue = cell.take_pending();
    assert_eq!(queue.len(), 1);
    assert_eq!(queue[0].listener, "b");
}

#[test]
fn optional_cell_reports_set_change_and_unset() {
    let mut cell: OptionalState<u32> = OptionalState::new_empty(owner());
    cell.listen_set("s");
    cell.listen_unset("u");
    cell.listen_change("c");
    cell.put(5);
    cell.put(6);
    assert_eq!(cell.take(), Some(6));
    assert!(!cell.is_set());
    assert_eq!(cell.take(), None);
    cell.set(None);
    let queue = cell.take_pending();
    assert_eq!(queue.len(), 3);
    assert_eq!(queue[0].listener, "s");
    match queue[0].event {
        OptionalStateEvent::Put(e) => assert_eq!(e.value, 5),
        _ => panic!("expected a set event"),
    }
    assert_eq!(queue[1].listener, "c");
    match queue[1].event {
        OptionalStateEvent::Change(e) => {
            assert_eq!(e.last_value, 5);
            assert_eq!(e.new_value, 6);
        }
        _ => panic!("expected a change event"),
    }
    assert_eq!(queue[2].listener, "u");
    match queue[2].event {
        OptionalStateEvent::Unset(e) => assert_eq!(e.last_value, 6),
        _ => panic!("expected an unset event"),
    }
}

#[test]
fn push_reports_index_of_old_length() {
    let mut list = StateVec::new(owner());
    list.listen_add("a");
    list.push(Key::A);
    list.push(Key::B);
    let queue = list.take_pending();
    assert_eq!(queue.len(), 2);
    match queue[1].event {
        StateVecEvent::Add(e) => {
            assert_eq!(e.index, 1);
            assert_eq!(e.new_value, Key::B);
        }
        _ => panic!("expected an add event"),
    }
}

#[test]
fn remove_at_reports_value_and_index() {
    let mut list = StateVec::new(owner());
    list.push(10u32);
    list.push(20u32);
    list.push(30u32);
    list.listen_remove("r");
    assert_eq!(list.remove_at(1), Ok(20));
    assert_eq!(list.get_vec().clone(), vec![10, 30]);
    let queue = list.take_pending();
    assert_eq!(queue.len(), 1);
    match queue[0].event {
        StateVecEvent::Remove(e) => {
            assert_eq!(e.old_index, 1);
            assert_eq!(e.old_value, 20);
        }
        _ => panic!("expected a remove event"),
    }
}

#[test]
fn remove_at_out_of_range_is_an_error_without_events() {
    let mut list = StateVec::new(owner());
    list.listen_remove("r");
    list.push(1u8);
    assert_eq!(list.remove_at(1), Err(StateError::IndexOutOfRange));
    assert_eq!(list.len(), 1);
    assert!(list.take_pending().is_empty());
}

#[test]
fn remove_by_value_missing_is_not_found() {
    let mut list = StateVec::new(owner());
    list.listen_remove("r");
    list.push(Key::Tab);
    assert_eq!(list.remove(&Key::A), Err(StateError::NotFound));
    assert!(list.take_pending().is_empty());
    assert_eq!(list.remove(&Key::Tab), Ok(Key::Tab));
    assert_eq!(list.take_pending().len(), 1);
}

#[test]
fn set_at_index_reports_old_and_new() {
    let mut list = StateVec::new(owner());
    list.listen_set("s");
    list.push(1u16);
    assert_eq!(list.set(0, 2), 1);
    assert_eq!(list.get(0), Some(2));
    assert_eq!(list.get(1), None);
    let queue = list.take_pending();
    match queue[0].event {
        StateVecEvent::Update(e) => {
            assert_eq!(e.index, 0);
            assert_eq!(e.old_value, 1);
            assert_eq!(e.new_value, 2);
        }
        _ => panic!("expected a set event"),
    }
}

#[test]
fn pop_and_clear_remove_from_the_back() {
    let mut list = StateVec::new(owner());
    list.push(1u8);
    list.push(2u8);
    list.push(3u8);
    list.listen_remove("r");
    assert_eq!(list.pop(), Some(3));
    list.clear();
    assert_eq!(list.len(), 0);
    assert_eq!(list.pop(), None);
    let removed: Vec<(usize, u8)> = list
        .take_pending()
        .iter()
        .map(|n| match n.event {
            StateVecEvent::Remove(e) => (e.old_index, e.old_value),
            _ => panic!("expected remove events only"),
        })
        .collect();
    assert_eq!(removed, vec![(2, 3), (1, 2), (0, 1)]);
}

#[test]
fn map_cell_reports_insert_update_and_remove() {
    let mut map: StateMap<u64, i32> = StateMap::new(owner());
    map.listen("m");
    map.set(7, 1);
    map.set(7, 2);
    map.set(9, 3);
    assert_eq!(map.get(&7), Some(2));
    assert_eq!(map.len(), 2);
    assert_eq!(map.remove(&7), Ok(2));
    assert_eq!(map.remove(&7), Err(StateError::NotFound));
    assert_eq!(map.get(&7), None);
    let queue = map.take_pending();
    let seen: Vec<(u64, Option<i32>, Option<i32>)> =
        queue.iter().map(|n| (n.event.key, n.event.old_value, n.event.new_value)).collect();
    assert_eq!(
        seen,
        vec![(7, None, Some(1)), (7, Some(1), Some(2)), (9, None, Some(3)), (7, Some(2), None)]
    );
}
