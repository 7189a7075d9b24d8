use vstd::prelude::*;
use crate::gadget::GadgetRef;

verus! {

/// An ordered registry of listener names. A name is registered at most once:
/// registering a name that is already present leaves the registry as it is.
pub struct Listeners {
    names: Vec<String>,
}

impl View for Listeners {
    type V = Seq<Seq<char>>;

    closed spec fn view(&self) -> Seq<Seq<char>> {
        self.names@.map_values(|s: String| s@)
    }
}

/// The first position of `name` in `names`, if any.
pub open spec fn first_index(names: Seq<Seq<char>>, name: Seq<char>) -> Option<int> {
    if names.contains(name) {
        Some(choose|i: int| 0 <= i < names.len() && names[i] == name
            && forall|j: int| 0 <= j < i ==> names[j] != name)
    } else {
        None
    }
}

/// The registry after removing `name`: the entry at its first position goes.
pub open spec fn without_name(names: Seq<Seq<char>>, name: Seq<char>) -> Seq<Seq<char>> {
    match first_index(names, name) {
        Some(i) => names.remove(i),
        None => names,
    }
}

/// The registry after registering `name`.
pub open spec fn with_name(names: Seq<Seq<char>>, name: Seq<char>) -> Seq<Seq<char>> {
    if names.contains(name) {
        names
    } else {
        names.push(name)
    }
}

/// One delivery that a change schedules: a listener and the event it receives.
pub struct Notification<E> {
    pub listener: String,
    pub event: E,
}

/// A queue of deliveries as the contracts see it.
pub open spec fn queue_view<E>(q: Seq<Notification<E>>) -> Seq<(Seq<char>, E)> {
    q.map_values(|n: Notification<E>| (n.listener@, n.event))
}

/// The deliveries that one change schedules: one for each registered listener,
/// in registration order, each carrying the same event.
pub open spec fn fan_out<E>(names: Seq<Seq<char>>, event: E) -> Seq<(Seq<char>, E)> {
    names.map_values(|n: Seq<char>| (n, event))
}

proof fn lemma_first_index(names: Seq<Seq<char>>, name: Seq<char>, k: int)
    requires
        0 <= k < names.len(),
        names[k] == name,
        forall|j: int| 0 <= j < k ==> names[j] != name,
    ensures
        first_index(names, name) == Some(k),
{
    let i = choose|i: int| 0 <= i < names.len() && names[i] == name
        && forall|j: int| 0 <= j < i ==> names[j] != name;
    assert(names.contains(name));
    assert(i == k) by {
        if i < k {
            assert(names[i] != name);
        } else if i > k {
            assert(names[k] != name);
        }
    }
}

impl Listeners {
    pub fn new() -> (r: Self)
        ensures
            r@ == Seq::<Seq<char>>::empty(),
    {
        let r = Listeners { names: Vec::new() };
        proof {
            assert(r@ =~= Seq::<Seq<char>>::empty());
        }
        r
    }

    /// Position of `name` in the registry.
    pub fn position(&self, name: &String) -> (r: Option<usize>)
        ensures
            match r {
                Some(i) => {
                    &&& i < self@.len()
                    &&& self@[i as int] == name@
                    &&& forall|j: int| 0 <= j < i ==> self@[j] != name@
                    &&& first_index(self@, name@) == Some(i as int)
                },
                None => first_index(self@, name@) is None,
            },
    {
        let mut i: usize = 0;
        while i < self.names.len()
            invariant
                i <= self.names@.len(),
                forall|j: int| 0 <= j < i ==> self@[j] != name@,
            decreases self.names.len() - i,
        {
            if self.names[i] == *name {
                proof {
                    lemma_first_index(self@, name@, i as int);
                }
                return Some(i);
            }
            i += 1;
        }
        proof {
            assert(!self@.contains(name@));
        }
        None
    }

    pub fn contains(&self, name: &String) -> (r: bool)
        ensures
            r == self@.contains(name@),
    {
        match self.position(name) {
            Some(_) => true,
            None => false,
        }
    }

    /// Registers `name`; returns whether it was new.
    pub fn add(&mut self, name: String) -> (r: bool)
        ensures
            r == !old(self)@.contains(name@),
            final(self)@ == with_name(old(self)@, name@),
            old(self)@.no_duplicates() ==> final(self)@.no_duplicates(),
    {
        if self.contains(&name) {
            false
        } else {
            let ghost n = name@;
            self.names.push(name);
            proof {
                assert(self@ =~= old(self)@.push(n));
            }
            true
        }
    }

    /// Unregisters `name`; returns whether it was present.
    pub fn remove(&mut self, name: &String) -> (r: bool)
        ensures
            r == old(self)@.contains(name@),
            final(self)@ == without_name(old(self)@, name@),
            old(self)@.no_duplicates() ==> final(self)@.no_duplicates(),
            old(self)@.no_duplicates() ==> !final(self)@.contains(name@),
    {
        match self.position(name) {
            Some(i) => {
                self.names.remove(i);
                proof {
                    assert(self@ =~= old(self)@.remove(i as int));
                    assert forall|a: int, b: int|
                        0 <= a < b < self@.len() && old(self)@.no_duplicates()
                        implies self@[a] != self@[b] by {
                        if a >= i {
                            assert(self@[a] == old(self)@[a + 1]);
                        }
                    }
                    if old(self)@.no_duplicates() {
                        assert forall|k: int| 0 <= k < self@.len() implies self@[k] != name@ by {
                            if k < i {
                                assert(old(self)@[k] != name@);
                            } else {
                                assert(self@[k] == old(self)@[k + 1]);
                                assert(old(self)@[i as int] == name@);
                            }
                        }
                    }
                }
                true
            },
            None => false,
        }
    }

    /// Appends to `queue` one delivery of `event` per registered listener.
    pub fn schedule<E: Copy>(&self, queue: &mut Vec<Notification<E>>, event: E)
        ensures
            queue_view(final(queue)@) == queue_view(old(queue)@) + fan_out(self@, event),
    {
        let mut i: usize = 0;
        while i < self.names.len()
            invariant
                i <= self.names@.len(),
                queue_view(queue@) == queue_view(old(queue)@) + fan_out(
                    self@.subrange(0, i as int),
                    event,
                ),
            decreases self.names.len() - i,
        {
            let ghost before = queue@;
            queue.push(Notification { listener: self.names[i].clone(), event });
            proof {
                assert(queue_view(queue@) =~= queue_view(before).push((self@[i as int], event)));
                assert(self@.subrange(0, i + 1) =~= self@.subrange(0, i as int).push(
                    self@[i as int],
                ));
                assert(fan_out(self@.subrange(0, i + 1), event) =~= fan_out(
                    self@.subrange(0, i as int),
                    event,
                ).push((self@[i as int], event)));
            }
            i += 1;
        }
        proof {
            assert(self@.subrange(0, self@.len() as int) =~= self@);
        }
    }
}

/// Identity comparison for the values that list cells can search for.
pub trait SameAs: Sized {
    fn same_as(&self, other: &Self) -> (r: bool)
        ensures
            r == (*self == *other),
    ;
}

impl SameAs for u32 {
    fn same_as(&self, other: &Self) -> (r: bool) {
        *self == *other
    }
}

impl SameAs for u64 {
    fn same_as(&self, other: &Self) -> (r: bool) {
        *self == *other
    }
}

impl SameAs for usize {
    fn same_as(&self, other: &Self) -> (r: bool) {
        *self == *other
    }
}

/// What listeners of a scalar cell receive: the owning gadget and the value
/// that the change installed.
#[derive(Clone, Copy)]
pub struct StateChangedEvent<T> {
    pub gadget: GadgetRef,
    pub value: T,
}

/// An observable cell holding one value. Every change schedules one delivery
/// per registered listener; `take_pending` hands the queued deliveries out in
/// the order they were scheduled.
pub struct State<T> {
    data: T,
    gadget: GadgetRef,
    listeners: Listeners,
    pending: Vec<Notification<StateChangedEvent<T>>>,
}

impl<T: Copy> State<T> {
    /// No listener name is registered twice.
    pub open spec fn wf(&self) -> bool {
        self.listeners().no_duplicates()
    }

    pub closed spec fn value(&self) -> T {
        self.data
    }

    /// The gadget that owns the cell.
    pub closed spec fn owner(&self) -> GadgetRef {
        self.gadget
    }

    pub closed spec fn listeners(&self) -> Seq<Seq<char>> {
        self.listeners@
    }

    /// The deliveries scheduled and not yet handed out, oldest first.
    pub closed spec fn pending(&self) -> Seq<(Seq<char>, StateChangedEvent<T>)> {
        queue_view(self.pending@)
    }

    /// The event that installing `v` produces.
    pub open spec fn event_for(&self, v: T) -> StateChangedEvent<T> {
        StateChangedEvent { gadget: self.owner(), value: v }
    }

    pub fn new(gadget: GadgetRef, data: T) -> (r: Self)
        ensures
            r.value() == data,
            r.owner() == gadget,
            r.listeners() == Seq::<Seq<char>>::empty(),
            r.pending() == Seq::<(Seq<char>, StateChangedEvent<T>)>::empty(),
            r.wf(),
    {
        let r = State { data, gadget, listeners: Listeners::new(), pending: Vec::new() };
        proof {
            assert(r.pending() =~= Seq::<(Seq<char>, StateChangedEvent<T>)>::empty());
        }
        r
    }

    pub fn get(&self) -> (r: T)
        ensures
            r == self.value(),
    {
        self.data
    }

    pub fn get_cloned(&self) -> (r: T)
        ensures
            r == self.value(),
    {
        self.data
    }

    pub fn gadget(&self) -> (r: GadgetRef)
        ensures
            r == self.owner(),
    {
        self.gadget
    }

    /// Installs `data`, then schedules its delivery to every listener.
    pub fn set(&mut self, data: T)
        ensures
            final(self).value() == data,
            final(self).owner() == old(self).owner(),
            final(self).listeners() == old(self).listeners(),
            final(self).pending() == old(self).pending() + fan_out(
                old(self).listeners(),
                old(self).event_for(data),
            ),
            old(self).wf() ==> final(self).wf(),
    {
        self.data = data;
        self.notify();
    }

    /// Schedules the delivery of the current value to every listener.
    pub fn notify(&mut self)
        ensures
            final(self).value() == old(self).value(),
            final(self).owner() == old(self).owner(),
            final(self).listeners() == old(self).listeners(),
            final(self).pending() == old(self).pending() + fan_out(
                old(self).listeners(),
                old(self).event_for(old(self).value()),
            ),
            old(self).wf() ==> final(self).wf(),
    {
        let event = StateChangedEvent { gadget: self.gadget, value: self.data };
        self.listeners.schedule(&mut self.pending, event);
    }

    /// Registers a listener under `name`; returns whether the name was new.
    pub fn listen(&mut self, name: &str) -> (r: bool)
        ensures
            r == !old(self).listeners().contains(name@),
            final(self).listeners() == with_name(old(self).listeners(), name@),
            final(self).value() == old(self).value(),
            final(self).owner() == old(self).owner(),
            final(self).pending() == old(self).pending(),
            old(self).wf() ==> final(self).wf(),
    {
        self.listeners.add(name.to_owned())
    }

    /// Unregisters the listener named `name`; nothing happens if there is none.
    pub fn remove_listener(&mut self, name: &str)
        ensures
            final(self).listeners() == without_name(old(self).listeners(), name@),
            final(self).value() == old(self).value(),
            final(self).owner() == old(self).owner(),
            final(self).pending() == old(self).pending(),
            old(self).wf() ==> final(self).wf(),
    {
        self.listeners.remove(&name.to_owned());
    }

    /// Hands out the scheduled deliveries, oldest first.
    pub fn take_pending(&mut self) -> (r: Vec<Notification<StateChangedEvent<T>>>)
        ensures
            queue_view(r@) == old(self).pending(),
            final(self).pending() == Seq::<(Seq<char>, StateChangedEvent<T>)>::empty(),
            final(self).value() == old(self).value(),
            final(self).owner() == old(self).owner(),
            final(self).listeners() == old(self).listeners(),
            old(self).wf() ==> final(self).wf(),
    {
        let mut r = Vec::new();
        std::mem::swap(&mut r, &mut self.pending);
        proof {
            assert(self.pending() =~= Seq::<(Seq<char>, StateChangedEvent<T>)>::empty());
        }
        r
    }
}

/// Delivered to `set` listeners when an empty optional cell receives a value.
#[derive(Clone, Copy)]
pub struct OptionalStateSetEvent<T> {
    pub gadget: GadgetRef,
    pub value: T,
}

/// Delivered to `unset` listeners when an optional cell loses its value.
#[derive(Clone, Copy)]
pub struct OptionalStateUnsetEvent<T> {
    pub gadget: GadgetRef,
    pub last_value: T,
}

/// Delivered to `change` listeners when a held value is replaced by another.
#[derive(Clone, Copy)]
pub struct OptionalStateChangedEvent<T> {
    pub gadget: GadgetRef,
    pub last_value: T,
    pub new_value: T,
}

/// Any of the three events of an optional cell.
#[derive(Clone, Copy)]
pub enum OptionalStateEvent<T> {
    Put(OptionalStateSetEvent<T>),
    Unset(OptionalStateUnsetEvent<T>),
    Change(OptionalStateChangedEvent<T>),
}

/// An observable cell that may hold a value. A transition from empty to held
/// is reported to the `set` listeners, from held to empty to the `unset`
/// listeners, and from held to held to the `change` listeners.
pub struct OptionalState<T> {
    data: Option<T>,
    gadget: GadgetRef,
    on_set: Listeners,
    on_unset: Listeners,
    on_change: Listeners,
    pending: Vec<Notification<OptionalStateEvent<T>>>,
}

impl<T: Copy> OptionalState<T> {
    /// No listener name is registered twice for one kind of change.
    pub open spec fn wf(&self) -> bool {
        &&& self.set_listeners().no_duplicates()
        &&& self.unset_listeners().no_duplicates()
        &&& self.change_listeners().no_duplicates()
    }

    pub closed spec fn value(&self) -> Option<T> {
        self.data
    }

    /// The gadget that owns the cell.
    pub closed spec fn owner(&self) -> GadgetRef {
        self.gadget
    }

    pub closed spec fn set_listeners(&self) -> Seq<Seq<char>> {
        self.on_set@
    }

    pub closed spec fn unset_listeners(&self) -> Seq<Seq<char>> {
        self.on_unset@
    }

    pub closed spec fn change_listeners(&self) -> Seq<Seq<char>> {
        self.on_change@
    }

    /// The deliveries scheduled and not yet handed out, oldest first.
    pub closed spec fn pending(&self) -> Seq<(Seq<char>, OptionalStateEvent<T>)> {
        queue_view(self.pending@)
    }

    /// The deliveries that going from the current value to `new` schedules.
    pub open spec fn transition(&self, new: Option<T>) -> Seq<(Seq<char>, OptionalStateEvent<T>)> {
        match (self.value(), new) {
            (None, Some(v)) => fan_out(
                self.set_listeners(),
                OptionalStateEvent::Put(OptionalStateSetEvent { gadget: self.owner(), value: v }),
            ),
            (Some(o), None) => fan_out(
                self.unset_listeners(),
                OptionalStateEvent::Unset(
                    OptionalStateUnsetEvent { gadget: self.owner(), last_value: o },
                ),
            ),
            (Some(o), Some(v)) => fan_out(
                self.change_listeners(),
                OptionalStateEvent::Change(
                    OptionalStateChangedEvent { gadget: self.owner(), last_value: o, new_value: v },
                ),
            ),
            (None, None) => Seq::empty(),
        }
    }

    /// The registries and the owner are those of `other`.
    pub open spec fn same_wiring(&self, other: &Self) -> bool {
        &&& self.owner() == other.owner()
        &&& self.set_listeners() == other.set_listeners()
        &&& self.unset_listeners() == other.unset_listeners()
        &&& self.change_listeners() == other.change_listeners()
    }

    pub fn new(gadget: GadgetRef, data: Option<T>) -> (r: Self)
        ensures
            r.value() == data,
            r.owner() == gadget,
            r.set_listeners() == Seq::<Seq<char>>::empty(),
            r.unset_listeners() == Seq::<Seq<char>>::empty(),
            r.change_listeners() == Seq::<Seq<char>>::empty(),
            r.pending() == Seq::<(Seq<char>, OptionalStateEvent<T>)>::empty(),
            r.wf(),
    {
        let r = OptionalState {
            data,
            gadget,
            on_set: Listeners::new(),
            on_unset: Listeners::new(),
            on_change: Listeners::new(),
            pending: Vec::new(),
        };
        proof {
            assert(r.pending() =~= Seq::<(Seq<char>, OptionalStateEvent<T>)>::empty());
        }
        r
    }

    pub fn new_empty(gadget: GadgetRef) -> (r: Self)
        ensures
            r.value() is None,
            r.owner() == gadget,
            r.set_listeners() == Seq::<Seq<char>>::empty(),
            r.unset_listeners() == Seq::<Seq<char>>::empty(),
            r.change_listeners() == Seq::<Seq<char>>::empty(),
            r.pending() == Seq::<(Seq<char>, OptionalStateEvent<T>)>::empty(),
            r.wf(),
    {
        Self::new(gadget, None)
    }

    pub fn get(&self) -> (r: Option<T>)
        ensures
            r == self.value(),
    {
        self.data
    }

    pub fn is_set(&self) -> (r: bool)
        ensures
            r == self.value() is Some,
    {
        self.data.is_some()
    }

    /// Replaces the value with `data` and reports the transition.
    pub fn set(&mut self, data: Option<T>)
        ensures
            final(self).value() == data,
            final(self).same_wiring(old(self)),
            final(self).pending() == old(self).pending() + old(self).transition(data),
            old(self).wf() ==> final(self).wf(),
    {
        let last = self.data;
        self.data = data;
        match (last, data) {
            (None, Some(v)) => self.notify_set(v),
            (Some(o), None) => self.notify_unset(o),
            (Some(o), Some(v)) => self.notify_change(o, v),
            (None, None) => {
                proof {
                    assert(self.pending() =~= old(self).pending() + old(self).transition(data));
                }
            },
        }
    }

    /// Stores `data`; reports `set` if the cell was empty, else `change`.
    pub fn put(&mut self, data: T)
        ensures
            final(self).value() == Some(data),
            final(self).same_wiring(old(self)),
            final(self).pending() == old(self).pending() + old(self).transition(Some(data)),
            old(self).wf() ==> final(self).wf(),
    {
        self.set(Some(data))
    }

    /// Empties the cell and returns what it held, reporting `unset` if it held
    /// something.
    pub fn take(&mut self) -> (r: Option<T>)
        ensures
            r == old(self).value(),
            final(self).value() is None,
            final(self).same_wiring(old(self)),
            final(self).pending() == old(self).pending() + old(self).transition(None),
            old(self).wf() ==> final(self).wf(),
    {
        let r = self.data;
        self.set(None);
        r
    }

    /// Schedules a `set` delivery to each of those listeners; the contents stay.
    pub fn notify_set(&mut self, value: T)
        ensures
            final(self).value() == old(self).value(),
            final(self).same_wiring(old(self)),
            final(self).pending() == old(self).pending() + fan_out(
                old(self).set_listeners(),
                OptionalStateEvent::Put(OptionalStateSetEvent { gadget: old(self).owner(), value }),
            ),
            old(self).wf() ==> final(self).wf(),
    {
        let event = OptionalStateEvent::Put(OptionalStateSetEvent { gadget: self.gadget, value });
        self.on_set.schedule(&mut self.pending, event);
    }

    /// Schedules a `unset` delivery to each of those listeners; the contents stay.
    pub fn notify_unset(&mut self, last_value: T)
        ensures
            final(self).value() == old(self).value(),
            final(self).same_wiring(old(self)),
            final(self).pending() == old(self).pending() + fan_out(
                old(self).unset_listeners(),
                OptionalStateEvent::Unset(
                    OptionalStateUnsetEvent { gadget: old(self).owner(), last_value },
                ),
            ),
            old(self).wf() ==> final(self).wf(),
    {
        let event = OptionalStateEvent::Unset(
            OptionalStateUnsetEvent { gadget: self.gadget, last_value },
        );
        self.on_unset.schedule(&mut self.pending, event);
    }

    /// Schedules a `change` delivery to each of those listeners; the contents stay.
    pub fn notify_change(&mut self, last_value: T, new_value: T)
        ensures
            final(self).value() == old(self).value(),
            final(self).same_wiring(old(self)),
            final(self).pending() == old(self).pending() + fan_out(
                old(self).change_listeners(),
                OptionalStateEvent::Change(
                    OptionalStateChangedEvent { gadget: old(self).owner(), last_value, new_value },
                ),
            ),
            old(self).wf() ==> final(self).wf(),
    {
        let event = OptionalStateEvent::Change(
            OptionalStateChangedEvent { gadget: self.gadget, last_value, new_value },
        );
        self.on_change.schedule(&mut self.pending, event);
    }

    /// Registers a `set` listener under `name`; returns whether the name was new.
    pub fn listen_set(&mut self, name: &str) -> (r: bool)
        ensures
            r == !old(self).set_listeners().contains(name@),
            final(self).set_listeners() == with_name(old(self).set_listeners(), name@),
            final(self).unset_listeners() == old(self).unset_listeners(),
            final(self).change_listeners() == old(self).change_listeners(),
            final(self).value() == old(self).value(),
            final(self).owner() == old(self).owner(),
            final(self).pending() == old(self).pending(),
            old(self).wf() ==> final(self).wf(),
    {
        self.on_set.add(name.to_owned())
    }

    /// Registers a `unset` listener under `name`; returns whether the name was new.
    pub fn listen_unset(&mut self, name: &str) -> (r: bool)
        ensures
            r == !old(self).unset_listeners().contains(name@),
            final(self).unset_listeners() == with_name(old(self).unset_listeners(), name@),
            final(self).set_listeners() == old(self).set_listeners(),
            final(self).change_listeners() == old(self).change_listeners(),
            final(self).value() == old(self).value(),
            final(self).owner() == old(self).owner(),
            final(self).pending() == old(self).pending(),
            old(self).wf() ==> final(self).wf(),
    {
        self.on_unset.add(name.to_owned())
    }

    /// Registers a `change` listener under `name`; returns whether the name was new.
    pub fn listen_change(&mut self, name: &str) -> (r: bool)
        ensures
            r == !old(self).change_listeners().contains(name@),
            final(self).change_listeners() == with_name(old(self).change_listeners(), name@),
            final(self).set_listeners() == old(self).set_listeners(),
            final(self).unset_listeners() == old(self).unset_listeners(),
            final(self).value() == old(self).value(),
            final(self).owner() == old(self).owner(),
            final(self).pending() == old(self).pending(),
            old(self).wf() ==> final(self).wf(),
    {
        self.on_change.add(name.to_owned())
    }

    /// Unregisters the `set` listener named `name`, if any.
    pub fn remove_listener_set(&mut self, name: &str)
        ensures
            final(self).set_listeners() == without_name(old(self).set_listeners(), name@),
            final(self).unset_listeners() == old(self).unset_listeners(),
            final(self).change_listeners() == old(self).change_listeners(),
            final(self).value() == old(self).value(),
            final(self).owner() == old(self).owner(),
            final(self).pending() == old(self).pending(),
            old(self).wf() ==> final(self).wf(),
    {
        self.on_set.remove(&name.to_owned());
    }

    /// Unregisters the `unset` listener named `name`, if any.
    pub fn remove_listener_unset(&mut self, name: &str)
        ensures
            final(self).unset_listeners() == without_name(old(self).unset_listeners(), name@),
            final(self).set_listeners() == old(self).set_listeners(),
            final(self).change_listeners() == old(self).change_listeners(),
            final(self).value() == old(self).value(),
            final(self).owner() == old(self).owner(),
            final(self).pending() == old(self).pending(),
            old(self).wf() ==> final(self).wf(),
    {
        self.on_unset.remove(&name.to_owned());
    }

    /// Unregisters the `change` listener named `name`, if any.
    pub fn remove_listener_change(&mut self, name: &str)
        ensures
            final(self).change_listeners() == without_name(old(self).change_listeners(), name@),
            final(self).set_listeners() == old(self).set_listeners(),
            final(self).unset_listeners() == old(self).unset_listeners(),
            final(self).value() == old(self).value(),
            final(self).owner() == old(self).owner(),
            final(self).pending() == old(self).pending(),
            old(self).wf() ==> final(self).wf(),
    {
        self.on_change.remove(&name.to_owned());
    }

    /// Hands out the scheduled deliveries, oldest first.
    pub fn take_pending(&mut self) -> (r: Vec<Notification<OptionalStateEvent<T>>>)
        ensures
            queue_view(r@) == old(self).pending(),
            final(self).pending() == Seq::<(Seq<char>, OptionalStateEvent<T>)>::empty(),
            final(self).value() == old(self).value(),
            final(self).same_wiring(old(self)),
            old(self).wf() ==> final(self).wf(),
    {
        let mut r = Vec::new();
        std::mem::swap(&mut r, &mut self.pending);
        proof {
            assert(self.pending() =~= Seq::<(Seq<char>, OptionalStateEvent<T>)>::empty());
        }
        r
    }
}

/// Why a removal from a list or map cell did not happen.
#[derive(Debug, Clone, Copy, PartialEq, Eq, Structural)]
pub enum StateError {
    /// No element at the given index.
    IndexOutOfRange,
    /// No entry under the given key.
    NotFound,
}

/// Delivered to `add` listeners: `new_value` now stands at `index`.
#[derive(Clone, Copy)]
pub struct StateVecAddEvent<T> {
    pub gadget: GadgetRef,
    pub index: usize,
    pub new_value: T,
}

/// Delivered to `set` listeners: the element at `index` was replaced.
#[derive(Clone, Copy)]
pub struct StateVecSetEvent<T> {
    pub gadget: GadgetRef,
    pub index: usize,
    pub old_value: T,
    pub new_value: T,
}

/// Delivered to `remove` listeners: `old_value` left from `old_index`.
#[derive(Clone, Copy)]
pub struct StateVecRemoveEvent<T> {
    pub gadget: GadgetRef,
    pub old_index: usize,
    pub old_value: T,
}

/// Any of the three events of a list cell.
#[derive(Clone, Copy)]
pub enum StateVecEvent<T> {
    Add(StateVecAddEvent<T>),
    Update(StateVecSetEvent<T>),
    Remove(StateVecRemoveEvent<T>),
}

/// The deliveries that clearing a list holding `items` schedules: the elements
/// leave from the back, one removal each.
pub open spec fn clear_events<T>(
    items: Seq<T>,
    owner: GadgetRef,
    names: Seq<Seq<char>>,
) -> Seq<(Seq<char>, StateVecEvent<T>)>
    decreases items.len(),
{
    if items.len() == 0 {
        Seq::empty()
    } else {
        fan_out(
            names,
            StateVecEvent::Remove(
                StateVecRemoveEvent {
                    gadget: owner,
                    old_index: (items.len() - 1) as usize,
                    old_value: items.last(),
                },
            ),
        ) + clear_events(items.drop_last(), owner, names)
    }
}

/// An observable ordered list.
pub struct StateVec<T> {
    data: Vec<T>,
    gadget: GadgetRef,
    on_add: Listeners,
    on_set: Listeners,
    on_remove: Listeners,
    pending: Vec<Notification<StateVecEvent<T>>>,
}

impl<T: Copy> StateVec<T> {
    /// No listener name is registered twice for one kind of change.
    pub open spec fn wf(&self) -> bool {
        &&& self.add_listeners().no_duplicates()
        &&& self.set_listeners().no_duplicates()
        &&& self.remove_listeners().no_duplicates()
    }

    pub closed spec fn items(&self) -> Seq<T> {
        self.data@
    }

    /// The gadget that owns the cell.
    pub closed spec fn owner(&self) -> GadgetRef {
        self.gadget
    }

    pub closed spec fn add_listeners(&self) -> Seq<Seq<char>> {
        self.on_add@
    }

    pub closed spec fn set_listeners(&self) -> Seq<Seq<char>> {
        self.on_set@
    }

    pub closed spec fn remove_listeners(&self) -> Seq<Seq<char>> {
        self.on_remove@
    }

    /// The deliveries scheduled and not yet handed out, oldest first.
    pub closed spec fn pending(&self) -> Seq<(Seq<char>, StateVecEvent<T>)> {
        queue_view(self.pending@)
    }

    /// The registries and the owner are those of `other`.
    pub open spec fn same_wiring(&self, other: &Self) -> bool {
        &&& self.owner() == other.owner()
        &&& self.add_listeners() == other.add_listeners()
        &&& self.set_listeners() == other.set_listeners()
        &&& self.remove_listeners() == other.remove_listeners()
    }

    pub open spec fn add_event(&self, index: int, v: T) -> StateVecEvent<T> {
        StateVecEvent::Add(StateVecAddEvent { gadget: self.owner(), index: index as usize, new_value: v })
    }

    pub open spec fn remove_event(&self, index: int, v: T) -> StateVecEvent<T> {
        StateVecEvent::Remove(
            StateVecRemoveEvent { gadget: self.owner(), old_index: index as usize, old_value: v },
        )
    }

    pub open spec fn set_event(&self, index: int, o: T, v: T) -> StateVecEvent<T> {
        StateVecEvent::Update(
            StateVecSetEvent { gadget: self.owner(), index: index as usize, old_value: o, new_value: v },
        )
    }

    pub fn new(gadget: GadgetRef) -> (r: Self)
        ensures
            r.items() == Seq::<T>::empty(),
            r.owner() == gadget,
            r.add_listeners() == Seq::<Seq<char>>::empty(),
            r.set_listeners() == Seq::<Seq<char>>::empty(),
            r.remove_listeners() == Seq::<Seq<char>>::empty(),
            r.pending() == Seq::<(Seq<char>, StateVecEvent<T>)>::empty(),
            r.wf(),
    {
        let r = StateVec {
            data: Vec::new(),
            gadget,
            on_add: Listeners::new(),
            on_set: Listeners::new(),
            on_remove: Listeners::new(),
            pending: Vec::new(),
        };
        proof {
            assert(r.pending() =~= Seq::<(Seq<char>, StateVecEvent<T>)>::empty());
        }
        r
    }

    pub fn get_vec(&self) -> (r: &Vec<T>)
        ensures
            r@ == self.items(),
    {
        &self.data
    }

    pub fn len(&self) -> (r: usize)
        ensures
            r == self.items().len(),
    {
        self.data.len()
    }

    pub fn get(&self, index: usize) -> (r: Option<T>)
        ensures
            r == (if index < self.items().len() {
                Some(self.items()[index as int])
            } else {
                None
            }),
    {
        if index < self.data.len() {
            Some(self.data[index])
        } else {
            None
        }
    }

    /// Appends `data` and reports it as added at the old length.
    pub fn push(&mut self, data: T)
        ensures
            final(self).items() == old(self).items().push(data),
            final(self).same_wiring(old(self)),
            final(self).pending() == old(self).pending() + fan_out(
                old(self).add_listeners(),
                old(self).add_event(old(self).items().len() as int, data),
            ),
            old(self).wf() ==> final(self).wf(),
    {
        self.data.push(data);
        let index = self.data.len() - 1;
        self.notify_add(index, data);
    }

    /// Removes the last element, reporting its removal; `None` on an empty list.
    pub fn pop(&mut self) -> (r: Option<T>)
        ensures
            old(self).items().len() == 0 ==> {
                &&& r is None
                &&& final(self).items() == old(self).items()
                &&& final(self).pending() == old(self).pending()
            },
            old(self).items().len() > 0 ==> {
                &&& r == Some(old(self).items().last())
                &&& final(self).items() == old(self).items().drop_last()
                &&& final(self).pending() == old(self).pending() + fan_out(
                    old(self).remove_listeners(),
                    old(self).remove_event(
                        old(self).items().len() - 1,
                        old(self).items().last(),
                    ),
                )
            },
            final(self).same_wiring(old(self)),
            old(self).wf() ==> final(self).wf(),
    {
        match self.data.pop() {
            Some(v) => {
                let index = self.data.len();
                self.notify_remove(index, v);
                Some(v)
            },
            None => None,
        }
    }

    /// Replaces the element at `index`, reporting old and new value.
    pub fn set(&mut self, index: usize, data: T) -> (r: T)
        requires
            index < old(self).items().len(),
        ensures
            r == old(self).items()[index as int],
            final(self).items() == old(self).items().update(index as int, data),
            final(self).same_wiring(old(self)),
            final(self).pending() == old(self).pending() + fan_out(
                old(self).set_listeners(),
                old(self).set_event(index as int, old(self).items()[index as int], data),
            ),
            old(self).wf() ==> final(self).wf(),
    {
        let old_value = self.data[index];
        self.data.set(index, data);
        self.notify_set(index, old_value, data);
        old_value
    }

    /// Removes the element at `index`, reporting the value and the index it
    /// left from.
    pub fn remove_at(&mut self, index: usize) -> (r: Result<T, StateError>)
        ensures
            index >= old(self).items().len() ==> {
                &&& r == Err::<T, StateError>(StateError::IndexOutOfRange)
                &&& final(self).items() == old(self).items()
                &&& final(self).pending() == old(self).pending()
            },
            index < old(self).items().len() ==> {
                &&& r == Ok::<T, StateError>(old(self).items()[index as int])
                &&& final(self).items() == old(self).items().remove(index as int)
                &&& final(self).pending() == old(self).pending() + fan_out(
                    old(self).remove_listeners(),
                    old(self).remove_event(index as int, old(self).items()[index as int]),
                )
            },
            final(self).same_wiring(old(self)),
            old(self).wf() ==> final(self).wf(),
    {
        if index >= self.data.len() {
            return Err(StateError::IndexOutOfRange);
        }
        let v = self.data.remove(index);
        self.notify_remove(index, v);
        Ok(v)
    }

    /// Removes everything, last element first, reporting each removal.
    pub fn clear(&mut self)
        ensures
            final(self).items() == Seq::<T>::empty(),
            final(self).same_wiring(old(self)),
            final(self).pending() == old(self).pending() + clear_events(
                old(self).items(),
                old(self).owner(),
                old(self).remove_listeners(),
            ),
            old(self).wf() ==> final(self).wf(),
    {
        while self.data.len() > 0
            invariant
                self.same_wiring(old(self)),
                old(self).pending() + clear_events(
                    old(self).items(),
                    old(self).owner(),
                    old(self).remove_listeners(),
                ) == self.pending() + clear_events(
                    self.items(),
                    old(self).owner(),
                    old(self).remove_listeners(),
                ),
            decreases self.items().len(),
        {
            let ghost before = *self;
            let _ = self.pop();
            proof {
                let names = old(self).remove_listeners();
                let ev = fan_out(
                    names,
                    before.remove_event(before.items().len() - 1, before.items().last()),
                );
                assert(clear_events(before.items(), old(self).owner(), names) == ev
                    + clear_events(self.items(), old(self).owner(), names));
                assert(before.pending() + (ev + clear_events(self.items(), old(self).owner(), names))
                    =~= (before.pending() + ev) + clear_events(self.items(), old(self).owner(), names));
            }
        }
        proof {
            assert(self.items() =~= Seq::<T>::empty());
            assert(self.pending() + clear_events(
                self.items(),
                old(self).owner(),
                old(self).remove_listeners(),
            ) =~= self.pending());
        }
    }

    /// Schedules a `add` delivery to each of those listeners; the contents stay.
    pub fn notify_add(&mut self, index: usize, new_value: T)
        ensures
            final(self).items() == old(self).items(),
            final(self).same_wiring(old(self)),
            final(self).pending() == old(self).pending() + fan_out(
                old(self).add_listeners(),
                old(self).add_event(index as int, new_value),
            ),
            old(self).wf() ==> final(self).wf(),
    {
        let event = StateVecEvent::Add(StateVecAddEvent { gadget: self.gadget, index, new_value });
        self.on_add.schedule(&mut self.pending, event);
    }

    /// Schedules a `set` delivery to each of those listeners; the contents stay.
    pub fn notify_set(&mut self, index: usize, old_value: T, new_value: T)
        ensures
            final(self).items() == old(self).items(),
            final(self).same_wiring(old(self)),
            final(self).pending() == old(self).pending() + fan_out(
                old(self).set_listeners(),
                old(self).set_event(index as int, old_value, new_value),
            ),
            old(self).wf() ==> final(self).wf(),
    {
        let event = StateVecEvent::Update(
            StateVecSetEvent { gadget: self.gadget, index, old_value, new_value },
        );
        self.on_set.schedule(&mut self.pending, event);
    }

    /// Schedules a `remove` delivery to each of those listeners; the contents stay.
    pub fn notify_remove(&mut self, index: usize, old_value: T)
        ensures
            final(self).items() == old(self).items(),
            final(self).same_wiring(old(self)),
            final(self).pending() == old(self).pending() + fan_out(
                old(self).remove_listeners(),
                old(self).remove_event(index as int, old_value),
            ),
            old(self).wf() ==> final(self).wf(),
    {
        let event = StateVecEvent::Remove(
            StateVecRemoveEvent { gadget: self.gadget, old_index: index, old_value },
        );
        self.on_remove.schedule(&mut self.pending, event);
    }

    /// Registers a `add` listener under `name`; returns whether the name was new.
    pub fn listen_add(&mut self, name: &str) -> (r: bool)
        ensures
            r == !old(self).add_listeners().contains(name@),
            final(self).add_listeners() == with_name(old(self).add_listeners(), name@),
            final(self).set_listeners() == old(self).set_listeners(),
            final(self).remove_listeners() == old(self).remove_listeners(),
            final(self).items() == old(self).items(),
            final(self).owner() == old(self).owner(),
            final(self).pending() == old(self).pending(),
            old(self).wf() ==> final(self).wf(),
    {
        self.on_add.add(name.to_owned())
    }

    /// Registers a `set` listener under `name`; returns whether the name was new.
    pub fn listen_set(&mut self, name: &str) -> (r: bool)
        ensures
            r == !old(self).set_listeners().contains(name@),
            final(self).set_listeners() == with_name(old(self).set_listeners(), name@),
            final(self).add_listeners() == old(self).add_listeners(),
            final(self).remove_listeners() == old(self).remove_listeners(),
            final(self).items() == old(self).items(),
            final(self).owner() == old(self).owner(),
            final(self).pending() == old(self).pending(),
            old(self).wf() ==> final(self).wf(),
    {
        self.on_set.add(name.to_owned())
    }

    /// Registers a `remove` listener under `name`; returns whether the name was new.
    pub fn listen_remove(&mut self, name: &str) -> (r: bool)
        ensures
            r == !old(self).remove_listeners().contains(name@),
            final(self).remove_listeners() == with_name(old(self).remove_listeners(), name@),
            final(self).add_listeners() == old(self).add_listeners(),
            final(self).set_listeners() == old(self).set_listeners(),
            final(self).items() == old(self).items(),
            final(self).owner() == old(self).owner(),
            final(self).pending() == old(self).pending(),
            old(self).wf() ==> final(self).wf(),
    {
        self.on_remove.add(name.to_owned())
    }

    /// Unregisters the `add` listener named `name`, if any.
    pub fn remove_listener_add(&mut self, name: &str)
        ensures
            final(self).add_listeners() == without_name(old(self).add_listeners(), name@),
            final(self).set_listeners() == old(self).set_listeners(),
            final(self).remove_listeners() == old(self).remove_listeners(),
            final(self).items() == old(self).items(),
            final(self).owner() == old(self).owner(),
            final(self).pending() == old(self).pending(),
            old(self).wf() ==> final(self).wf(),
    {
        self.on_add.remove(&name.to_owned());
    }

    /// Unregisters the `set` listener named `name`, if any.
    pub fn remove_listener_set(&mut self, name: &str)
        ensures
            final(self).set_listeners() == without_name(old(self).set_listeners(), name@),
            final(self).add_listeners() == old(self).add_listeners(),
            final(self).remove_listeners() == old(self).remove_listeners(),
            final(self).items() == old(self).items(),
            final(self).owner() == old(self).owner(),
            final(self).pending() == old(self).pending(),
            old(self).wf() ==> final(self).wf(),
    {
        self.on_set.remove(&name.to_owned());
    }

    /// Unregisters the `remove` listener named `name`, if any.
    pub fn remove_listener_remove(&mut self, name: &str)
        ensures
            final(self).remove_listeners() == without_name(old(self).remove_listeners(), name@),
            final(self).add_listeners() == old(self).add_listeners(),
            final(self).set_listeners() == old(self).set_listeners(),
            final(self).items() == old(self).items(),
            final(self).owner() == old(self).owner(),
            final(self).pending() == old(self).pending(),
            old(self).wf() ==> final(self).wf(),
    {
        self.on_remove.remove(&name.to_owned());
    }

    /// Hands out the scheduled deliveries, oldest first.
    pub fn take_pending(&mut self) -> (r: Vec<Notification<StateVecEvent<T>>>)
        ensures
            queue_view(r@) == old(self).pending(),
            final(self).pending() == Seq::<(Seq<char>, StateVecEvent<T>)>::empty(),
            final(self).items() == old(self).items(),
            final(self).same_wiring(old(self)),
            old(self).wf() ==> final(self).wf(),
    {
        let mut r = Vec::new();
        std::mem::swap(&mut r, &mut self.pending);
        proof {
            assert(self.pending() =~= Seq::<(Seq<char>, StateVecEvent<T>)>::empty());
        }
        r
    }
}

/// The first position of `x` in `s`, if any.
pub open spec fn seq_position<T>(s: Seq<T>, x: T) -> Option<int> {
    if s.contains(x) {
        Some(choose|i: int| 0 <= i < s.len() && s[i] == x
            && forall|j: int| 0 <= j < i ==> s[j] != x)
    } else {
        None
    }
}

pub(crate) proof fn lemma_seq_position<T>(s: Seq<T>, x: T, k: int)
    requires
        0 <= k < s.len(),
        s[k] == x,
        forall|j: int| 0 <= j < k ==> s[j] != x,
    ensures
        seq_position(s, x) == Some(k),
{
    let i = choose|i: int| 0 <= i < s.len() && s[i] == x
        && forall|j: int| 0 <= j < i ==> s[j] != x;
    assert(s.contains(x));
    assert(i == k) by {
        if i < k {
            assert(s[i] != x);
        } else if i > k {
            assert(s[k] != x);
        }
    }
}

impl<T: Copy + SameAs> StateVec<T> {
    /// Index of the first element equal to `data`.
    pub fn position(&self, data: &T) -> (r: Option<usize>)
        ensures
            match r {
                Some(i) => {
                    &&& i < self.items().len()
                    &&& self.items()[i as int] == *data
                    &&& seq_position(self.items(), *data) == Some(i as int)
                },
                None => !self.items().contains(*data) && seq_position(self.items(), *data) is None,
            },
    {
        let mut i: usize = 0;
        while i < self.data.len()
            invariant
                i <= self.data@.len(),
                forall|j: int| 0 <= j < i ==> self.data@[j] != *data,
            decreases self.data.len() - i,
        {
            if self.data[i].same_as(data) {
                proof {
                    lemma_seq_position(self.data@, *data, i as int);
                }
                return Some(i);
            }
            i += 1;
        }
        None
    }

    /// Removes the first element equal to `data`, reporting its removal;
    /// `NotFound`, with nothing reported, if there is none.
    pub fn remove(&mut self, data: &T) -> (r: Result<T, StateError>)
        ensures
            match seq_position(old(self).items(), *data) {
                Some(i) => {
                    &&& r == Ok::<T, StateError>(*data)
                    &&& final(self).items() == old(self).items().remove(i)
                    &&& final(self).pending() == old(self).pending() + fan_out(
                        old(self).remove_listeners(),
                        old(self).remove_event(i, *data),
                    )
                },
                None => {
                    &&& r == Err::<T, StateError>(StateError::NotFound)
                    &&& final(self).items() == old(self).items()
                    &&& final(self).pending() == old(self).pending()
                },
            },
            final(self).same_wiring(old(self)),
            old(self).wf() ==> final(self).wf(),
    {
        match self.position(data) {
            Some(i) => self.remove_at(i),
            None => Err(StateError::NotFound),
        }
    }
}

/// The events that a queue delivers to the listener `name`, in order.
pub open spec fn deliveries_to<E>(q: Seq<(Seq<char>, E)>, name: Seq<char>) -> Seq<E>
    decreases q.len(),
{
    if q.len() == 0 {
        Seq::empty()
    } else {
        let rest = deliveries_to(q.drop_last(), name);
        if q.last().0 == name {
            rest.push(q.last().1)
        } else {
            rest
        }
    }
}

proof fn lemma_deliveries_append<E>(a: Seq<(Seq<char>, E)>, b: Seq<(Seq<char>, E)>, name: Seq<char>)
    ensures
        deliveries_to(a + b, name) == deliveries_to(a, name) + deliveries_to(b, name),
    decreases b.len(),
{
    if b.len() == 0 {
        assert(a + b =~= a);
        assert(deliveries_to(a, name) + deliveries_to(b, name) =~= deliveries_to(a, name));
    } else {
        assert((a + b).drop_last() =~= a + b.drop_last());
        assert((a + b).last() == b.last());
        lemma_deliveries_append(a, b.drop_last(), name);
        if b.last().0 == name {
            assert(deliveries_to(a, name) + deliveries_to(b.drop_last(), name).push(b.last().1)
                =~= (deliveries_to(a, name) + deliveries_to(b.drop_last(), name)).push(
                b.last().1,
            ));
        }
    }
}

proof fn lemma_deliveries_fan_out<E>(names: Seq<Seq<char>>, event: E, name: Seq<char>)
    requires
        names.no_duplicates(),
    ensures
        deliveries_to(fan_out(names, event), name) == (if names.contains(name) {
            seq![event]
        } else {
            Seq::<E>::empty()
        }),
    decreases names.len(),
{
    if names.len() == 0 {
        assert(fan_out(names, event) =~= Seq::<(Seq<char>, E)>::empty());
    } else {
        let init = names.drop_last();
        assert(init.no_duplicates()) by {
            assert forall|i: int, j: int| 0 <= i < j < init.len() implies init[i] != init[j] by {
                assert(init[i] == names[i] && init[j] == names[j]);
            }
        }
        assert(fan_out(names, event).drop_last() =~= fan_out(init, event));
        lemma_deliveries_fan_out(init, event, name);
        if names.last() == name {
            assert(!init.contains(name)) by {
                if init.contains(name) {
                    let k = choose|k: int| 0 <= k < init.len() && init[k] == name;
                    assert(names[k] == names[names.len() - 1]);
                }
            }
            assert(names.contains(name)) by {
                assert(names[names.len() - 1] == name);
            }
            assert(Seq::<E>::empty().push(event) =~= seq![event]);
        } else {
            assert(names.contains(name) == init.contains(name)) by {
                if names.contains(name) {
                    let k = choose|k: int| 0 <= k < names.len() && names[k] == name;
                    assert(k < names.len() - 1);
                    assert(init[k] == name);
                }
                if init.contains(name) {
                    let k = choose|k: int| 0 <= k < init.len() && init[k] == name;
                    assert(names[k] == name);
                }
            }
        }
    }
}

/// Scheduling one change delivers it exactly once to every registered
/// listener, after everything that was scheduled before: each `set` on a
/// cell appends, for a listener `name` of that cell, one delivery carrying
/// the installed value, and none for a name that is not registered.
pub proof fn lemma_notification_completeness<E>(
    queue: Seq<(Seq<char>, E)>,
    names: Seq<Seq<char>>,
    event: E,
    name: Seq<char>,
)
    requires
        names.no_duplicates(),
    ensures
        names.contains(name) ==> deliveries_to(queue + fan_out(names, event), name) == deliveries_to(
            queue,
            name,
        ).push(event),
        !names.contains(name) ==> deliveries_to(queue + fan_out(names, event), name)
            == deliveries_to(queue, name),
{
    lemma_deliveries_append(queue, fan_out(names, event), name);
    lemma_deliveries_fan_out(names, event, name);
    assert(deliveries_to(queue, name) + seq![event] =~= deliveries_to(queue, name).push(event));
    assert(deliveries_to(queue, name) + Seq::<E>::empty() =~= deliveries_to(queue, name));
}

/// Registering and unregistering names keeps a registry free of repeats.
pub proof fn lemma_registry_stays_unique(names: Seq<Seq<char>>, name: Seq<char>)
    requires
        names.no_duplicates(),
    ensures
        with_name(names, name).no_duplicates(),
        without_name(names, name).no_duplicates(),
        !without_name(names, name).contains(name),
{
    if !names.contains(name) {
        let w = names.push(name);
        assert forall|i: int, j: int| 0 <= i < j < w.len() implies w[i] != w[j] by {
            if j == names.len() {
                assert(w[i] == names[i]);
            }
        }
    } else {
        let i = choose|i: int| 0 <= i < names.len() && names[i] == name
            && forall|j: int| 0 <= j < i ==> names[j] != name;
        let r = names.remove(i);
        assert forall|a: int, b: int| 0 <= a < b < r.len() implies r[a] != r[b] by {
            let a0 = if a >= i { a + 1 } else { a };
            let b0 = if b >= i { b + 1 } else { b };
            assert(r[a] == names[a0] && r[b] == names[b0]);
        }
        assert(!r.contains(name)) by {
            if r.contains(name) {
                let k = choose|k: int| 0 <= k < r.len() && r[k] == name;
                let k0 = if k >= i { k + 1 } else { k };
                assert(names[k0] == name);
            }
        }
    }
}

/// Delivered to map listeners: the entry under `key` went from `old_value`
/// to `new_value`; an absent side means no entry.
#[derive(Clone, Copy)]
pub struct StateMapEvent<K, V> {
    pub gadget: GadgetRef,
    pub key: K,
    pub old_value: Option<V>,
    pub new_value: Option<V>,
}

/// The keys of a list of entries, in order.
pub open spec fn keys_of<K, V>(entries: Seq<(K, V)>) -> Seq<K> {
    entries.map_values(|e: (K, V)| e.0)
}

/// The position of the entry under `key`, if any.
pub open spec fn key_position<K, V>(entries: Seq<(K, V)>, key: K) -> Option<int> {
    seq_position(keys_of(entries), key)
}

/// The value stored under `key`, if any.
pub open spec fn lookup<K, V>(entries: Seq<(K, V)>, key: K) -> Option<V> {
    match key_position(entries, key) {
        Some(i) => Some(entries[i].1),
        None => None,
    }
}

/// The entries after storing `value` under `key`: an existing entry keeps
/// its place, a new one goes last.
pub open spec fn with_entry<K, V>(entries: Seq<(K, V)>, key: K, value: V) -> Seq<(K, V)> {
    match key_position(entries, key) {
        Some(i) => entries.update(i, (key, value)),
        None => entries.push((key, value)),
    }
}

/// An observable map; each key has at most one entry, and entries keep the
/// order in which their keys first came.
pub struct StateMap<K, V> {
    data: Vec<(K, V)>,
    gadget: GadgetRef,
    listeners: Listeners,
    pending: Vec<Notification<StateMapEvent<K, V>>>,
}

impl<K: Copy + SameAs, V: Copy> StateMap<K, V> {
    /// No listener name is registered twice, and no key has two entries.
    pub open spec fn wf(&self) -> bool {
        &&& self.listeners().no_duplicates()
        &&& keys_of(self.entries()).no_duplicates()
    }

    pub closed spec fn entries(&self) -> Seq<(K, V)> {
        self.data@
    }

    /// The gadget that owns the cell.
    pub closed spec fn owner(&self) -> GadgetRef {
        self.gadget
    }

    pub closed spec fn listeners(&self) -> Seq<Seq<char>> {
        self.listeners@
    }

    /// The deliveries scheduled and not yet handed out, oldest first.
    pub closed spec fn pending(&self) -> Seq<(Seq<char>, StateMapEvent<K, V>)> {
        queue_view(self.pending@)
    }

    pub open spec fn event_for(&self, key: K, old_value: Option<V>, new_value: Option<V>) -> StateMapEvent<K, V> {
        StateMapEvent { gadget: self.owner(), key, old_value, new_value }
    }

    pub fn new(gadget: GadgetRef) -> (r: Self)
        ensures
            r.entries() == Seq::<(K, V)>::empty(),
            r.owner() == gadget,
            r.listeners() == Seq::<Seq<char>>::empty(),
            r.pending() == Seq::<(Seq<char>, StateMapEvent<K, V>)>::empty(),
            r.wf(),
    {
        let r = StateMap { data: Vec::new(), gadget, listeners: Listeners::new(), pending: Vec::new() };
        proof {
            assert(r.pending() =~= Seq::<(Seq<char>, StateMapEvent<K, V>)>::empty());
        }
        r
    }

    pub fn len(&self) -> (r: usize)
        ensures
            r == self.entries().len(),
    {
        self.data.len()
    }

    fn find(&self, key: &K) -> (r: Option<usize>)
        ensures
            match r {
                Some(i) => {
                    &&& i < self.entries().len()
                    &&& key_position(self.entries(), *key) == Some(i as int)
                    &&& keys_of(self.entries())[i as int] == *key
                },
                None => key_position(self.entries(), *key) is None && !keys_of(
                    self.entries(),
                ).contains(*key),
            },
    {
        let ghost keys = self.data@.map_values(|e: (K, V)| e.0);
        let mut i: usize = 0;
        while i < self.data.len()
            invariant
                i <= self.data@.len(),
                keys == self.data@.map_values(|e: (K, V)| e.0),
                forall|j: int| 0 <= j < i ==> keys[j] != *key,
            decreases self.data.len() - i,
        {
            if self.data[i].0.same_as(key) {
                proof {
                    lemma_seq_position(keys, *key, i as int);
                }
                return Some(i);
            }
            i += 1;
        }
        proof {
            assert(!keys.contains(*key));
        }
        None
    }

    /// The value under `key`, if any.
    pub fn get(&self, key: &K) -> (r: Option<V>)
        ensures
            r == lookup(self.entries(), *key),
    {
        match self.find(key) {
            Some(i) => Some(self.data[i].1),
            None => None,
        }
    }

    /// Stores `value` under `key` and reports the old and the new value.
    pub fn set(&mut self, key: K, value: V)
        ensures
            final(self).entries() == with_entry(old(self).entries(), key, value),
            lookup(final(self).entries(), key) == Some(value),
            final(self).owner() == old(self).owner(),
            final(self).listeners() == old(self).listeners(),
            final(self).pending() == old(self).pending() + fan_out(
                old(self).listeners(),
                old(self).event_for(key, lookup(old(self).entries(), key), Some(value)),
            ),
            old(self).wf() ==> final(self).wf(),
    {
        let ghost e0 = self.data@;
        let old_value = match self.find(&key) {
            Some(i) => {
                let o = self.data[i].1;
                self.data.set(i, (key, value));
                proof {
                    assert(keys_of(self.data@) =~= keys_of(e0));
                }
                Some(o)
            },
            None => {
                self.data.push((key, value));
                proof {
                    let k0 = keys_of(e0);
                    let k1 = keys_of(self.data@);
                    assert(k1 =~= k0.push(key));
                    assert forall|j: int| 0 <= j < k0.len() implies k1[j] != key by {
                        assert(k1[j] == k0[j]);
                    }
                    lemma_seq_position(k1, key, k0.len() as int);
                    assert forall|x: int, y: int| 0 <= x < y < k1.len() && k0.no_duplicates()
                        implies k1[x] != k1[y] by {
                        if y == k0.len() {
                            assert(k1[x] == k0[x]);
                        }
                    }
                }
                None
            },
        };
        self.notify(key, old_value, Some(value));
    }

    /// Removes the entry under `key`, reporting the value it held;
    /// `NotFound`, with nothing reported, if there is none.
    pub fn remove(&mut self, key: &K) -> (r: Result<V, StateError>)
        ensures
            match key_position(old(self).entries(), *key) {
                Some(i) => {
                    &&& r == Ok::<V, StateError>(old(self).entries()[i].1)
                    &&& final(self).entries() == old(self).entries().remove(i)
                    &&& final(self).pending() == old(self).pending() + fan_out(
                        old(self).listeners(),
                        old(self).event_for(*key, Some(old(self).entries()[i].1), None),
                    )
                },
                None => {
                    &&& r == Err::<V, StateError>(StateError::NotFound)
                    &&& final(self).entries() == old(self).entries()
                    &&& final(self).pending() == old(self).pending()
                },
            },
            final(self).owner() == old(self).owner(),
            final(self).listeners() == old(self).listeners(),
            old(self).wf() ==> final(self).wf(),
    {
        let ghost e0 = self.data@;
        match self.find(key) {
            Some(i) => {
                let (_, v) = self.data.remove(i);
                proof {
                    let k0 = keys_of(e0);
                    let k1 = keys_of(self.data@);
                    assert(k1 =~= k0.remove(i as int));
                    assert forall|x: int, y: int| 0 <= x < y < k1.len() && k0.no_duplicates()
                        implies k1[x] != k1[y] by {
                        let x0 = if x >= i { x + 1 } else { x };
                        let y0 = if y >= i { y + 1 } else { y };
                        assert(k1[x] == k0[x0] && k1[y] == k0[y0]);
                    }
                }
                self.notify(*key, Some(v), None);
                Ok(v)
            },
            None => Err(StateError::NotFound),
        }
    }

    /// Schedules a delivery to every listener; the contents stay.
    pub fn notify(&mut self, key: K, old_value: Option<V>, new_value: Option<V>)
        ensures
            final(self).entries() == old(self).entries(),
            final(self).owner() == old(self).owner(),
            final(self).listeners() == old(self).listeners(),
            final(self).pending() == old(self).pending() + fan_out(
                old(self).listeners(),
                old(self).event_for(key, old_value, new_value),
            ),
            old(self).wf() ==> final(self).wf(),
    {
        let event = StateMapEvent { gadget: self.gadget, key, old_value, new_value };
        self.listeners.schedule(&mut self.pending, event);
    }

    /// Registers a listener under `name`; returns whether the name was new.
    pub fn listen(&mut self, name: &str) -> (r: bool)
        ensures
            r == !old(self).listeners().contains(name@),
            final(self).listeners() == with_name(old(self).listeners(), name@),
            final(self).entries() == old(self).entries(),
            final(self).owner() == old(self).owner(),
            final(self).pending() == old(self).pending(),
            old(self).wf() ==> final(self).wf(),
    {
        self.listeners.add(name.to_owned())
    }

    /// Unregisters the listener named `name`, if any.
    pub fn remove_listener(&mut self, name: &str)
        ensures
            final(self).listeners() == without_name(old(self).listeners(), name@),
            final(self).entries() == old(self).entries(),
            final(self).owner() == old(self).owner(),
            final(self).pending() == old(self).pending(),
            old(self).wf() ==> final(self).wf(),
    {
        self.listeners.remove(&name.to_owned());
    }

    /// Hands out the scheduled deliveries, oldest first.
    pub fn take_pending(&mut self) -> (r: Vec<Notification<StateMapEvent<K, V>>>)
        ensures
            queue_view(r@) == old(self).pending(),
            final(self).pending() == Seq::<(Seq<char>, StateMapEvent<K, V>)>::empty(),
            final(self).entries() == old(self).entries(),
            final(self).owner() == old(self).owner(),
            final(self).listeners() == old(self).listeners(),
            old(self).wf() ==> final(self).wf(),
    {
        let mut r = Vec::new();
        std::mem::swap(&mut r, &mut self.pending);
        proof {
            assert(self.pending() =~= Seq::<(Seq<char>, StateMapEvent<K, V>)>::empty());
        }
        r
    }
}

/// Two `set`s in a row on a cell reach each of its listeners as two
/// deliveries, carrying the two installed values in program order. The
/// requirements are what `State::set` ensures of each call.
pub proof fn lemma_two_sets_in_order<T: Copy>(
    c0: State<T>,
    c1: State<T>,
    c2: State<T>,
    v1: T,
    v2: T,
    name: Seq<char>,
)
    requires
        c0.wf(),
        c0.listeners().contains(name),
        c1.listeners() == c0.listeners(),
        c1.owner() == c0.owner(),
        c1.pending() == c0.pending() + fan_out(c0.listeners(), c0.event_for(v1)),
        c2.pending() == c1.pending() + fan_out(c1.listeners(), c1.event_for(v2)),
    ensures
        deliveries_to(c2.pending(), name) == deliveries_to(c0.pending(), name).push(
            c0.event_for(v1),
        ).push(c0.event_for(v2)),
{
    lemma_notification_completeness(c0.pending(), c0.listeners(), c0.event_for(v1), name);
    lemma_notification_completeness(c1.pending(), c1.listeners(), c1.event_for(v2), name);
}

} // verus!
