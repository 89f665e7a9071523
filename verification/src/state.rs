use vstd::prelude::*;
use crate::batching::BatchGate;
use std::collections::HashMap;
use crate::id_map::{ids_below, move_all, call_all};
use crate::scheduler::Scheduler;

verus! {

broadcast use vstd::std_specs::hash::group_hash_axioms;

/// Holds the value of a state and hands it to readers and writers.
pub struct StateAccessor<T> {
    value: T,
}

impl<T> StateAccessor<T> {
    pub closed spec fn value(&self) -> T {
        self.value
    }

    pub fn new(value: T) -> (a: Self)
        ensures
            a.value() == value,
    {
        StateAccessor { value }
    }

    /// Calls `callback` with the value and returns what it returns.
    pub fn with<W: FnOnce(&T) -> M, M>(&self, callback: W) -> (m: M)
        requires
            callback.requires((&self.value(),)),
        ensures
            callback.ensures((&self.value(),), m),
    {
        callback(&self.value)
    }

    /// The value, borrowed.
    pub fn borrow(&self) -> (r: &T)
        ensures
            *r == self.value(),
    {
        &self.value
    }

    /// A clone of the value.
    pub fn get(&self) -> (v: T)
        where
            T: Clone,
        ensures
            cloned(self.value(), v),
    {
        self.value.clone()
    }

    /// Replaces the value.
    pub fn set(&mut self, value: T)
        ensures
            final(self).value() == value,
    {
        self.value = value;
    }

    /// Replaces the value with what `callback` makes of it.
    pub fn update<W: FnOnce(&T) -> T>(&mut self, callback: W)
        requires
            callback.requires((&old(self).value(),)),
        ensures
            callback.ensures((&old(self).value(),), final(self).value()),
    {
        let v = callback(&self.value);
        self.value = v;
    }
}

/// Hands out ids that were never handed out before.
pub struct IdCounter {
    next: usize,
}

impl IdCounter {
    /// The next id to hand out; every id handed out so far is smaller.
    pub closed spec fn next(&self) -> usize {
        self.next
    }

    pub fn new() -> (c: Self)
        ensures
            c.next() == 0,
    {
        IdCounter { next: 0 }
    }

    /// Whether another id can be handed out.
    pub fn can_issue(&self) -> (b: bool)
        ensures
            b == (self.next() < usize::MAX),
    {
        self.next < usize::MAX
    }

    /// A fresh id: larger than every id handed out before.
    pub fn next_id(&mut self) -> (id: usize)
        requires
            old(self).next() < usize::MAX,
        ensures
            id_effect(*old(self), *final(self), id),
    {
        let id = self.next;
        self.next = id + 1;
        id
    }
}

/// What handing out an id does: the id is the counter's next one, and the
/// counter moves past it.
pub open spec fn id_effect(c0: IdCounter, c1: IdCounter, id: usize) -> bool {
    &&& id == c0.next()
    &&& c1.next() == c0.next() + 1
}

/// Two ids handed out one after the other differ: the later is larger.
pub proof fn law_ids_increase(c0: IdCounter, c1: IdCounter, c2: IdCounter, id1: usize, id2: usize)
    requires
        id_effect(c0, c1, id1),
        id_effect(c1, c2, id2),
    ensures
        id1 < id2,
{
}

/// A fresh id for a subscription.
pub fn new_subscription_id(counter: &mut IdCounter) -> (id: usize)
    requires
        old(counter).next() < usize::MAX,
    ensures
        id_effect(*old(counter), *final(counter), id),
{
    counter.next_id()
}

/// Whether a change must be followed by a notification when the scheduler's
/// counter reads `pass`: only the first change at each count asks for one.
pub open spec fn notify_effect<T, C>(c0: StateCell<T, C>, pass: u64, c1: StateCell<T, C>, needed: bool) -> bool {
    &&& needed == (pass != c0.last_pass())
    &&& c1.last_pass() == pass
}

/// Changes made while the scheduler's counter stays put ask for one
/// notification between them: subscribers see the latest value once.
pub proof fn law_one_notification_per_count<T, C>(
    c0: StateCell<T, C>,
    c1: StateCell<T, C>,
    c2: StateCell<T, C>,
    pass: u64,
    n1: bool,
    n2: bool,
)
    requires
        notify_effect(c0, pass, c1, n1),
        notify_effect(c1, pass, c2, n2),
    ensures
        !n2,
{
}

/// A value that can be watched: the value, the callbacks that watch it
/// (under their subscription ids) and a gate that lets one notification
/// through per scheduler pass.
pub struct StateCell<T, C> {
    frame_gate: BatchGate,
    state: StateAccessor<T>,
    subscribers: HashMap<usize, C>,
}

impl<T, C> StateCell<T, C> {
    pub closed spec fn value(&self) -> T {
        self.state.value()
    }

    pub closed spec fn subscribers(&self) -> Map<usize, C> {
        self.subscribers@
    }

    /// The last pass in which a notification went through.
    pub closed spec fn last_pass(&self) -> u64 {
        self.frame_gate.last_pass()
    }

    pub fn new(state: T) -> (c: Self)
        ensures
            c.value() == state,
            c.subscribers() == Map::<usize, C>::empty(),
            c.last_pass() == 0,
    {
        StateCell { frame_gate: BatchGate::new(), state: StateAccessor::new(state), subscribers: HashMap::new() }
    }

    /// The value, for readers.
    pub fn state(&self) -> (a: &StateAccessor<T>)
        ensures
            a.value() == self.value(),
    {
        &self.state
    }

    /// Whether the subscribers must be notified of a change: once per pass
    /// of `scheduler`. When true, the caller schedules the notification.
    pub fn notify_subscribers_if_needed<F>(&mut self, scheduler: &Scheduler<F>) -> (needed: bool)
        ensures
            notify_effect(*old(self), scheduler.pass(), *final(self), needed),
            final(self).value() == old(self).value(),
            final(self).subscribers() == old(self).subscribers(),
    {
        self.frame_gate.should_run(scheduler)
    }

    /// Replaces the value; the result says whether to schedule a notification.
    pub fn replace_value<F>(&mut self, value: T, scheduler: &Scheduler<F>) -> (needed: bool)
        ensures
            final(self).value() == value,
            final(self).subscribers() == old(self).subscribers(),
            notify_effect(*old(self), scheduler.pass(), *final(self), needed),
    {
        self.state.set(value);
        self.notify_subscribers_if_needed(scheduler)
    }

    /// Registers `callback` under `id`.
    pub fn add_subscriber(&mut self, id: usize, callback: C)
        ensures
            final(self).subscribers() == old(self).subscribers().insert(id, callback),
            final(self).value() == old(self).value(),
            final(self).last_pass() == old(self).last_pass(),
    {
        self.subscribers.insert(id, callback);
    }

    /// Unregisters the callback under `id`, handing it back.
    pub fn remove_subscriber(&mut self, id: usize) -> (removed: Option<C>)
        ensures
            final(self).subscribers() == old(self).subscribers().remove(id),
            removed is Some <==> old(self).subscribers().contains_key(id),
            removed matches Some(c) ==> c == old(self).subscribers()[id],
            final(self).value() == old(self).value(),
            final(self).last_pass() == old(self).last_pass(),
    {
        self.subscribers.remove(&id)
    }

    /// Starts a notification: takes the callbacks out, so that callbacks
    /// that subscribe while the notification runs are kept apart.
    pub fn take_subscribers(&mut self) -> (taken: HashMap<usize, C>)
        ensures
            taken@ == old(self).subscribers(),
            final(self).subscribers() == Map::<usize, C>::empty(),
            final(self).value() == old(self).value(),
            final(self).last_pass() == old(self).last_pass(),
    {
        let mut taken: HashMap<usize, C> = HashMap::new();
        std::mem::swap(&mut taken, &mut self.subscribers);
        taken
    }

    /// Ends a notification: puts the taken callbacks back, together with
    /// those that subscribed meanwhile (which win under a shared id).
    pub fn restore_subscribers(&mut self, taken: HashMap<usize, C>)
        ensures
            final(self).subscribers() == taken@.union_prefer_right(old(self).subscribers()),
            final(self).value() == old(self).value(),
            final(self).last_pass() == old(self).last_pass(),
    {
        let mut added: HashMap<usize, C> = taken;
        std::mem::swap(&mut added, &mut self.subscribers);
        move_all(&mut self.subscribers, added);
    }
}

/// Tells subscribers taken out of a state (by `take_subscribers`) of its
/// value: calls each with `state`.
pub fn notify_subscribers<T, C: Fn(&StateAccessor<T>)>(subscribers: &HashMap<usize, C>, state: &StateAccessor<T>)
    requires
        forall|id: usize| #[trigger] subscribers@.contains_key(id) ==> subscribers@[id].requires((state,)),
    ensures
        forall|id: usize| #[trigger] subscribers@.contains_key(id) ==> subscribers@[id].ensures((state,), ()),
{
    call_all(subscribers, state)
}

/// A notification tells every subscriber and loses none. It takes the
/// subscribers `taken` out of a cell (`take_subscribers`, from a cell
/// `before`), calls each with the cell's value `state` as it is when the
/// notification runs (`notify_subscribers`), during which the callbacks may
/// subscribe `added` under ids handed out later (from `bound` on), and puts
/// them back (`restore_subscribers`), leaving the subscribers `after`. Then
/// every taken subscriber was told `state` and is still there, unchanged;
/// every added one is there too; and there is no other.
pub proof fn law_notification_tells_all_and_keeps_all<T, C: Fn(&StateAccessor<T>)>(
    before: StateCell<T, C>,
    taken: Map<usize, C>,
    added: Map<usize, C>,
    after: Map<usize, C>,
    state: StateAccessor<T>,
    bound: int,
)
    requires
        taken == before.subscribers(),
        ids_below(taken, bound),
        forall|id: usize| #[trigger] added.contains_key(id) ==> bound <= id,
        forall|id: usize| #[trigger] taken.contains_key(id) ==> taken[id].ensures((&state,), ()),
        after == taken.union_prefer_right(added),
    ensures
        forall|id: usize|
            #[trigger] before.subscribers().contains_key(id) ==> {
                &&& after.contains_key(id)
                &&& after[id] == before.subscribers()[id]
                &&& after[id].ensures((&state,), ())
            },
        forall|id: usize| #[trigger] added.contains_key(id) ==> after.contains_key(id) && after[id] == added[id],
        forall|id: usize|
            #[trigger] after.contains_key(id) ==> before.subscribers().contains_key(id) || added.contains_key(id),
{
    crate::id_map::law_restore_keeps_added(taken, added, bound);
}

/// Names one state of a `StateHolder`. It keeps naming it only as long as
/// the holder keeps its states; once they are gone, every use returns `None`.
#[derive(Clone, Copy)]
pub struct StateHandle {
    index: usize,
}

/// Owns the states made for one part of the interface.
pub struct StateHolder<T, C> {
    states: Vec<StateCell<T, C>>,
    ids: IdCounter,
}

impl<T, C> StateHolder<T, C> {
    pub closed spec fn cells(&self) -> Seq<StateCell<T, C>> {
        self.states@
    }

    /// The subscription id handed out next.
    pub closed spec fn next_subscription(&self) -> usize {
        self.ids.next()
    }

    /// The subscription ids of every state were handed out by this holder:
    /// they are below the next one.
    pub open spec fn wf(&self) -> bool {
        forall|i: int|
            0 <= i < self.cells().len() ==> ids_below(
                (#[trigger] self.cells()[i]).subscribers(),
                self.next_subscription() as int,
            )
    }

    pub fn new() -> (h: Self)
        ensures
            h.wf(),
            h.cells().len() == 0,
            h.next_subscription() == 0,
    {
        StateHolder { states: Vec::new(), ids: IdCounter::new() }
    }

    /// Whether another subscription id can be handed out.
    pub fn can_subscribe(&self) -> (b: bool)
        ensures
            b == (self.next_subscription() < usize::MAX),
    {
        self.ids.can_issue()
    }

    /// A new state with value `value`, owned by this holder.
    pub fn state(&mut self, value: T) -> (handle: StateHandle)
        requires
            old(self).wf(),
        ensures
            final(self).wf(),
            handle.index() == old(self).cells().len(),
            final(self).cells().len() == old(self).cells().len() + 1,
            final(self).cells().subrange(0, old(self).cells().len() as int) == old(self).cells(),
            final(self).cells()[handle.index() as int].value() == value,
            final(self).cells()[handle.index() as int].subscribers() == Map::<usize, C>::empty(),
            final(self).cells()[handle.index() as int].last_pass() == 0,
            final(self).next_subscription() == old(self).next_subscription(),
    {
        let index = self.states.len();
        self.states.push(StateCell::new(value));
        proof {
            assert(self.states@.subrange(0, index as int) =~= old(self).states@);
            assert forall|i: int| 0 <= i < self.cells().len() implies ids_below(
                (#[trigger] self.cells()[i]).subscribers(),
                self.next_subscription() as int,
            ) by {
                if i < index {
                    assert(self.states@[i] == old(self).states@[i]);
                    assert(ids_below(old(self).cells()[i].subscribers(), old(self).next_subscription() as int));
                } else {
                    assert(self.cells()[i].subscribers() == Map::<usize, C>::empty());
                }
            }
        }
        StateHandle { index }
    }

    /// Drops every state, as happens when the part of the interface that owns
    /// them goes away: handles to them stop working.
    pub fn release(&mut self)
        ensures
            final(self).wf(),
            final(self).cells().len() == 0,
            final(self).next_subscription() == old(self).next_subscription(),
    {
        self.states = Vec::new();
    }

    /// The number of states held.
    pub fn len(&self) -> (n: usize)
        ensures
            n == self.cells().len(),
    {
        self.states.len()
    }
}

/// Once the holder has dropped its states, no handle names a state: every
/// use of a handle returns `None`.
pub proof fn law_released_states_are_gone<T, C>(holder: StateHolder<T, C>, handle: StateHandle)
    requires
        holder.cells().len() == 0,
    ensures
        !handle.alive(holder),
{
}

impl StateHandle {
    pub closed spec fn index(&self) -> usize {
        self.index
    }

    /// Whether the handle names a state that `holder` still owns.
    pub open spec fn alive<T, C>(&self, holder: StateHolder<T, C>) -> bool {
        self.index() < holder.cells().len()
    }

    /// The state, if it is still there.
    pub fn get<'a, T, C>(&self, holder: &'a StateHolder<T, C>) -> (cell: Option<&'a StateCell<T, C>>)
        ensures
            cell is Some <==> self.alive(*holder),
            cell is Some ==> *cell->0 == holder.cells()[self.index() as int],
    {
        if self.index < holder.states.len() {
            Some(&holder.states[self.index])
        } else {
            None
        }
    }

    /// Calls `callback` with the value, if the state is still there.
    pub fn with<T, C, W: FnOnce(&T) -> D, D>(&self, holder: &StateHolder<T, C>, callback: W) -> (r: Option<D>)
        requires
            self.alive(*holder) ==> callback.requires((&holder.cells()[self.index() as int].value(),)),
        ensures
            r is Some <==> self.alive(*holder),
            r matches Some(d) ==> callback.ensures((&holder.cells()[self.index() as int].value(),), d),
    {
        if self.index < holder.states.len() {
            Some(holder.states[self.index].state().with(callback))
        } else {
            None
        }
    }

    /// Sets the value, if the state is still there. `Some(true)` asks the
    /// caller to schedule a notification of its subscribers (once per pass).
    pub fn set<T, C, F>(&self, holder: &mut StateHolder<T, C>, value: T, scheduler: &Scheduler<F>) -> (r: Option<bool>)
        requires
            old(holder).wf(),
        ensures
            final(holder).wf(),
            r is Some <==> self.alive(*old(holder)),
            final(holder).cells().len() == old(holder).cells().len(),
            final(holder).next_subscription() == old(holder).next_subscription(),
            forall|i: int|
                0 <= i < old(holder).cells().len() && i != self.index() ==> final(holder).cells()[i]
                    == old(holder).cells()[i],
            r matches Some(needed) ==> {
                let before = old(holder).cells()[self.index() as int];
                let after = final(holder).cells()[self.index() as int];
                &&& after.value() == value
                &&& after.subscribers() == before.subscribers()
                &&& needed == (scheduler.pass() != before.last_pass())
                &&& after.last_pass() == scheduler.pass()
            },
            r is None ==> *final(holder) == *old(holder),
    {
        if self.index < holder.states.len() {
            let i = self.index;
            let needed = holder.states[i].replace_value(value, scheduler);
            proof {
                assert forall|k: int| 0 <= k < holder.cells().len() implies ids_below(
                    (#[trigger] holder.cells()[k]).subscribers(),
                    holder.next_subscription() as int,
                ) by {
                    if k != i {
                        assert(holder.cells()[k] == old(holder).cells()[k]);
                    }
                }
            }
            Some(needed)
        } else {
            None
        }
    }

    /// Registers `callback` under a fresh subscription id of the holder, if
    /// the state is still there, and returns the id. The caller first calls
    /// `callback` once with the current value.
    pub fn subscribe<T, C>(&self, holder: &mut StateHolder<T, C>, callback: C) -> (r: Option<usize>)
        requires
            old(holder).wf(),
            self.alive(*old(holder)) ==> old(holder).next_subscription() < usize::MAX,
        ensures
            final(holder).wf(),
            r is Some <==> self.alive(*old(holder)),
            final(holder).cells().len() == old(holder).cells().len(),
            forall|i: int|
                0 <= i < old(holder).cells().len() && i != self.index() ==> final(holder).cells()[i]
                    == old(holder).cells()[i],
            r matches Some(id) ==> {
                let before = old(holder).cells()[self.index() as int];
                let after = final(holder).cells()[self.index() as int];
                &&& id == old(holder).next_subscription()
                &&& !before.subscribers().contains_key(id)
                &&& final(holder).next_subscription() == old(holder).next_subscription() + 1
                &&& after.subscribers() == before.subscribers().insert(id, callback)
                &&& after.value() == before.value()
                &&& after.last_pass() == before.last_pass()
            },
            r is None ==> *final(holder) == *old(holder),
    {
        if self.index < holder.states.len() {
            let i = self.index;
            let ghost h0 = *holder;
            let id = new_subscription_id(&mut holder.ids);
            holder.states[i].add_subscriber(id, callback);
            proof {
                assert(ids_below(h0.cells()[i as int].subscribers(), h0.next_subscription() as int));
                assert forall|k: int| 0 <= k < holder.cells().len() implies ids_below(
                    (#[trigger] holder.cells()[k]).subscribers(),
                    holder.next_subscription() as int,
                ) by {
                    if k != i {
                        assert(holder.cells()[k] == h0.cells()[k]);
                        assert(ids_below(h0.cells()[k].subscribers(), h0.next_subscription() as int));
                    } else {
                        assert(ids_below(h0.cells()[k].subscribers(), h0.next_subscription() as int));
                    }
                }
            }
            Some(id)
        } else {
            None
        }
    }

    /// Starts notifying the subscribers, if the state is still there: takes
    /// them out (see `StateCell::take_subscribers`).
    pub fn take_subscribers<T, C>(&self, holder: &mut StateHolder<T, C>) -> (r: Option<HashMap<usize, C>>)
        requires
            old(holder).wf(),
        ensures
            final(holder).wf(),
            r is Some <==> self.alive(*old(holder)),
            final(holder).cells().len() == old(holder).cells().len(),
            final(holder).next_subscription() == old(holder).next_subscription(),
            forall|i: int|
                0 <= i < old(holder).cells().len() && i != self.index() ==> final(holder).cells()[i]
                    == old(holder).cells()[i],
            r matches Some(taken) ==> {
                let before = old(holder).cells()[self.index() as int];
                let after = final(holder).cells()[self.index() as int];
                &&& taken@ == before.subscribers()
                &&& ids_below(taken@, final(holder).next_subscription() as int)
                &&& after.subscribers() == Map::<usize, C>::empty()
                &&& after.value() == before.value()
                &&& after.last_pass() == before.last_pass()
            },
            r is None ==> *final(holder) == *old(holder),
    {
        if self.index < holder.states.len() {
            let i = self.index;
            let ghost h0 = *holder;
            let taken = holder.states[i].take_subscribers();
            proof {
                assert(ids_below(h0.cells()[i as int].subscribers(), h0.next_subscription() as int));
                assert forall|k: int| 0 <= k < holder.cells().len() implies ids_below(
                    (#[trigger] holder.cells()[k]).subscribers(),
                    holder.next_subscription() as int,
                ) by {
                    if k != i {
                        assert(holder.cells()[k] == h0.cells()[k]);
                    }
                }
            }
            Some(taken)
        } else {
            None
        }
    }

    /// Ends notifying the subscribers, if the state is still there: puts the
    /// taken ones back, together with those that subscribed meanwhile.
    pub fn restore_subscribers<T, C>(&self, holder: &mut StateHolder<T, C>, taken: HashMap<usize, C>) -> (r: Option<()>)
        requires
            old(holder).wf(),
            ids_below(taken@, old(holder).next_subscription() as int),
        ensures
            final(holder).wf(),
            r is Some <==> self.alive(*old(holder)),
            final(holder).cells().len() == old(holder).cells().len(),
            final(holder).next_subscription() == old(holder).next_subscription(),
            forall|i: int|
                0 <= i < old(holder).cells().len() && i != self.index() ==> final(holder).cells()[i]
                    == old(holder).cells()[i],
            r is Some ==> {
                let before = old(holder).cells()[self.index() as int];
                let after = final(holder).cells()[self.index() as int];
                &&& after.subscribers() == taken@.union_prefer_right(before.subscribers())
                &&& after.value() == before.value()
                &&& after.last_pass() == before.last_pass()
            },
            r is None ==> *final(holder) == *old(holder),
    {
        if self.index < holder.states.len() {
            let i = self.index;
            let ghost h0 = *holder;
            let ghost t = taken@;
            holder.states[i].restore_subscribers(taken);
            proof {
                assert(ids_below(h0.cells()[i as int].subscribers(), h0.next_subscription() as int));
                assert forall|k: int| 0 <= k < holder.cells().len() implies ids_below(
                    (#[trigger] holder.cells()[k]).subscribers(),
                    holder.next_subscription() as int,
                ) by {
                    if k != i {
                        assert(holder.cells()[k] == h0.cells()[k]);
                    } else {
                        let m = t.union_prefer_right(h0.cells()[i as int].subscribers());
                        assert forall|id: usize| #[trigger] m.contains_key(id) implies id
                            < holder.next_subscription() as int by {
                            if t.contains_key(id) {
                            } else {
                                assert(h0.cells()[i as int].subscribers().contains_key(id));
                            }
                        }
                    }
                }
            }
            Some(())
        } else {
            None
        }
    }

    /// Unregisters subscription `id`, if the state is still there.
    pub fn unsubscribe<T, C>(&self, holder: &mut StateHolder<T, C>, id: usize) -> (r: Option<()>)
        requires
            old(holder).wf(),
        ensures
            final(holder).wf(),
            r is Some <==> self.alive(*old(holder)),
            final(holder).cells().len() == old(holder).cells().len(),
            final(holder).next_subscription() == old(holder).next_subscription(),
            forall|i: int|
                0 <= i < old(holder).cells().len() && i != self.index() ==> final(holder).cells()[i]
                    == old(holder).cells()[i],
            r is Some ==> {
                let before = old(holder).cells()[self.index() as int];
                let after = final(holder).cells()[self.index() as int];
                &&& after.subscribers() == before.subscribers().remove(id)
                &&& after.value() == before.value()
                &&& after.last_pass() == before.last_pass()
            },
            r is None ==> *final(holder) == *old(holder),
    {
        if self.index < holder.states.len() {
            let i = self.index;
            let ghost h0 = *holder;
            let _ = holder.states[i].remove_subscriber(id);
            proof {
                assert(ids_below(h0.cells()[i as int].subscribers(), h0.next_subscription() as int));
                assert forall|k: int| 0 <= k < holder.cells().len() implies ids_below(
                    (#[trigger] holder.cells()[k]).subscribers(),
                    holder.next_subscription() as int,
                ) by {
                    if k != i {
                        assert(holder.cells()[k] == h0.cells()[k]);
                    }
                }
            }
            Some(())
        } else {
            None
        }
    }
}

/// Undoes a subscription: `on_drop` unregisters it. It runs once, later,
/// when the main loop is idle.
pub struct Subscription<D> {
    on_drop: Option<D>,
}

impl<D> Subscription<D> {
    pub closed spec fn on_drop(&self) -> Option<D> {
        self.on_drop
    }

    pub fn new(on_drop: D) -> (s: Self)
        ensures
            s.on_drop() == Some(on_drop),
    {
        Subscription { on_drop: Some(on_drop) }
    }

    /// Hands out the undo work, to be queued on the main loop; a second call
    /// finds nothing.
    pub fn unsubscribe(&mut self) -> (work: Option<D>)
        ensures
            unsubscribe_effect(*old(self), *final(self), work),
    {
        let mut work: Option<D> = None;
        std::mem::swap(&mut work, &mut self.on_drop);
        work
    }
}

/// What `unsubscribe` does: it hands out the undo work that was left, if
/// any, and leaves none.
pub open spec fn unsubscribe_effect<D>(s0: Subscription<D>, s1: Subscription<D>, work: Option<D>) -> bool {
    &&& work == s0.on_drop()
    &&& s1.on_drop() is None
}

/// Call `k` of a series of `unsubscribe` calls.
pub open spec fn unsubscribe_at<D>(subs: Seq<Subscription<D>>, work: Seq<Option<D>>, k: int) -> bool {
    unsubscribe_effect(subs[k], subs[k + 1], work[k])
}

/// The undo work of a subscription is handed out exactly once, by the first
/// `unsubscribe`, however many calls follow (as when the subscription is
/// dropped after being ended): `subs[k + 1]` is `subs[k]` after the `k`-th
/// call, which handed out `work[k]`.
pub proof fn law_undo_handed_out_once<D>(subs: Seq<Subscription<D>>, work: Seq<Option<D>>, on_drop: D)
    requires
        subs.len() == work.len() + 1,
        work.len() >= 1,
        subs[0].on_drop() == Some(on_drop),
        forall|k: int| 0 <= k < work.len() ==> #[trigger] unsubscribe_at(subs, work, k),
    ensures
        work[0] == Some(on_drop),
        forall|k: int| 1 <= k < work.len() ==> #[trigger] work[k] is None,
        forall|k: int| 1 <= k < subs.len() ==> (#[trigger] subs[k]).on_drop() is None,
{
    assert(unsubscribe_at(subs, work, 0));
    assert forall|k: int| 1 <= k < subs.len() implies (#[trigger] subs[k]).on_drop() is None by {
        assert(unsubscribe_at(subs, work, k - 1));
    }
    assert forall|k: int| 1 <= k < work.len() implies #[trigger] work[k] is None by {
        assert(unsubscribe_at(subs, work, k));
        assert(unsubscribe_at(subs, work, k - 1));
    }
}

/// Keeps the subscriptions of a widget alive as long as the widget.
pub struct SubscriptionHolder<S> {
    subscription: Vec<S>,
}

impl<S> SubscriptionHolder<S> {
    pub closed spec fn subscriptions(&self) -> Seq<S> {
        self.subscription@
    }

    pub fn new() -> (h: Self)
        ensures
            h.subscriptions().len() == 0,
    {
        SubscriptionHolder { subscription: Vec::new() }
    }

    pub fn attach_subscription(&mut self, subscription: S)
        ensures
            final(self).subscriptions() == old(self).subscriptions().push(subscription),
    {
        self.subscription.push(subscription);
    }
}

} // verus!

verus! {

/// A state derived from another by a map: the mapped value is cached and
/// recomputed at most once per scheduler pass.
pub struct MappedState<M, C> {
    cached: Option<StateAccessor<M>>,
    gate: BatchGate,
    map: C,
}

impl<M, C> MappedState<M, C> {
    pub closed spec fn cached_value(&self) -> Option<M> {
        match self.cached {
            Some(a) => Some(a.value()),
            None => None,
        }
    }

    pub closed spec fn map(&self) -> C {
        self.map
    }

    pub closed spec fn last_pass(&self) -> u64 {
        self.gate.last_pass()
    }

    /// Maps the current value of the source (`None` when the source state is gone).
    pub fn new<F>(source: Option<&F>, map: C) -> (m: Self)
        where
            C: Fn(&F) -> M,
        requires
            source matches Some(v) ==> map.requires((v,)),
        ensures
            m.map() == map,
            m.last_pass() == 0,
            m.cached_value() is Some <==> source is Some,
            source matches Some(v) ==> map.ensures((v,), m.cached_value()->0),
    {
        let cached = match source {
            Some(v) => Some(StateAccessor::new(map(v))),
            None => None,
        };
        MappedState { cached, gate: BatchGate::new(), map }
    }

    /// The source changed to `value`: recompute the cache, once per pass.
    pub fn apply_map<F, S>(&mut self, value: &F, scheduler: &Scheduler<S>)
        where
            C: Fn(&F) -> M,
        requires
            old(self).map().requires((value,)),
        ensures
            final(self).map() == old(self).map(),
            final(self).last_pass() == scheduler.pass(),
            scheduler.pass() != old(self).last_pass() ==> final(self).cached_value() is Some
                && old(self).map().ensures((value,), final(self).cached_value()->0),
            scheduler.pass() == old(self).last_pass() ==> final(self).cached_value()
                == old(self).cached_value(),
    {
        if self.gate.should_run(scheduler) {
            let m = (self.map)(value);
            self.cached = Some(StateAccessor::new(m));
        }
    }

    /// The cached value.
    pub fn cached(&self) -> (a: Option<&StateAccessor<M>>)
        ensures
            a is Some <==> self.cached_value() is Some,
            a matches Some(x) ==> x.value() == self.cached_value()->0,
    {
        match &self.cached {
            Some(x) => Some(x),
            None => None,
        }
    }

    /// Calls `callback` with the cached value, if there is one.
    pub fn with<W: FnOnce(&M) -> D, D>(&self, callback: W) -> (r: Option<D>)
        requires
            self.cached_value() matches Some(v) ==> callback.requires((&v,)),
        ensures
            r is Some <==> self.cached_value() is Some,
            r matches Some(d) ==> callback.ensures((&self.cached_value()->0,), d),
    {
        match &self.cached {
            Some(x) => Some(x.with(callback)),
            None => None,
        }
    }
}

} // verus!

verus! {

/// A state that can be written through a handle, given the holder `H` that
/// owns it. Both methods return `None` once the state is gone, and otherwise
/// whether a notification of its subscribers must be scheduled.
pub trait WriteState<T, H> {
    /// Whether `holder` is in a shape the handle can write to.
    spec fn holder_ok(&self, holder: H) -> bool;

    /// Replaces the value with what `callback` makes of it.
    fn edit<W: FnOnce(&T) -> T, F>(&self, holder: &mut H, callback: W, scheduler: &Scheduler<F>) -> (r: Option<bool>)
        requires
            self.holder_ok(*old(holder)),
            forall|v: &T| callback.requires((v,)),
        ensures
            self.holder_ok(*final(holder)),
    ;

    /// Sets the value.
    fn update<F>(&self, holder: &mut H, value: T, scheduler: &Scheduler<F>) -> (r: Option<bool>)
        requires
            self.holder_ok(*old(holder)),
        ensures
            self.holder_ok(*final(holder)),
    ;
}

/// A state that can be written (and, through its holder, read).
pub trait State<T, H>: WriteState<T, H> {}

impl<T, C> WriteState<T, StateHolder<T, C>> for StateHandle {
    open spec fn holder_ok(&self, holder: StateHolder<T, C>) -> bool {
        holder.wf()
    }

    /// Replaces the value with what `callback` makes of it, if the state is
    /// still there. `Some(true)` asks the caller to schedule a notification.
    fn edit<W: FnOnce(&T) -> T, F>(
        &self,
        holder: &mut StateHolder<T, C>,
        callback: W,
        scheduler: &Scheduler<F>,
    ) -> (r: Option<bool>)
        ensures
            r is Some <==> self.alive(*old(holder)),
            final(holder).cells().len() == old(holder).cells().len(),
            final(holder).next_subscription() == old(holder).next_subscription(),
            forall|i: int|
                0 <= i < old(holder).cells().len() && i != self.index() ==> final(holder).cells()[i]
                    == old(holder).cells()[i],
            r matches Some(needed) ==> {
                let before = old(holder).cells()[self.index() as int];
                let after = final(holder).cells()[self.index() as int];
                &&& callback.ensures((&before.value(),), after.value())
                &&& after.subscribers() == before.subscribers()
                &&& needed == (scheduler.pass() != before.last_pass())
                &&& after.last_pass() == scheduler.pass()
            },
            r is None ==> *final(holder) == *old(holder),
    {
        if self.index < holder.states.len() {
            let i = self.index;
            let v = holder.states[i].state().with(callback);
            let needed = holder.states[i].replace_value(v, scheduler);
            proof {
                assert forall|k: int| 0 <= k < holder.cells().len() implies ids_below(
                    (#[trigger] holder.cells()[k]).subscribers(),
                    holder.next_subscription() as int,
                ) by {
                    if k != i {
                        assert(holder.cells()[k] == old(holder).cells()[k]);
                    }
                }
            }
            Some(needed)
        } else {
            None
        }
    }

    /// Sets the value, as `set` does.
    fn update<F>(&self, holder: &mut StateHolder<T, C>, value: T, scheduler: &Scheduler<F>) -> (r: Option<bool>)
        ensures
            r is Some <==> self.alive(*old(holder)),
            final(holder).cells().len() == old(holder).cells().len(),
            final(holder).next_subscription() == old(holder).next_subscription(),
            forall|i: int|
                0 <= i < old(holder).cells().len() && i != self.index() ==> final(holder).cells()[i]
                    == old(holder).cells()[i],
            r matches Some(needed) ==> {
                let before = old(holder).cells()[self.index() as int];
                let after = final(holder).cells()[self.index() as int];
                &&& after.value() == value
                &&& after.subscribers() == before.subscribers()
                &&& needed == (scheduler.pass() != before.last_pass())
                &&& after.last_pass() == scheduler.pass()
            },
            r is None ==> *final(holder) == *old(holder),
    {
        StateHandle::set::<T, C, F>(self, holder, value, scheduler)
    }
}

impl<T, C> State<T, StateHolder<T, C>> for StateHandle {}

} // verus!
