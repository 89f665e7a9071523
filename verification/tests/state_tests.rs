use std::cell::RefCell;
use std::collections::HashMap;
use std::rc::Rc;

use sofkit::batching::BatchGate;
use sofkit::scheduler::{Scheduler, TaskLocation};
use sofkit::state::{
    new_subscription_id, notify_subscribers, IdCounter, MappedState, StateAccessor, StateCell, StateHolder, Subscription,
    SubscriptionHolder, WriteState,
};
use sofkit::state_ext::{StateHolderExt, WidgetData};

fn loc() -> TaskLocation {
    TaskLocation { file: "src/state.rs", line: 1, column: 1 }
}

type Cb = Box<dyn Fn(&StateAccessor<i32>)>;

#[test]
fn accessor_reads_and_writes() {
    let mut a = StateAccessor::new(3);
    assert_eq!(a.get(), 3);
    assert_eq!(a.with(|v| v * 2), 6);
    a.set(5);
    assert_eq!(*a.borrow(), 5);
    a.update(|v| v + 1);
    assert_eq!(a.get(), 6);
}

#[test]
fn gate_opens_once_per_pass() {
    let mut s: Scheduler<u8> = Scheduler::new();
    let mut g = BatchGate::new();
    assert!(g.should_run(&s));
    assert!(!g.should_run(&s));
    s.schedule(1, loc(), 1);
    let _run = s.begin_run();
    assert!(g.should_run(&s));
    assert!(!g.should_run(&s));
}

#[test]
fn ids_are_fresh() {
    let mut c = IdCounter::new();
    assert_eq!(new_subscription_id(&mut c), 0);
    assert_eq!(new_subscription_id(&mut c), 1);
    assert_eq!(c.next_id(), 2);
}

#[test]
fn handle_set_edit_and_with() {
    let s: Scheduler<u8> = Scheduler::new();
    let mut holder: StateHolder<i32, Cb> = StateHolder::new();
    let a = holder.state(1);
    let b = holder.state(10);
    assert_eq!(a.with(&holder, |v| *v), Some(1));
    assert_eq!(a.set(&mut holder, 7, &s), Some(true));
    // a second change in the same pass does not ask for another notification
    assert_eq!(a.edit(&mut holder, |v| v + 1, &s), Some(false));
    assert_eq!(a.get(&holder).unwrap().state().get(), 8);
    assert_eq!(b.get(&holder).unwrap().state().get(), 10);
    assert_eq!(b.set(&mut holder, 11, &s), Some(true));
    assert_eq!(b.update(&mut holder, 12, &s), Some(false));
    assert_eq!(b.with(&holder, |v| *v), Some(12));
}

#[test]
fn released_states_are_gone() {
    let s: Scheduler<u8> = Scheduler::new();
    let mut holder: StateHolder<i32, Cb> = StateHolder::new();
    let a = holder.state(1);
    holder.release();
    assert_eq!(holder.len(), 0);
    assert!(a.get(&holder).is_none());
    assert_eq!(a.set(&mut holder, 2, &s), None);
    assert_eq!(a.edit(&mut holder, |v| v + 1, &s), None);
    assert!(a.take_subscribers(&mut holder).is_none());
    assert_eq!(a.restore_subscribers(&mut holder, HashMap::new()), None);
    assert_eq!(a.with(&holder, |v| *v), None);
    assert_eq!(a.subscribe(&mut holder, Box::new(|_| {})), None);
    assert_eq!(a.unsubscribe(&mut holder, 0), None);
}

#[test]
fn subscribe_and_unsubscribe() {
    let mut holder: StateHolder<i32, u8> = StateHolder::new();
    let a = holder.state(1);
    assert!(holder.can_subscribe());
    assert_eq!(a.subscribe(&mut holder, 5), Some(0));
    assert_eq!(a.subscribe(&mut holder, 6), Some(1));
    let taken = a.take_subscribers(&mut holder).unwrap();
    assert_eq!(taken, HashMap::from([(0, 5), (1, 6)]));
    assert_eq!(a.subscribe(&mut holder, 7), Some(2));
    assert_eq!(a.restore_subscribers(&mut holder, taken), Some(()));
    assert_eq!(a.unsubscribe(&mut holder, 0), Some(()));
    assert_eq!(a.take_subscribers(&mut holder), Some(HashMap::from([(1, 6), (2, 7)])));
}

#[test]
fn taken_subscribers_are_all_told() {
    let seen = Rc::new(RefCell::new(Vec::new()));
    let mut holder: StateHolder<i32, Cb> = StateHolder::new();
    let a = holder.state(3);
    let (s1, s2) = (seen.clone(), seen.clone());
    a.subscribe(&mut holder, Box::new(move |v| s1.borrow_mut().push(v.get())));
    a.subscribe(&mut holder, Box::new(move |v| s2.borrow_mut().push(v.get() * 10)));
    let taken = a.take_subscribers(&mut holder).unwrap();
    notify_subscribers(&taken, &StateAccessor::new(4));
    a.restore_subscribers(&mut holder, taken);
    let mut told = seen.borrow().clone();
    told.sort();
    assert_eq!(told, vec![4, 40]);
}

#[test]
fn notification_round_trip_keeps_subscribers() {
    let mut cell: StateCell<i32, u8> = StateCell::new(4);
    cell.add_subscriber(1, 10);
    cell.add_subscriber(2, 20);
    cell.add_subscriber(1, 11);
    let taken = cell.take_subscribers();
    assert_eq!(taken, HashMap::from([(1, 11), (2, 20)]));
    assert!(cell.take_subscribers().is_empty());
    // subscribed while the notification ran
    cell.add_subscriber(3, 30);
    cell.restore_subscribers(taken);
    let again = cell.take_subscribers();
    assert_eq!(again, HashMap::from([(1, 11), (2, 20), (3, 30)]));
    cell.restore_subscribers(again);
    assert_eq!(cell.remove_subscriber(2), Some(20));
    assert_eq!(cell.remove_subscriber(2), None);
    assert_eq!(cell.take_subscribers(), HashMap::from([(1, 11), (3, 30)]));
    assert_eq!(cell.state().get(), 4);
}

#[test]
fn cell_notifies_once_per_pass() {
    let mut s: Scheduler<u8> = Scheduler::new();
    let mut cell: StateCell<i32, u8> = StateCell::new(0);
    assert!(cell.replace_value(1, &s));
    assert!(!cell.replace_value(2, &s));
    assert!(!cell.notify_subscribers_if_needed(&s));
    let _run = s.begin_run();
    assert!(cell.notify_subscribers_if_needed(&s));
}

#[test]
fn mapped_state_recomputes_once_per_pass() {
    let mut s: Scheduler<u8> = Scheduler::new();
    let src = 3;
    let mut m = MappedState::new(Some(&src), |v: &i32| v * 10);
    assert_eq!(m.with(|v| *v), Some(30));
    m.apply_map(&4, &s);
    assert_eq!(m.cached().unwrap().get(), 40);
    m.apply_map(&5, &s);
    assert_eq!(m.cached().unwrap().get(), 40);
    let _run = s.begin_run();
    m.apply_map(&6, &s);
    assert_eq!(m.with(|v| *v), Some(60));
    let gone: MappedState<i32, fn(&i32) -> i32> = MappedState::new(None, |v: &i32| *v);
    assert!(gone.cached().is_none());
    assert_eq!(gone.with(|v| *v), None);
}

#[test]
fn subscription_undo_runs_once() {
    let mut sub = Subscription::new(7u8);
    assert_eq!(sub.unsubscribe(), Some(7));
    assert_eq!(sub.unsubscribe(), None);
}

#[test]
fn subscription_holder_keeps_subscriptions() {
    let mut h = SubscriptionHolder::new();
    h.attach_subscription(Subscription::new(1u8));
    h.attach_subscription(Subscription::new(2u8));
}

#[test]
fn widget_data_slot_holds_subscriptions_until_a_state_holder() {
    let mut d: WidgetData<u8, u16> = WidgetData::new();
    assert!(d.can_attach_subscription());
    d.attach_subscription(1);
    d.attach_subscription(2);
    assert!(d.can_attach_subscription());
    // the state holder takes the slot; the subscriptions end
    d.attach_state_holder(5);
    assert!(!d.can_attach_subscription());
    d.attach_state_holder(6);
    assert!(!d.can_attach_subscription());
}
