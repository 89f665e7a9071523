use std::cell::RefCell;
use std::rc::Rc;

use sofkit::appdata::{appdata, get_appdata, has_appdata, next_id, AppDataStack, Field};
use sofkit::runtime::Runtime;
use sofkit::state::IdCounter;
use sofkit::frames::FrameClock;

#[test]
fn with_data_puts_values_in_effect_and_takes_them_off() {
    let mut stack: AppDataStack<&'static str> = AppDataStack::new();
    assert!(!has_appdata(&stack, 1));
    let found = appdata().insert(1, "calculator").insert(2, "theme").with_data(&mut stack, |s| {
        assert!(has_appdata(s, 2));
        *get_appdata(s, 1)
    });
    assert_eq!(found, "calculator");
    assert!(!has_appdata(&stack, 1));
}

#[test]
fn inner_context_shadows_outer() {
    let mut stack: AppDataStack<u32> = AppDataStack::new();
    stack.enter(appdata().insert(1, 10).insert(2, 20));
    stack.enter(appdata().insert(1, 11));
    assert_eq!(*get_appdata(&stack, 1), 11);
    assert_eq!(*get_appdata(&stack, 2), 20);
    assert!(stack.leave().is_some());
    assert_eq!(*get_appdata(&stack, 1), 10);
    assert!(stack.leave().is_some());
    assert!(stack.leave().is_none());
    assert!(!has_appdata(&stack, 2));
}

#[test]
fn insert_replaces_value_under_same_key() {
    let mut stack: AppDataStack<u32> = AppDataStack::new();
    stack.enter(appdata().insert(3, 1).insert(3, 2));
    assert_eq!(*get_appdata(&stack, 3), 2);
}

#[test]
fn field_tells_subscribers() {
    let seen = Rc::new(RefCell::new(Vec::new()));
    let mut ids = IdCounter::new();
    let mut field: Field<i32, Box<dyn Fn(&i32)>> = Field::new(1);
    let s1 = seen.clone();
    let sub = field.subscribe(Box::new(move |v| s1.borrow_mut().push(*v)));
    assert!(field.can_subscribe());
    assert_eq!(sub.id, 0);
    field.set(5);
    field.edit(|v| v * 3);
    assert_eq!(field.with(|v| *v), 15);
    assert_eq!(*seen.borrow(), vec![5, 15]);
    field.unsubscribe(sub);
    field.set(2);
    assert_eq!(*seen.borrow(), vec![5, 15]);
    let later = field.subscribe(Box::new(|_| {}));
    assert_eq!(later.id, 1);
    assert_eq!(next_id(&mut ids), 0);
}

#[test]
fn runtime_scopes_nest() {
    let mut rt: Runtime<&'static str> = Runtime::new();
    assert!(rt.current_scope().is_none());
    rt.enter_scope("outer");
    rt.run_with_scope("inner", |r| {
        assert_eq!(r.current_scope(), Some(&"inner"));
    });
    assert_eq!(rt.with_current_scope(|s| s.len()), 5);
    assert_eq!(rt.exit_scope(), Some("outer"));
    assert_eq!(rt.exit_scope(), None);
}

#[test]
fn frame_clock_ticks() {
    let mut c = FrameClock::new();
    assert_eq!(c.current_frame(), 0);
    c.tick();
    c.tick();
    assert_eq!(c.current_frame(), 2);
}
