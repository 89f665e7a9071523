use std::cell::RefCell;
use std::collections::HashMap;
use std::rc::Rc;

use sofkit::id_map::{call_all, key_list, move_all};

#[test]
fn key_list_names_each_id_once() {
    let m: HashMap<usize, char> = HashMap::from([(4, 'a'), (2, 'b'), (9, 'c')]);
    let mut keys = key_list(&m);
    keys.sort();
    assert_eq!(keys, vec![2, 4, 9]);
    assert!(key_list(&HashMap::<usize, u8>::new()).is_empty());
}

#[test]
fn moved_entries_win_under_a_shared_id() {
    let mut dst: HashMap<usize, u8> = HashMap::from([(1, 1), (2, 2)]);
    let src: HashMap<usize, u8> = HashMap::from([(2, 22), (3, 3)]);
    move_all(&mut dst, src);
    assert_eq!(dst, HashMap::from([(1, 1), (2, 22), (3, 3)]));
}

#[test]
fn every_callback_is_called() {
    let seen = Rc::new(RefCell::new(Vec::new()));
    let (s1, s2) = (seen.clone(), seen.clone());
    let mut callbacks: HashMap<usize, Box<dyn Fn(&i32)>> = HashMap::new();
    callbacks.insert(0, Box::new(move |v: &i32| s1.borrow_mut().push(*v)));
    callbacks.insert(5, Box::new(move |v: &i32| s2.borrow_mut().push(*v + 1)));
    call_all(&callbacks, &10);
    let mut got = seen.borrow().clone();
    got.sort();
    assert_eq!(got, vec![10, 11]);
}
