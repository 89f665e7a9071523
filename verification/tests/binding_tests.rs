use sofkit::binding::{check_needs_active, entry_needs_text, entry_text_changed};

#[test]
fn entry_text_is_set_only_when_it_differs() {
    let shown = String::from("abc");
    assert!(!entry_needs_text(&shown, &String::from("abc")));
    assert!(entry_needs_text(&shown, &String::from("abd")));
    assert!(entry_needs_text(&String::new(), &String::from("x")));
}

#[test]
fn typed_text_is_written_back_only_when_new() {
    let typed = String::from("hello");
    assert!(entry_text_changed(Some(&String::from("hell")), &typed));
    assert!(!entry_text_changed(Some(&String::from("hello")), &typed));
    assert!(!entry_text_changed(None, &typed));
}

#[test]
fn two_way_binding_settles() {
    // the user types; the state takes the text; the state's update finds the entry up to date
    let typed = String::from("42");
    let mut state = String::from("4");
    if entry_text_changed(Some(&state), &typed) {
        state = typed.clone();
    }
    assert!(!entry_needs_text(&typed, &state));
    assert!(!entry_text_changed(Some(&state), &typed));
}

#[test]
fn check_button_set_only_when_it_differs() {
    assert!(check_needs_active(false, true));
    assert!(!check_needs_active(true, true));
}
