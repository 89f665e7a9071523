use vstd::prelude::*;

verus! {

/// Whether a widget showing `shown` must be updated to show `value`.
pub open spec fn differs(shown: Seq<char>, value: Seq<char>) -> bool {
    shown != value
}

/// An entry bound to a text state shows `shown`; the state now holds
/// `value`. The entry's text is set only when they differ, so that setting
/// it does not raise a change that is fed back to the state.
pub fn entry_needs_text(shown: &String, value: &String) -> (b: bool)
    ensures
        b == differs(shown@, value@),
{
    !shown.eq(value)
}

/// In a two-way binding the user typed `text`; the state holds `current`
/// (`None` once it is gone). The text is written to the state only when the
/// state is there and holds something else.
pub fn entry_text_changed(current: Option<&String>, text: &String) -> (b: bool)
    ensures
        b == (current matches Some(c) && differs(c@, text@)),
{
    match current {
        Some(c) => !c.eq(text),
        None => false,
    }
}

/// A check button bound to a state is active or not (`shown`); the state
/// holds `value`. The button is set only when they differ.
pub fn check_needs_active(shown: bool, value: bool) -> (b: bool)
    ensures
        b == (shown != value),
{
    shown != value
}

/// A two-way binding settles. The user types `text` while the state holds
/// `current`: the text is written exactly when the state is there and holds
/// something else. Once written, the state holds `text`, so the state's
/// update finds the entry already showing it (nothing is set on the entry)
/// and the entry's change finds the state already holding it (nothing is
/// written again): no value goes back and forth.
pub proof fn law_two_way_binding_settles(current: Option<Seq<char>>, text: Seq<char>)
    ensures
        (current matches Some(c) && differs(c, text)) == (current is Some && current != Some(text)),
        !differs(text, text),
        !(Some(text) matches Some(c) && differs(c, text)),
{
}

} // verus!
