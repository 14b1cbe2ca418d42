use fd_core::action::{hits, keymap, stars, Action, Key, Mods, SortMode};
use fd_core::formats::Source;

/// Every action reaches the user as a menu entry or tooltip, so a blank
/// label would render an invisible control.
#[test]
fn every_action_has_a_label() {
    for a in Action::all() {
        assert!(!a.label().is_empty(), "action has no label");
    }
}

/// Two bindings on the same key+modifier would both fire on one press.
#[test]
fn keymap_has_no_duplicate_bindings() {
    let mut seen: Vec<(Key, Mods)> = Vec::new();
    for (key, mods, _) in keymap() {
        let combo = (key, mods);
        assert!(!seen.contains(&combo), "duplicate binding for {key:?} ({mods:?})");
        seen.push(combo);
    }
}

/// A bound action missing from the list would escape the label check above.
#[test]
fn every_bound_action_is_listed() {
    let all = Action::all();
    for (key, _, action) in keymap() {
        assert!(all.contains(&action), "{key:?} is bound to an action that is not listed");
    }
}

#[test]
fn labels_and_shortcuts() {
    assert_eq!(Action::OpenFolder.label(), "Open Folder…");
    assert_eq!(Action::OpenFolder.shortcut(), "Ctrl+O");
    assert_eq!(Action::Rate(0).label(), "No rating");
    assert_eq!(Action::Rate(3).label(), "★★★");
    assert_eq!(Action::Rate(4).shortcut(), "4");
    assert_eq!(Action::Rate(6).shortcut(), "");
    assert_eq!(Action::AcceptTop.label(), "Accept Top 2 + Reject Rest");
    assert_eq!(Action::SetSort(SortMode::Coverage).label(), "Sort by Focus Coverage");
    assert_eq!(Action::SetSort(SortMode::Time).shortcut(), "O");
    assert_eq!(Action::SetSource(Source::Full).label(), "Source: Full Image");
    assert_eq!(Action::ShowAbout.shortcut(), "");
    assert_eq!(stars(2), "★★");
    assert_eq!(stars(0), "");
}

#[test]
fn modifiers_pick_the_binding() {
    assert_eq!(hits(&vec![Key::X], false, false), vec![Action::Reject]);
    assert_eq!(hits(&vec![Key::X], true, false), vec![Action::RejectAll]);
    assert_eq!(hits(&vec![Key::ArrowLeft], false, false), vec![Action::NavLeft]);
    assert_eq!(hits(&vec![Key::ArrowLeft], false, true), vec![Action::NavUp]);
    assert_eq!(hits(&vec![Key::ArrowLeft], true, true), vec![]);
    // Shift is ignored where the key has no Shift binding
    assert_eq!(hits(&vec![Key::Questionmark], false, true), vec![Action::ToggleHelp]);
    assert_eq!(hits(&vec![Key::P, Key::B], false, false), vec![Action::Pick, Action::ToggleBrighten]);
    assert_eq!(hits(&vec![], false, false), vec![]);
}

#[test]
fn one_press_asks_for_one_action() {
    for (key, _, _) in keymap() {
        for (ctrl, shift) in [(false, false), (false, true), (true, false), (true, true)] {
            assert!(hits(&vec![key], ctrl, shift).len() <= 1, "{key:?} {ctrl} {shift}");
        }
    }
}

#[test]
fn bound_actions_show_their_shortcut() {
    let map = keymap();
    for a in Action::all() {
        let bound = map.iter().any(|b| b.2 == a);
        let sorts = matches!(a, Action::SetSort(_));
        assert_eq!(!a.shortcut().is_empty(), bound || sorts, "{a:?}");
    }
}
