//! Everything the user can do, from any input route: the keyboard map, the
//! menu bar and the toolbar all emit an `Action`.

use vstd::prelude::*;
use crate::formats::Source;
use crate::text;

verus! {

/// How the frames of a burst are ordered.
#[derive(Debug, Clone, Copy, PartialEq, Eq, Structural)]
pub enum SortMode {
    Time,
    Sharpness,
    /// Fraction of the focus area passing the peaking test.
    Coverage,
}

/// One thing the user can do.
#[derive(Debug, Clone, Copy, PartialEq, Eq, Structural)]
pub enum Action {
    // File
    OpenFolder,
    OpenRecipe,
    Harvest,
    SaveSession,
    Quit,
    // Edit
    Undo,
    Pick,
    Reject,
    ClearFlag,
    Rate(u8),
    RateUp,
    RateDown,
    // Navigation
    OpenBurst,
    BackToOverview,
    NextUnculled,
    NavLeft,
    NavRight,
    NavUp,
    NavDown,
    // Burst operations
    AcceptTop,
    RejectAll,
    ClearTrack,
    ToggleAfPins,
    Unpin,
    // View
    ToggleZoom,
    ToggleInspect,
    ToggleSort,
    SetSort(SortMode),
    SetSource(Source),
    ToggleBrighten,
    TogglePeaking,
    // Help
    ToggleHelp,
    ShowAbout,
}

/// Every action there is, as the menus list them.
pub open spec fn all_actions() -> Seq<Action> {
    seq![
        Action::OpenFolder,
        Action::OpenRecipe,
        Action::Harvest,
        Action::SaveSession,
        Action::Quit,
        Action::Undo,
        Action::Pick,
        Action::Reject,
        Action::ClearFlag,
        Action::Rate(0),
        Action::Rate(1),
        Action::Rate(2),
        Action::Rate(3),
        Action::Rate(4),
        Action::Rate(5),
        Action::RateUp,
        Action::RateDown,
        Action::OpenBurst,
        Action::BackToOverview,
        Action::NextUnculled,
        Action::NavLeft,
        Action::NavRight,
        Action::NavUp,
        Action::NavDown,
        Action::AcceptTop,
        Action::RejectAll,
        Action::ClearTrack,
        Action::ToggleAfPins,
        Action::Unpin,
        Action::ToggleZoom,
        Action::ToggleInspect,
        Action::ToggleSort,
        Action::SetSort(SortMode::Time),
        Action::SetSort(SortMode::Sharpness),
        Action::SetSort(SortMode::Coverage),
        Action::SetSource(Source::Embedded),
        Action::SetSource(Source::Full),
        Action::ToggleBrighten,
        Action::TogglePeaking,
        Action::ToggleHelp,
        Action::ShowAbout,
    ]
}

/// `n` stars.
pub open spec fn star_row(n: nat) -> Seq<char> {
    Seq::new(n, |i: int| '★')
}

/// `n` stars.
pub fn stars(n: u8) -> (r: String)
    ensures
        r@ == star_row(n as nat),
{
    let mut s = String::new();
    let mut i: u8 = 0;
    while i < n
        invariant
            i <= n,
            s@ == star_row(i as nat),
        decreases n - i,
    {
        s.push('★');
        i += 1;
        assert(s@ =~= star_row(i as nat));
    }
    s
}

impl Action {
    /// Every action there is, as the menus list them.
    pub fn all() -> (r: Vec<Action>)
        ensures
            r@ == all_actions(),
    {
        let r: Vec<Action> = vec![
            Action::OpenFolder,
            Action::OpenRecipe,
            Action::Harvest,
            Action::SaveSession,
            Action::Quit,
            Action::Undo,
            Action::Pick,
            Action::Reject,
            Action::ClearFlag,
            Action::Rate(0),
            Action::Rate(1),
            Action::Rate(2),
            Action::Rate(3),
            Action::Rate(4),
            Action::Rate(5),
            Action::RateUp,
            Action::RateDown,
            Action::OpenBurst,
            Action::BackToOverview,
            Action::NextUnculled,
            Action::NavLeft,
            Action::NavRight,
            Action::NavUp,
            Action::NavDown,
            Action::AcceptTop,
            Action::RejectAll,
            Action::ClearTrack,
            Action::ToggleAfPins,
            Action::Unpin,
            Action::ToggleZoom,
            Action::ToggleInspect,
            Action::ToggleSort,
            Action::SetSort(SortMode::Time),
            Action::SetSort(SortMode::Sharpness),
            Action::SetSort(SortMode::Coverage),
            Action::SetSource(Source::Embedded),
            Action::SetSource(Source::Full),
            Action::ToggleBrighten,
            Action::TogglePeaking,
            Action::ToggleHelp,
            Action::ShowAbout,
        ];
        assert(r@ =~= all_actions());
        r
    }

    /// The text of a menu entry.
    pub open spec fn label_text(self) -> Seq<char> {
        match self {
            Action::OpenFolder => "Open Folder…"@,
            Action::OpenRecipe => "Open Recipe…"@,
            Action::Harvest => "Harvest…"@,
            Action::SaveSession => "Save Session"@,
            Action::Quit => "Quit"@,
            Action::Undo => "Undo"@,
            Action::Pick => "Pick"@,
            Action::Reject => "Reject"@,
            Action::ClearFlag => "Clear Flag"@,
            Action::Rate(r) => if r == 0 {
                "No rating"@
            } else {
                star_row(r as nat)
            },
            Action::RateUp => "One More Star"@,
            Action::RateDown => "One Star Less"@,
            Action::OpenBurst => "Open Burst"@,
            Action::BackToOverview => "Back to Overview"@,
            Action::NextUnculled => "Next Unculled Burst"@,
            Action::NavLeft => "Previous Frame"@,
            Action::NavRight => "Next Frame"@,
            Action::NavUp => "Previous Burst"@,
            Action::NavDown => "Next Burst"@,
            Action::AcceptTop => "Accept Top 2 + Reject Rest"@,
            Action::RejectAll => "Reject All Frames"@,
            Action::ClearTrack => "Clear Pins"@,
            Action::ToggleAfPins => "Use Camera Eye Points"@,
            Action::Unpin => "Unpin This Frame"@,
            Action::ToggleZoom => "Zoom 100%"@,
            Action::ToggleInspect => "Inspect Focus Point"@,
            Action::ToggleSort => "Toggle Sort Order"@,
            Action::SetSort(SortMode::Time) => "Sort by Capture Time"@,
            Action::SetSort(SortMode::Sharpness) => "Sort by Sharpness"@,
            Action::SetSort(SortMode::Coverage) => "Sort by Focus Coverage"@,
            Action::SetSource(Source::Embedded) => "Source: Embedded Preview"@,
            Action::SetSource(Source::Full) => "Source: Full Image"@,
            Action::ToggleBrighten => "Auto-brighten Dark Images"@,
            Action::TogglePeaking => "Focus Peaking"@,
            Action::ToggleHelp => "Keyboard Shortcuts"@,
            Action::ShowAbout => "About"@,
        }
    }

    /// The text of a menu entry.
    pub fn label(self) -> (r: String)
        ensures
            r@ == self.label_text(),
    {
        let s: &str = match self {
            Action::OpenFolder => "Open Folder…",
            Action::OpenRecipe => "Open Recipe…",
            Action::Harvest => "Harvest…",
            Action::SaveSession => "Save Session",
            Action::Quit => "Quit",
            Action::Undo => "Undo",
            Action::Pick => "Pick",
            Action::Reject => "Reject",
            Action::ClearFlag => "Clear Flag",
            Action::Rate(r) => {
                if r != 0 {
                    return stars(r);
                }
                "No rating"
            },
            Action::RateUp => "One More Star",
            Action::RateDown => "One Star Less",
            Action::OpenBurst => "Open Burst",
            Action::BackToOverview => "Back to Overview",
            Action::NextUnculled => "Next Unculled Burst",
            Action::NavLeft => "Previous Frame",
            Action::NavRight => "Next Frame",
            Action::NavUp => "Previous Burst",
            Action::NavDown => "Next Burst",
            Action::AcceptTop => "Accept Top 2 + Reject Rest",
            Action::RejectAll => "Reject All Frames",
            Action::ClearTrack => "Clear Pins",
            Action::ToggleAfPins => "Use Camera Eye Points",
            Action::Unpin => "Unpin This Frame",
            Action::ToggleZoom => "Zoom 100%",
            Action::ToggleInspect => "Inspect Focus Point",
            Action::ToggleSort => "Toggle Sort Order",
            Action::SetSort(m) => match m {
                SortMode::Time => "Sort by Capture Time",
                SortMode::Sharpness => "Sort by Sharpness",
                SortMode::Coverage => "Sort by Focus Coverage",
            },
            Action::SetSource(s) => match s {
                Source::Embedded => "Source: Embedded Preview",
                Source::Full => "Source: Full Image",
            },
            Action::ToggleBrighten => "Auto-brighten Dark Images",
            Action::TogglePeaking => "Focus Peaking",
            Action::ToggleHelp => "Keyboard Shortcuts",
            Action::ShowAbout => "About",
        };
        text::copy_of(s)
    }

    /// The shortcut shown next to a menu entry; empty where there is none.
    pub open spec fn shortcut_text(self) -> Seq<char> {
        match self {
            Action::OpenFolder => "Ctrl+O"@,
            Action::Harvest => "Ctrl+H"@,
            Action::SaveSession => "Ctrl+S"@,
            Action::Quit => "Ctrl+Q"@,
            Action::Undo => "Ctrl+Z"@,
            Action::Pick => "P"@,
            Action::Reject => "X"@,
            Action::ClearFlag => "U"@,
            Action::Rate(r) => if r <= 5 {
                text::decimal(r as int)
            } else {
                ""@
            },
            Action::RateUp => "+"@,
            Action::RateDown => "-"@,
            Action::OpenBurst => "Enter"@,
            Action::BackToOverview => "Esc"@,
            Action::NextUnculled => "N"@,
            Action::NavLeft => "Left"@,
            Action::NavRight => "Right"@,
            Action::NavUp => "Up / Shift+Left"@,
            Action::NavDown => "Down / Shift+Right"@,
            Action::AcceptTop => "Ctrl+Enter"@,
            Action::RejectAll => "Ctrl+X"@,
            Action::ToggleZoom => "Z"@,
            Action::ToggleInspect => "I"@,
            Action::ToggleBrighten => "B"@,
            Action::TogglePeaking => "K"@,
            Action::Unpin => "Backspace"@,
            Action::ToggleSort | Action::SetSort(_) => "O"@,
            Action::ToggleHelp => "?"@,
            Action::OpenRecipe
            | Action::ClearTrack
            | Action::ShowAbout
            | Action::SetSource(_)
            | Action::ToggleAfPins => ""@,
        }
    }

    /// Shortcut text shown next to menu items. Empty means mouse-only.
    pub fn shortcut(self) -> (r: &'static str)
        ensures
            r@ == self.shortcut_text(),
    {
        proof {
            reveal_strlit("0");
            reveal_strlit("1");
            reveal_strlit("2");
            reveal_strlit("3");
            reveal_strlit("4");
            reveal_strlit("5");
            reveal_with_fuel(text::in_base, 2);
            if let Action::Rate(n) = self {
                if n <= 5 {
                    assert(text::decimal(n as int) =~= seq![text::digit_char(n as int)]);
                    assert("0"@ =~= seq!['0'] && "1"@ =~= seq!['1'] && "2"@ =~= seq!['2']);
                    assert("3"@ =~= seq!['3'] && "4"@ =~= seq!['4'] && "5"@ =~= seq!['5']);
                }
            }
        }
        match self {
            Action::OpenFolder => "Ctrl+O",
            Action::Harvest => "Ctrl+H",
            Action::SaveSession => "Ctrl+S",
            Action::Quit => "Ctrl+Q",
            Action::Undo => "Ctrl+Z",
            Action::Pick => "P",
            Action::Reject => "X",
            Action::ClearFlag => "U",
            Action::Rate(0) => "0",
            Action::Rate(1) => "1",
            Action::Rate(2) => "2",
            Action::Rate(3) => "3",
            Action::Rate(4) => "4",
            Action::Rate(5) => "5",
            Action::RateUp => "+",
            Action::RateDown => "-",
            Action::OpenBurst => "Enter",
            Action::BackToOverview => "Esc",
            Action::NextUnculled => "N",
            Action::NavLeft => "Left",
            Action::NavRight => "Right",
            Action::NavUp => "Up / Shift+Left",
            Action::NavDown => "Down / Shift+Right",
            Action::AcceptTop => "Ctrl+Enter",
            Action::RejectAll => "Ctrl+X",
            Action::ToggleZoom => "Z",
            Action::ToggleInspect => "I",
            Action::ToggleBrighten => "B",
            Action::TogglePeaking => "K",
            Action::Unpin => "Backspace",
            Action::ToggleSort | Action::SetSort(_) => "O",
            Action::ToggleHelp => "?",
            Action::OpenRecipe
            | Action::ClearTrack
            | Action::ShowAbout
            | Action::Rate(_)
            | Action::SetSource(_)
            | Action::ToggleAfPins => "",
        }
    }
}

/// A key that does something.
#[derive(Debug, Clone, Copy, PartialEq, Eq, Structural)]
pub enum Key {
    O,
    H,
    S,
    Q,
    Z,
    X,
    Enter,
    Escape,
    N,
    P,
    U,
    I,
    B,
    K,
    Questionmark,
    ArrowLeft,
    ArrowRight,
    ArrowUp,
    ArrowDown,
    Backspace,
    Num0,
    Num1,
    Num2,
    Num3,
    Num4,
    Num5,
    Plus,
    Minus,
}

/// Modifier a binding needs. `Plain` bindings ignore Shift (so `?` still
/// works on layouts where it is Shift+/) unless the same key also has a
/// Shift binding.
#[derive(Debug, Clone, Copy, PartialEq, Eq, Structural)]
pub enum Mods {
    Plain,
    Ctrl,
    Shift,
}

/// The keyboard bindings. What an action means in a view (an arrow moves the
/// grid cursor in the overview and the frame in a burst) is not said here.
pub open spec fn bindings() -> Seq<(Key, Mods, Action)> {
    seq![
        (Key::O, Mods::Ctrl, Action::OpenFolder),
        (Key::H, Mods::Ctrl, Action::Harvest),
        (Key::S, Mods::Ctrl, Action::SaveSession),
        (Key::Q, Mods::Ctrl, Action::Quit),
        (Key::Z, Mods::Ctrl, Action::Undo),
        (Key::X, Mods::Ctrl, Action::RejectAll),
        (Key::Enter, Mods::Ctrl, Action::AcceptTop),
        (Key::Enter, Mods::Plain, Action::OpenBurst),
        (Key::Escape, Mods::Plain, Action::BackToOverview),
        (Key::N, Mods::Plain, Action::NextUnculled),
        (Key::P, Mods::Plain, Action::Pick),
        (Key::X, Mods::Plain, Action::Reject),
        (Key::U, Mods::Plain, Action::ClearFlag),
        (Key::Z, Mods::Plain, Action::ToggleZoom),
        (Key::I, Mods::Plain, Action::ToggleInspect),
        (Key::B, Mods::Plain, Action::ToggleBrighten),
        (Key::K, Mods::Plain, Action::TogglePeaking),
        (Key::O, Mods::Plain, Action::ToggleSort),
        (Key::H, Mods::Plain, Action::ToggleHelp),
        (Key::Questionmark, Mods::Plain, Action::ToggleHelp),
        (Key::ArrowLeft, Mods::Plain, Action::NavLeft),
        (Key::ArrowRight, Mods::Plain, Action::NavRight),
        (Key::ArrowUp, Mods::Plain, Action::NavUp),
        (Key::ArrowDown, Mods::Plain, Action::NavDown),
        (Key::Backspace, Mods::Plain, Action::Unpin),
        (Key::ArrowLeft, Mods::Shift, Action::NavUp),
        (Key::ArrowRight, Mods::Shift, Action::NavDown),
        (Key::Num0, Mods::Plain, Action::Rate(0)),
        (Key::Num1, Mods::Plain, Action::Rate(1)),
        (Key::Num2, Mods::Plain, Action::Rate(2)),
        (Key::Num3, Mods::Plain, Action::Rate(3)),
        (Key::Num4, Mods::Plain, Action::Rate(4)),
        (Key::Num5, Mods::Plain, Action::Rate(5)),
        (Key::Plus, Mods::Plain, Action::RateUp),
        (Key::Minus, Mods::Plain, Action::RateDown),
    ]
}

/// The keyboard bindings.
pub fn keymap() -> (r: Vec<(Key, Mods, Action)>)
    ensures
        r@ == bindings(),
{
    let r: Vec<(Key, Mods, Action)> = vec![
        (Key::O, Mods::Ctrl, Action::OpenFolder),
        (Key::H, Mods::Ctrl, Action::Harvest),
        (Key::S, Mods::Ctrl, Action::SaveSession),
        (Key::Q, Mods::Ctrl, Action::Quit),
        (Key::Z, Mods::Ctrl, Action::Undo),
        (Key::X, Mods::Ctrl, Action::RejectAll),
        (Key::Enter, Mods::Ctrl, Action::AcceptTop),
        (Key::Enter, Mods::Plain, Action::OpenBurst),
        (Key::Escape, Mods::Plain, Action::BackToOverview),
        (Key::N, Mods::Plain, Action::NextUnculled),
        (Key::P, Mods::Plain, Action::Pick),
        (Key::X, Mods::Plain, Action::Reject),
        (Key::U, Mods::Plain, Action::ClearFlag),
        (Key::Z, Mods::Plain, Action::ToggleZoom),
        (Key::I, Mods::Plain, Action::ToggleInspect),
        (Key::B, Mods::Plain, Action::ToggleBrighten),
        (Key::K, Mods::Plain, Action::TogglePeaking),
        (Key::O, Mods::Plain, Action::ToggleSort),
        (Key::H, Mods::Plain, Action::ToggleHelp),
        (Key::Questionmark, Mods::Plain, Action::ToggleHelp),
        (Key::ArrowLeft, Mods::Plain, Action::NavLeft),
        (Key::ArrowRight, Mods::Plain, Action::NavRight),
        (Key::ArrowUp, Mods::Plain, Action::NavUp),
        (Key::ArrowDown, Mods::Plain, Action::NavDown),
        (Key::Backspace, Mods::Plain, Action::Unpin),
        (Key::ArrowLeft, Mods::Shift, Action::NavUp),
        (Key::ArrowRight, Mods::Shift, Action::NavDown),
        (Key::Num0, Mods::Plain, Action::Rate(0)),
        (Key::Num1, Mods::Plain, Action::Rate(1)),
        (Key::Num2, Mods::Plain, Action::Rate(2)),
        (Key::Num3, Mods::Plain, Action::Rate(3)),
        (Key::Num4, Mods::Plain, Action::Rate(4)),
        (Key::Num5, Mods::Plain, Action::Rate(5)),
        (Key::Plus, Mods::Plain, Action::RateUp),
        (Key::Minus, Mods::Plain, Action::RateDown),
    ];
    assert(r@ =~= bindings());
    r
}

/// Whether `key` is bound together with Shift.
pub open spec fn has_shift_binding(key: Key) -> bool {
    exists|i: int| 0 <= i < bindings().len() && (#[trigger] bindings()[i]).0 == key && bindings()[i].1
        == Mods::Shift
}

/// Whether a binding with the given modifier answers to the modifiers held.
pub open spec fn answers(key: Key, mods: Mods, ctrl: bool, shift: bool) -> bool {
    match mods {
        Mods::Ctrl => ctrl,
        Mods::Shift => shift && !ctrl,
        Mods::Plain => !ctrl && !(shift && has_shift_binding(key)),
    }
}

/// Whether the `i`th binding is hit.
pub open spec fn is_hit(i: int, pressed: Seq<Key>, ctrl: bool, shift: bool) -> bool {
    pressed.contains(bindings()[i].0) && answers(bindings()[i].0, bindings()[i].1, ctrl, shift)
}

/// The actions of the first `k` bindings that are hit.
pub open spec fn hit_actions(k: int, pressed: Seq<Key>, ctrl: bool, shift: bool) -> Seq<Action>
    decreases k,
{
    if k <= 0 {
        Seq::empty()
    } else {
        let rest = hit_actions(k - 1, pressed, ctrl, shift);
        if is_hit(k - 1, pressed, ctrl, shift) {
            rest.push(bindings()[k - 1].2)
        } else {
            rest
        }
    }
}

fn contains_key(pressed: &Vec<Key>, key: Key) -> (r: bool)
    ensures
        r == pressed@.contains(key),
{
    let n: usize = pressed.len();
    let mut i: usize = 0;
    while i < n
        invariant
            i <= n == pressed@.len(),
            forall|j: int| 0 <= j < i ==> pressed@[j] != key,
        decreases n - i,
    {
        if pressed[i] == key {
            return true;
        }
        i += 1;
    }
    false
}

fn shift_bound(map: &Vec<(Key, Mods, Action)>, key: Key) -> (r: bool)
    requires
        map@ == bindings(),
    ensures
        r == has_shift_binding(key),
{
    let n: usize = map.len();
    let mut i: usize = 0;
    while i < n
        invariant
            i <= n == map@.len(),
            map@ == bindings(),
            forall|j: int|
                0 <= j < i ==> !((#[trigger] bindings()[j]).0 == key && bindings()[j].1 == Mods::Shift),
        decreases n - i,
    {
        if map[i].0 == key && map[i].1 == Mods::Shift {
            assert(bindings()[i as int].0 == key);
            return true;
        }
        i += 1;
    }
    false
}

/// The actions that the keys just pressed ask for, with the given modifiers
/// held, in the order of the bindings.
pub fn hits(pressed: &Vec<Key>, ctrl: bool, shift: bool) -> (r: Vec<Action>)
    ensures
        r@ == hit_actions(bindings().len() as int, pressed@, ctrl, shift),
{
    let map = keymap();
    let n: usize = map.len();
    let mut out: Vec<Action> = Vec::new();
    let mut i: usize = 0;
    while i < n
        invariant
            i <= n == map@.len(),
            map@ == bindings(),
            out@ == hit_actions(i as int, pressed@, ctrl, shift),
        decreases n - i,
    {
        let (key, mods, a) = map[i];
        if contains_key(pressed, key) && match mods {
            Mods::Ctrl => ctrl,
            Mods::Shift => shift && !ctrl,
            Mods::Plain => !ctrl && !(shift && shift_bound(&map, key)),
        } {
            out.push(a);
        }
        i += 1;
        assert(out@ =~= hit_actions(i as int, pressed@, ctrl, shift));
    }
    out
}

/// No key has two bindings with the same modifier.
pub proof fn no_binding_is_doubled(i: int, j: int)
    requires
        0 <= i < bindings().len(),
        0 <= j < bindings().len(),
        bindings()[i].0 == bindings()[j].0,
        bindings()[i].1 == bindings()[j].1,
    ensures
        i == j,
{
}

/// Every bound action is listed.
pub proof fn bound_actions_are_listed(i: int)
    requires
        0 <= i < bindings().len(),
    ensures
        all_actions().contains(bindings()[i].2),
{
}

/// Every action has a label.
pub proof fn every_action_is_labelled(a: Action)
    ensures
        a.label_text().len() > 0,
{
    reveal_strlit("Open Folder…");
    reveal_strlit("Open Recipe…");
    reveal_strlit("Harvest…");
    reveal_strlit("Save Session");
    reveal_strlit("Quit");
    reveal_strlit("Undo");
    reveal_strlit("Pick");
    reveal_strlit("Reject");
    reveal_strlit("Clear Flag");
    reveal_strlit("No rating");
    reveal_strlit("One More Star");
    reveal_strlit("One Star Less");
    reveal_strlit("Open Burst");
    reveal_strlit("Back to Overview");
    reveal_strlit("Next Unculled Burst");
    reveal_strlit("Previous Frame");
    reveal_strlit("Next Frame");
    reveal_strlit("Previous Burst");
    reveal_strlit("Next Burst");
    reveal_strlit("Accept Top 2 + Reject Rest");
    reveal_strlit("Reject All Frames");
    reveal_strlit("Clear Pins");
    reveal_strlit("Use Camera Eye Points");
    reveal_strlit("Unpin This Frame");
    reveal_strlit("Zoom 100%");
    reveal_strlit("Inspect Focus Point");
    reveal_strlit("Toggle Sort Order");
    reveal_strlit("Sort by Capture Time");
    reveal_strlit("Sort by Sharpness");
    reveal_strlit("Sort by Focus Coverage");
    reveal_strlit("Source: Embedded Preview");
    reveal_strlit("Source: Full Image");
    reveal_strlit("Auto-brighten Dark Images");
    reveal_strlit("Focus Peaking");
    reveal_strlit("Keyboard Shortcuts");
    reveal_strlit("About");
}

/// One key press asks for one action at most, whatever modifiers are held.
pub proof fn one_press_hits_once(key: Key, ctrl: bool, shift: bool)
    ensures
        hit_actions(bindings().len() as int, seq![key], ctrl, shift).len() <= 1,
{
    assert forall|i: int, j: int|
        0 <= i < bindings().len() && 0 <= j < bindings().len() && #[trigger] is_hit(
            i,
            seq![key],
            ctrl,
            shift,
        ) && #[trigger] is_hit(j, seq![key], ctrl, shift) implies i == j by {
        let (a, b) = (bindings()[i], bindings()[j]);
        assert(a.0 == key && b.0 == key);
        assert(a.1 == b.1);
        no_binding_is_doubled(i, j);
    }
    lemma_single_hit(bindings().len() as int, seq![key], ctrl, shift);
}

proof fn lemma_single_hit(k: int, pressed: Seq<Key>, ctrl: bool, shift: bool)
    requires
        0 <= k <= bindings().len(),
        forall|i: int, j: int|
            0 <= i < bindings().len() && 0 <= j < bindings().len() && #[trigger] is_hit(
                i,
                pressed,
                ctrl,
                shift,
            ) && #[trigger] is_hit(j, pressed, ctrl, shift) ==> i == j,
    ensures
        hit_actions(k, pressed, ctrl, shift).len() <= 1,
        hit_actions(k, pressed, ctrl, shift).len() == 1 ==> exists|i: int|
            0 <= i < k && #[trigger] is_hit(i, pressed, ctrl, shift),
    decreases k,
{
    if k > 0 {
        lemma_single_hit(k - 1, pressed, ctrl, shift);
        if is_hit(k - 1, pressed, ctrl, shift) {
            assert(hit_actions(k - 1, pressed, ctrl, shift).len() == 0);
        }
    }
}

/// A shortcut is shown beside every bound action; what else shows one is an
/// order that the sort key steps through.
pub proof fn shortcuts_are_shown(a: Action)
    ensures
        a.shortcut_text().len() > 0 <==> a is SetSort || exists|i: int|
            0 <= i < bindings().len() && (#[trigger] bindings()[i]).2 == a,
{
    reveal_strlit("Ctrl+O");
    reveal_strlit("Ctrl+H");
    reveal_strlit("Ctrl+S");
    reveal_strlit("Ctrl+Q");
    reveal_strlit("Ctrl+Z");
    reveal_strlit("P");
    reveal_strlit("X");
    reveal_strlit("U");
    reveal_strlit("");
    reveal_strlit("+");
    reveal_strlit("-");
    reveal_strlit("Enter");
    reveal_strlit("Esc");
    reveal_strlit("N");
    reveal_strlit("Left");
    reveal_strlit("Right");
    reveal_strlit("Up / Shift+Left");
    reveal_strlit("Down / Shift+Right");
    reveal_strlit("Ctrl+Enter");
    reveal_strlit("Ctrl+X");
    reveal_strlit("Z");
    reveal_strlit("I");
    reveal_strlit("B");
    reveal_strlit("K");
    reveal_strlit("Backspace");
    reveal_strlit("O");
    reveal_strlit("?");
    reveal_with_fuel(text::in_base, 2);
}

/// What is asked for are the actions of the bindings that are hit, all of them
/// and no others.
pub proof fn every_hit_is_asked_for(k: int, pressed: Seq<Key>, ctrl: bool, shift: bool, a: Action)
    requires
        0 <= k <= bindings().len(),
    ensures
        hit_actions(k, pressed, ctrl, shift).contains(a) <==> exists|i: int|
            0 <= i < k && bindings()[i].2 == a && #[trigger] is_hit(i, pressed, ctrl, shift),
    decreases k,
{
    if k > 0 {
        every_hit_is_asked_for(k - 1, pressed, ctrl, shift, a);
        let (rest, all) = (
            hit_actions(k - 1, pressed, ctrl, shift),
            hit_actions(k, pressed, ctrl, shift),
        );
        if rest.contains(a) {
            let j = choose|j: int| 0 <= j < rest.len() && rest[j] == a;
            assert(all[j] == a);
        }
        if is_hit(k - 1, pressed, ctrl, shift) {
            assert(all[all.len() - 1] == bindings()[k - 1].2);
            if all.contains(a) {
                let j = choose|j: int| 0 <= j < all.len() && all[j] == a;
                if j < rest.len() {
                    assert(rest[j] == a);
                    assert(rest.contains(a));
                }
            }
        }
    }
}

/// A binding is hit only by its own key; with Ctrl held exactly the Ctrl
/// bindings answer, without it never; and Shift changes nothing but for the
/// left and right arrows, which it turns.
pub proof fn modifiers_keep_bindings_apart(i: int, pressed: Seq<Key>, ctrl: bool, shift: bool)
    requires
        0 <= i < bindings().len(),
        is_hit(i, pressed, ctrl, shift),
    ensures
        pressed.contains(bindings()[i].0),
        ctrl <==> bindings()[i].1 == Mods::Ctrl,
        bindings()[i].1 == Mods::Shift ==> shift && (bindings()[i].0 == Key::ArrowLeft
            || bindings()[i].0 == Key::ArrowRight),
        !shift ==> bindings()[i].1 != Mods::Shift,
        shift && !ctrl && (bindings()[i].0 == Key::ArrowLeft || bindings()[i].0 == Key::ArrowRight)
            ==> bindings()[i].1 == Mods::Shift,
{
    assert(bindings()[25].0 == Key::ArrowLeft && bindings()[25].1 == Mods::Shift);
    assert(bindings()[26].0 == Key::ArrowRight && bindings()[26].1 == Mods::Shift);
}

/// The key and the modifier that ask for an action.
pub open spec fn asked_by(a: Action, key: Key, mods: Mods) -> bool {
    match a {
        Action::OpenFolder => key == Key::O && mods == Mods::Ctrl,
        Action::Harvest => key == Key::H && mods == Mods::Ctrl,
        Action::SaveSession => key == Key::S && mods == Mods::Ctrl,
        Action::Quit => key == Key::Q && mods == Mods::Ctrl,
        Action::Undo => key == Key::Z && mods == Mods::Ctrl,
        Action::RejectAll => key == Key::X && mods == Mods::Ctrl,
        Action::AcceptTop => key == Key::Enter && mods == Mods::Ctrl,
        Action::OpenBurst => key == Key::Enter && mods == Mods::Plain,
        Action::BackToOverview => key == Key::Escape && mods == Mods::Plain,
        Action::NextUnculled => key == Key::N && mods == Mods::Plain,
        Action::Pick => key == Key::P && mods == Mods::Plain,
        Action::Reject => key == Key::X && mods == Mods::Plain,
        Action::ClearFlag => key == Key::U && mods == Mods::Plain,
        Action::ToggleZoom => key == Key::Z && mods == Mods::Plain,
        Action::ToggleInspect => key == Key::I && mods == Mods::Plain,
        Action::ToggleBrighten => key == Key::B && mods == Mods::Plain,
        Action::TogglePeaking => key == Key::K && mods == Mods::Plain,
        Action::ToggleSort => key == Key::O && mods == Mods::Plain,
        Action::ToggleHelp => (key == Key::H || key == Key::Questionmark) && mods == Mods::Plain,
        Action::NavLeft => key == Key::ArrowLeft && mods == Mods::Plain,
        Action::NavRight => key == Key::ArrowRight && mods == Mods::Plain,
        Action::NavUp => (key == Key::ArrowUp && mods == Mods::Plain) || (key == Key::ArrowLeft
            && mods == Mods::Shift),
        Action::NavDown => (key == Key::ArrowDown && mods == Mods::Plain) || (key
            == Key::ArrowRight && mods == Mods::Shift),
        Action::Unpin => key == Key::Backspace && mods == Mods::Plain,
        Action::Rate(r) => mods == Mods::Plain && ((r == 0 && key == Key::Num0) || (r == 1 && key
            == Key::Num1) || (r == 2 && key == Key::Num2) || (r == 3 && key == Key::Num3) || (r == 4
            && key == Key::Num4) || (r == 5 && key == Key::Num5)),
        Action::RateUp => key == Key::Plus && mods == Mods::Plain,
        Action::RateDown => key == Key::Minus && mods == Mods::Plain,
        _ => false,
    }
}

/// Every binding asks for the action of its key.
pub proof fn keys_ask_for_their_actions(i: int)
    requires
        0 <= i < bindings().len(),
    ensures
        asked_by(bindings()[i].2, bindings()[i].0, bindings()[i].1),
{
}

} // verus!
