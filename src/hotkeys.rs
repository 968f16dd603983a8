use vstd::prelude::*;
use crate::app::AppState;

verus! {

pub open spec fn labels_view(v: Seq<(&str, &str)>) -> Seq<(Seq<char>, Seq<char>)> {
    v.map_values(|p: (&str, &str)| (p.0@, p.1@))
}

/// The key hints shown in each mode, in display order.
pub open spec fn hotkey_table(state: AppState) -> Seq<(Seq<char>, Seq<char>)> {
    match state {
        AppState::Sessions => seq![
            ("q"@, "Quit"@),
            ("a"@, "Attach"@),
            ("r"@, "Rename"@),
            ("R"@, "Rename Current"@),
            ("n"@, "New"@),
            ("x"@, "Delete"@),
            ("/"@, "Search"@),
        ],
        AppState::Deleting => seq![
            ("q"@, "Quit"@),
            ("Esc"@, "Back"@),
            ("y"@, "Delete"@),
            ("n"@, "Cancel"@),
        ],
        AppState::Renaming => seq![("Esc"@, "Back"@), ("Enter"@, "Rename"@)],
        AppState::WarnNested => seq![("q"@, "Quit"@), ("Any"@, "Dismiss"@)],
        AppState::SessionsSearch => seq![
            ("Esc"@, "Cancel"@),
            ("Enter"@, "Confirm"@),
            ("C-n"@, "Select next match"@),
            ("C-p"@, "Select previous match"@),
        ],
        AppState::NewSession => seq![],
    }
}

/// The (key, action) hints of a mode, in display order.
pub fn hotkeys(state: &AppState) -> (r: Vec<(&'static str, &'static str)>)
    ensures
        labels_view(r@) == hotkey_table(*state),
{
    let r: Vec<(&'static str, &'static str)> = match state {
        AppState::Sessions => vec![
            ("q", "Quit"),
            ("a", "Attach"),
            ("r", "Rename"),
            ("R", "Rename Current"),
            ("n", "New"),
            ("x", "Delete"),
            ("/", "Search"),
        ],
        AppState::Deleting => vec![("q", "Quit"), ("Esc", "Back"), ("y", "Delete"), ("n", "Cancel")],
        AppState::Renaming => vec![("Esc", "Back"), ("Enter", "Rename")],
        AppState::WarnNested => vec![("q", "Quit"), ("Any", "Dismiss")],
        AppState::SessionsSearch => vec![
            ("Esc", "Cancel"),
            ("Enter", "Confirm"),
            ("C-n", "Select next match"),
            ("C-p", "Select previous match"),
        ],
        AppState::NewSession => Vec::new(),
    };
    assert(labels_view(r@) =~= hotkey_table(*state));
    r
}

} // verus!
