use vstd::prelude::*;
use vstd::string::*;
use vstd::utf8::encode_utf8;
use crate::snapshot::{SessionRecord, RecordView, parse_snapshot, parse_snapshot_spec, records_view};
use crate::reconcile::{
    Entry,
    entries_view,
    opt_entry_view,
    strings_view,
    names_of,
    split_current,
    sort_desc,
    restored_selection,
    position_of,
    sole_fresh_name,
    sort_records,
    split_records,
    find_entry,
    lemma_position_found,
    pick_new_entry,
};

verus! {

/// Interaction modes; exactly one is active.
#[derive(Debug, PartialEq, Eq, Hash, Clone, Copy, Structural)]
pub enum AppState {
    Sessions,
    SessionsSearch,
    Deleting,
    Renaming,
    WarnNested,
    NewSession,
}

/// What the host does once the interface has closed.
#[derive(Debug)]
pub enum ExitAction {
    /// Attach to the named session; the flag asks to detach other clients.
    AttachSession(String, bool),
    /// Start a new session and attach to it.
    NewSession,
    Nothing,
}

/// A change the multiplexer is asked to make.
#[derive(Debug)]
pub enum SessionCommand {
    Rename { target: String, new_name: String },
    Kill { target: String },
    Create { name: String },
}

/// How a command went: on success the listing polled after it, on failure
/// the multiplexer's error text.
#[derive(Debug)]
pub enum CommandOutcome {
    Succeeded(String),
    Failed(String),
}

/// The session view and the interaction state.
pub struct App {
    /// Is the application running?
    pub running: bool,
    /// A counter that stops at its bounds.
    pub counter: u8,
    /// What to do after the interface closes.
    pub on_exit: ExitAction,
    /// The attached session, shown apart at the top.
    pub current_session: Option<Entry>,
    /// The other sessions (name, description), most recent first.
    pub sessions: Vec<Entry>,
    /// Index of the highlighted row of `sessions`.
    pub selected_session: usize,
    /// Whether a rename is for the current session rather than the selected one.
    pub renaming_current: bool,
    pub state: AppState,
    /// The row picked by a search.
    pub search_session_selected: Option<usize>,
    /// The rows that match the search terms.
    pub matching_rows: Vec<usize>,
    /// A failure to show to the user until the next dismissal.
    pub error_message: Option<String>,
}

/// Width in bytes of a name.
pub open spec fn byte_width(n: Seq<char>) -> usize {
    encode_utf8(n).len() as usize
}

/// The widest of `init` and the names of `s`.
pub open spec fn max_width(init: usize, s: Seq<(Seq<char>, Seq<char>)>) -> usize
    decreases s.len(),
{
    if s.len() == 0 {
        init
    } else {
        let m = max_width(init, s.drop_last());
        let w = byte_width(s.last().0);
        if w > m {
            w
        } else {
            m
        }
    }
}

/// The names of the entries, in order.
fn entry_names(v: &Vec<Entry>) -> (r: Vec<String>)
    ensures
        strings_view(r@) == names_of(entries_view(v@)),
{
    let mut r: Vec<String> = Vec::new();
    let mut i: usize = 0;
    while i < v.len()
        invariant
            i <= v.len(),
            strings_view(r@) == names_of(entries_view(v@)).take(i as int),
        decreases v.len() - i,
    {
        let ghost prev = strings_view(r@);
        r.push(v[i].0.clone());
        assert(strings_view(r@) =~= prev.push(v@[i as int].0@));
        assert(names_of(entries_view(v@)).take(i + 1) =~= names_of(entries_view(v@)).take(
            i as int,
        ).push(v@[i as int].0@));
        i = i + 1;
    }
    assert(names_of(entries_view(v@)).take(i as int) =~= names_of(entries_view(v@)));
    r
}

impl App {
    pub open spec fn others(&self) -> Seq<(Seq<char>, Seq<char>)> {
        entries_view(self.sessions@)
    }

    pub open spec fn current(&self) -> Option<(Seq<char>, Seq<char>)> {
        opt_entry_view(self.current_session)
    }

    /// The selection lies within the list, and is 0 for an empty one.
    pub open spec fn well_formed(&self) -> bool {
        if self.sessions@.len() == 0 {
            self.selected_session == 0
        } else {
            self.selected_session < self.sessions@.len()
        }
    }

    /// The view after reconciling `recs` into `old`; the rest is kept.
    pub open spec fn reconciled(old: App, new: App, recs: Seq<RecordView>) -> bool {
        let split = split_current(sort_desc(recs));
        &&& new.current() == split.0
        &&& new.others() == split.1
        &&& new.selected_session == restored_selection(
            old.others(),
            old.selected_session as int,
            split.1,
        )
        &&& new.running == old.running
        &&& new.counter == old.counter
        &&& new.on_exit == old.on_exit
        &&& new.renaming_current == old.renaming_current
        &&& new.state == old.state
        &&& new.search_session_selected == old.search_session_selected
        &&& new.matching_rows == old.matching_rows
        &&& new.error_message == old.error_message
    }

    /// A running app in the listing state, with no sessions yet.
    pub fn new() -> (r: App)
        ensures
            r.running,
            r.counter == 0,
            r.on_exit is Nothing,
            r.current_session is None,
            r.sessions@.len() == 0,
            r.selected_session == 0,
            !r.renaming_current,
            r.state == AppState::Sessions,
            r.search_session_selected is None,
            r.matching_rows@.len() == 0,
            r.error_message is None,
            r.well_formed(),
    {
        App {
            running: true,
            counter: 0,
            on_exit: ExitAction::Nothing,
            current_session: None,
            sessions: Vec::new(),
            selected_session: 0,
            renaming_current: false,
            state: AppState::Sessions,
            search_session_selected: None,
            matching_rows: Vec::new(),
            error_message: None,
        }
    }

    /// Merges a parsed snapshot into the view: the most recent attached
    /// session becomes current, the others are listed by activity, and the
    /// highlighted session keeps its highlight where it is still listed.
    pub fn reconcile(&mut self, records: &Vec<SessionRecord>)
        ensures
            App::reconciled(*old(self), *final(self), records_view(records@)),
            final(self).well_formed(),
    {
        let anchor: Option<String> = if self.selected_session < self.sessions.len() {
            Some(self.sessions[self.selected_session].0.clone())
        } else {
            None
        };
        let sorted = sort_records(records);
        let (current, others) = split_records(&sorted);
        self.current_session = current;
        self.sessions = others;
        let mut idx = self.selected_session;
        match anchor {
            Some(a) => {
                match find_entry(&self.sessions, &a) {
                    Some(p) => {
                        idx = p;
                    },
                    None => {},
                }
            },
            None => {},
        }
        if self.sessions.len() == 0 {
            self.selected_session = 0;
        } else if idx < self.sessions.len() {
            self.selected_session = idx;
        } else {
            self.selected_session = self.sessions.len() - 1;
        }
    }

    /// Parses the multiplexer's listing and reconciles it into the view.
    pub fn refresh(&mut self, listing: &str)
        ensures
            App::reconciled(*old(self), *final(self), parse_snapshot_spec(listing@)),
            final(self).well_formed(),
    {
        let records = parse_snapshot(listing);
        self.reconcile(&records);
    }

    /// Stops the interface with no further action.
    pub fn quit(&mut self)
        ensures
            *final(self) == (App { running: false, ..*old(self) }),
    {
        self.running = false;
    }

    /// Stops the interface and asks the host to attach to `name`.
    pub fn attach(&mut self, name: String, detach_others: bool)
        ensures
            *final(self) == (App {
                running: false,
                on_exit: ExitAction::AttachSession(name, detach_others),
                ..*old(self)
            }),
    {
        self.running = false;
        self.on_exit = ExitAction::AttachSession(name, detach_others);
    }

    /// Adds one to the counter unless it is at its maximum.
    pub fn increment_counter(&mut self)
        ensures
            *final(self) == (App {
                counter: if old(self).counter < u8::MAX {
                    (old(self).counter + 1) as u8
                } else {
                    old(self).counter
                },
                ..*old(self)
            }),
    {
        if let Some(res) = self.counter.checked_add(1) {
            self.counter = res;
        }
    }

    /// Takes one from the counter unless it is zero.
    pub fn decrement_counter(&mut self)
        ensures
            *final(self) == (App {
                counter: if old(self).counter > 0 {
                    (old(self).counter - 1) as u8
                } else {
                    old(self).counter
                },
                ..*old(self)
            }),
    {
        if let Some(res) = self.counter.checked_sub(1) {
            self.counter = res;
        }
    }

    /// The widest session name in bytes, the current session's included.
    pub fn max_session_name_width(&self) -> (r: usize)
        ensures
            r == max_width(
                match self.current() {
                    Some(c) => byte_width(c.0),
                    None => 0,
                },
                self.others(),
            ),
    {
        let mut acc: usize = match &self.current_session {
            Some(c) => c.0.as_str().len(),
            None => 0,
        };
        let ghost init = acc;
        let mut i: usize = 0;
        assert(self.others().take(0) =~= Seq::<(Seq<char>, Seq<char>)>::empty());
        while i < self.sessions.len()
            invariant
                i <= self.sessions@.len(),
                init == match self.current() {
                    Some(c) => byte_width(c.0),
                    None => 0,
                },
                acc == max_width(init, self.others().take(i as int)),
            decreases self.sessions@.len() - i,
        {
            let w = self.sessions[i].0.as_str().len();
            assert(self.others().take(i + 1).drop_last() =~= self.others().take(i as int));
            if w > acc {
                acc = w;
            }
            i = i + 1;
        }
        assert(self.others().take(i as int) =~= self.others());
        acc
    }

    /// Asks to confirm deleting the selected session.
    pub fn confirm_delete(&mut self)
        ensures
            *final(self) == (App { state: AppState::Deleting, ..*old(self) }),
    {
        self.state = AppState::Deleting;
    }

    /// Opens the rename prompt for the selected session.
    pub fn confirm_rename(&mut self)
        ensures
            *final(self) == (App {
                renaming_current: false,
                state: AppState::Renaming,
                ..*old(self)
            }),
    {
        self.renaming_current = false;
        self.state = AppState::Renaming;
    }

    /// Opens the rename prompt for the current session, when there is one.
    pub fn confirm_rename_current(&mut self)
        ensures
            old(self).current_session is Some ==> *final(self) == (App {
                renaming_current: true,
                state: AppState::Renaming,
                ..*old(self)
            }),
            old(self).current_session is None ==> *final(self) == *old(self),
    {
        if self.current_session.is_some() {
            self.renaming_current = true;
            self.state = AppState::Renaming;
        }
    }

    /// Opens the search prompt.
    pub fn search(&mut self)
        ensures
            *final(self) == (App { state: AppState::SessionsSearch, ..*old(self) }),
    {
        self.state = AppState::SessionsSearch;
    }

    /// Opens the prompt for a new session's name.
    pub fn confirm_new_session(&mut self)
        ensures
            *final(self) == (App { state: AppState::NewSession, ..*old(self) }),
    {
        self.state = AppState::NewSession;
    }

    /// Returns to the session list, clearing any shown error.
    pub fn dismiss_all(&mut self)
        ensures
            *final(self) == (App { state: AppState::Sessions, error_message: None, ..*old(self) }),
    {
        self.state = AppState::Sessions;
        self.error_message = None;
    }


    /// The name a rename applies to: the current session's, or the selected one's.
    pub open spec fn rename_target(&self) -> Option<Seq<char>> {
        if self.renaming_current {
            match self.current() {
                Some(c) => Some(c.0),
                None => None,
            }
        } else if self.selected_session < self.sessions@.len() {
            Some(self.others()[self.selected_session as int].0)
        } else {
            None
        }
    }

    /// The command renaming the target session to `new_name`; `None` when
    /// there is no session to rename.
    pub fn rename(&self, new_name: &str) -> (r: Option<SessionCommand>)
        ensures
            match self.rename_target() {
                Some(t) => r matches Some(SessionCommand::Rename { target, new_name: n }) && target@
                    == t && n@ == new_name@,
                None => r is None,
            },
    {
        let target = if self.renaming_current {
            match &self.current_session {
                Some(c) => c.0.clone(),
                None => {
                    return None;
                },
            }
        } else {
            if self.selected_session < self.sessions.len() {
                self.sessions[self.selected_session].0.clone()
            } else {
                return None;
            }
        };
        Some(SessionCommand::Rename { target, new_name: new_name.to_owned() })
    }

    /// The command killing the selected session. Without a selection nothing
    /// is killed: the list is shown again with an error.
    pub fn delete(&mut self) -> (r: Option<SessionCommand>)
        ensures
            old(self).selected_session < old(self).sessions@.len() ==> {
                &&& r matches Some(SessionCommand::Kill { target }) && target@ == old(
                    self,
                ).others()[old(self).selected_session as int].0
                &&& *final(self) == *old(self)
            },
            old(self).selected_session >= old(self).sessions@.len() ==> {
                &&& r is None
                &&& final(self).error_message is Some
                &&& *final(self) == (App {
                    state: AppState::Sessions,
                    error_message: final(self).error_message,
                    ..*old(self)
                })
            },
    {
        if self.selected_session < self.sessions.len() {
            let target = self.sessions[self.selected_session].0.clone();
            Some(SessionCommand::Kill { target })
        } else {
            self.state = AppState::Sessions;
            self.error_message = Some(String::from_str("no session is selected to delete"));
            None
        }
    }

    /// The command creating a session named `name`. Without a name the
    /// interface stops and the host starts a new session itself.
    pub fn new_session(&mut self, name: Option<&str>) -> (r: Option<SessionCommand>)
        ensures
            match name {
                Some(n) => r matches Some(SessionCommand::Create { name: c }) && c@ == n@
                    && *final(self) == *old(self),
                None => r is None && *final(self) == (App {
                    running: false,
                    on_exit: ExitAction::NewSession,
                    ..*old(self)
                }),
            },
    {
        match name {
            Some(n) => Some(SessionCommand::Create { name: n.to_owned() }),
            None => {
                self.running = false;
                self.on_exit = ExitAction::NewSession;
                None
            },
        }
    }

    /// The selection after a command succeeded and the list was refreshed
    /// from `others`: a created session is selected when it is the one new
    /// name; otherwise the selection follows its anchor.
    pub open spec fn selection_after(
        old: App,
        command: SessionCommand,
        others: Seq<(Seq<char>, Seq<char>)>,
    ) -> int {
        let restored = restored_selection(old.others(), old.selected_session as int, others);
        match command {
            SessionCommand::Create { .. } => match sole_fresh_name(
                names_of(old.others()),
                names_of(others),
            ) {
                Some(n) => position_of(others, n)->0,
                None => restored,
            },
            _ => restored,
        }
    }

    /// What finishing `command` with `outcome` makes of `old`.
    pub open spec fn finished(
        old: App,
        new: App,
        command: SessionCommand,
        outcome: CommandOutcome,
    ) -> bool {
        match outcome {
            CommandOutcome::Failed(msg) => new == (App {
                state: AppState::Sessions,
                error_message: Some(msg),
                ..old
            }),
            CommandOutcome::Succeeded(listing) => {
                let split = split_current(sort_desc(parse_snapshot_spec(listing@)));
                &&& new.current() == split.0
                &&& new.others() == split.1
                &&& new.selected_session == App::selection_after(old, command, split.1)
                &&& new.state == AppState::Sessions
                &&& new.error_message is None
                &&& new.running == old.running
                &&& new.counter == old.counter
                &&& new.on_exit == old.on_exit
                &&& new.renaming_current == old.renaming_current
                &&& new.search_session_selected == old.search_session_selected
                &&& new.matching_rows == old.matching_rows
            },
        }
    }

    /// Takes in how a command went: a failure is shown over the list; a
    /// success refreshes the list from the new listing, selects a created
    /// session when it can be told apart, and returns to the list.
    pub fn finish_command(&mut self, command: &SessionCommand, outcome: CommandOutcome)
        ensures
            App::finished(*old(self), *final(self), *command, outcome),
            old(self).well_formed() ==> final(self).well_formed(),
    {
        match outcome {
            CommandOutcome::Failed(msg) => {
                self.state = AppState::Sessions;
                self.error_message = Some(msg);
            },
            CommandOutcome::Succeeded(listing) => {
                let before = entry_names(&self.sessions);
                self.refresh(listing.as_str());
                match command {
                    SessionCommand::Create { .. } => {
                        match pick_new_entry(&before, &self.sessions) {
                            Some(p) => {
                                proof {
                                    let n = sole_fresh_name(
                                        names_of(old(self).others()),
                                        names_of(self.others()),
                                    )->0;
                                    lemma_position_found(self.others(), n);
                                }
                                self.selected_session = p;
                            },
                            None => {},
                        }
                    },
                    _ => {},
                }
                self.state = AppState::Sessions;
                self.error_message = None;
            },
        }
    }

}

} // verus!
