//! The decisions of the user interface: what each action of the user changes
//! in the interface's editing state, and what it asks of the peer.
use vstd::prelude::*;

verus! {

/// What the interface asks of the peer.
pub enum Command {
    /// Write `value` to the item `key`.
    Update { key: String, value: bool },
    /// Remove the item `key`.
    Remove { key: String },
    /// Forget every item.
    Clear,
    /// Save the state to disk.
    Save,
}

/// What a command holds.
pub ghost enum CommandView {
    Update { key: Seq<char>, value: bool },
    Remove { key: Seq<char> },
    Clear,
    Save,
}

impl View for Command {
    type V = CommandView;

    open spec fn view(&self) -> CommandView {
        match self {
            Command::Update { key, value } => CommandView::Update { key: key@, value: *value },
            Command::Remove { key } => CommandView::Remove { key: key@ },
            Command::Clear => CommandView::Clear,
            Command::Save => CommandView::Save,
        }
    }
}

/// What the user does.
pub enum UiEvent {
    /// Types `text` into the field of a new item.
    TypeNewItem { text: String },
    /// Submits the field of a new item.
    AddItem,
    /// Ticks or unticks the item `key`, shown as `done`.
    Toggle { key: String, done: bool },
    /// Deletes the item `key`.
    Delete { key: String },
    /// Clicks the name of the item `key` to rename it.
    StartEdit { key: String },
    /// Types `text` into the field of the name being edited.
    TypeEdit { text: String },
    /// Leaves the field of the name of the item `key` (shown as `done`), or
    /// presses Enter in it.
    FinishEdit { key: String, done: bool },
    /// Presses Escape in the field of the name being edited.
    CancelEdit,
    /// Clicks "Save".
    SaveAll,
    /// Clicks "Clear All".
    ClearAll,
}

/// The editing state of the interface: the text of a new item, the item whose
/// name is being edited, and the text of that name.
pub struct Editor {
    pub new_item: String,
    pub editing: Option<String>,
    pub edit_text: String,
}

/// What the editing state holds.
pub ghost struct EditorView {
    pub new_item: Seq<char>,
    pub editing: Option<Seq<char>>,
    pub edit_text: Seq<char>,
}

impl View for Editor {
    type V = EditorView;

    open spec fn view(&self) -> EditorView {
        EditorView {
            new_item: self.new_item@,
            editing: match self.editing {
                Some(k) => Some(k@),
                None => None,
            },
            edit_text: self.edit_text@,
        }
    }
}

/// The commands `cmds` hold `views`, in order.
pub open spec fn commands_are(cmds: Seq<Command>, views: Seq<CommandView>) -> bool {
    cmds.map_values(|c: Command| c@) == views
}

/// Whether the name of `key` is being edited.
fn is_editing(editing: &Option<String>, key: &String) -> (r: bool)
    ensures
        r == (editing matches Some(k) && k@ == key@),
{
    match editing {
        Some(k) => *k == *key,
        None => false,
    }
}

impl Editor {
    /// An interface with empty fields, editing nothing.
    pub fn new() -> (e: Editor)
        ensures
            e@ == (EditorView { new_item: Seq::empty(), editing: None, edit_text: Seq::empty() }),
    {
        Editor { new_item: String::new(), editing: None, edit_text: String::new() }
    }

    /// Handles an action of the user, and gives the commands that it asks of
    /// the peer, in order.
    /// - Typing into a field sets its text.
    /// - Adding an item writes `false` to the item named by the new-item field
    ///   and empties the field; with an empty field, nothing happens.
    /// - Toggling writes the opposite of the shown value, except to the item
    ///   whose name is being edited (its box is disabled).
    /// - Deleting removes the item, and stops the editing of its name.
    /// - Clicking a name starts editing it, with the name as the text, unless
    ///   it is being edited already.
    /// - Finishing the edit of the name being edited stops the editing; a new,
    ///   nonempty name renames the item: the old name is removed, and the shown
    ///   value is written to the new one. Finishing another name does nothing.
    /// - Escape stops the editing.
    /// - "Save" saves; "Clear All" forgets every item and then saves.
    pub fn handle(&mut self, event: UiEvent) -> (cmds: Vec<Command>)
        ensures
            match event {
                UiEvent::TypeNewItem { text } => {
                    &&& final(self)@ == (EditorView { new_item: text@, ..old(self)@ })
                    &&& cmds@.len() == 0
                },
                UiEvent::AddItem => if old(self)@.new_item.len() == 0 {
                    &&& final(self)@ == old(self)@
                    &&& cmds@.len() == 0
                } else {
                    &&& final(self)@ == (EditorView { new_item: Seq::empty(), ..old(self)@ })
                    &&& commands_are(cmds@, seq![CommandView::Update { key: old(self)@.new_item, value: false }])
                },
                UiEvent::Toggle { key, done } => {
                    &&& final(self)@ == old(self)@
                    &&& if old(self)@.editing == Some(key@) {
                        cmds@.len() == 0
                    } else {
                        commands_are(cmds@, seq![CommandView::Update { key: key@, value: !done }])
                    }
                },
                UiEvent::Delete { key } => {
                    &&& final(self)@ == (EditorView {
                        editing: if old(self)@.editing == Some(key@) {
                            None
                        } else {
                            old(self)@.editing
                        },
                        ..old(self)@
                    })
                    &&& commands_are(cmds@, seq![CommandView::Remove { key: key@ }])
                },
                UiEvent::StartEdit { key } => {
                    &&& final(self)@ == if old(self)@.editing == Some(key@) {
                        old(self)@
                    } else {
                        EditorView { editing: Some(key@), edit_text: key@, ..old(self)@ }
                    }
                    &&& cmds@.len() == 0
                },
                UiEvent::TypeEdit { text } => {
                    &&& final(self)@ == (EditorView { edit_text: text@, ..old(self)@ })
                    &&& cmds@.len() == 0
                },
                UiEvent::FinishEdit { key, done } => if old(self)@.editing != Some(key@) {
                    &&& final(self)@ == old(self)@
                    &&& cmds@.len() == 0
                } else {
                    &&& final(self)@ == (EditorView { editing: None, ..old(self)@ })
                    &&& if old(self)@.edit_text.len() == 0 || old(self)@.edit_text == key@ {
                        cmds@.len() == 0
                    } else {
                        commands_are(
                            cmds@,
                            seq![
                                CommandView::Remove { key: key@ },
                                CommandView::Update { key: old(self)@.edit_text, value: done },
                            ],
                        )
                    }
                },
                UiEvent::CancelEdit => {
                    &&& final(self)@ == (EditorView { editing: None, ..old(self)@ })
                    &&& cmds@.len() == 0
                },
                UiEvent::SaveAll => {
                    &&& final(self)@ == old(self)@
                    &&& commands_are(cmds@, seq![CommandView::Save])
                },
                UiEvent::ClearAll => {
                    &&& final(self)@ == old(self)@
                    &&& commands_are(cmds@, seq![CommandView::Clear, CommandView::Save])
                },
            },
    {
        let mut cmds: Vec<Command> = Vec::new();
        match event {
            UiEvent::TypeNewItem { text } => {
                self.new_item = text;
            },
            UiEvent::AddItem => {
                if !self.new_item.as_str().is_empty() {
                    let key = self.new_item.clone();
                    cmds.push(Command::Update { key, value: false });
                    self.new_item = String::new();
                }
            },
            UiEvent::Toggle { key, done } => {
                if !is_editing(&self.editing, &key) {
                    cmds.push(Command::Update { key, value: !done });
                }
            },
            UiEvent::Delete { key } => {
                if is_editing(&self.editing, &key) {
                    self.editing = None;
                }
                cmds.push(Command::Remove { key });
            },
            UiEvent::StartEdit { key } => {
                if !is_editing(&self.editing, &key) {
                    self.edit_text = key.clone();
                    self.editing = Some(key);
                }
            },
            UiEvent::TypeEdit { text } => {
                self.edit_text = text;
            },
            UiEvent::FinishEdit { key, done } => {
                if is_editing(&self.editing, &key) {
                    self.editing = None;
                    let new_key = self.edit_text.clone();
                    if !new_key.as_str().is_empty() && !(new_key == key) {
                        cmds.push(Command::Remove { key });
                        cmds.push(Command::Update { key: new_key, value: done });
                    }
                }
            },
            UiEvent::CancelEdit => {
                self.editing = None;
            },
            UiEvent::SaveAll => {
                cmds.push(Command::Save);
            },
            UiEvent::ClearAll => {
                cmds.push(Command::Clear);
                cmds.push(Command::Save);
            },
        }
        proof {
            let views = cmds@.map_values(|c: Command| c@);
            if cmds@.len() == 1 {
                assert(views =~= seq![cmds@[0]@]);
            } else if cmds@.len() == 2 {
                assert(views =~= seq![cmds@[0]@, cmds@[1]@]);
            }
        }
        cmds
    }
}


/// Starts polling the peer for the list once: whether to start now (it was not
/// started yet); afterwards it counts as started.
pub fn begin_polling(started: &mut bool) -> (start: bool)
    ensures
        start == !*old(started),
        *final(started),
{
    if *started {
        false
    } else {
        *started = true;
        true
    }
}


/// Polling starts once over any number of calls of `begin_polling` on one
/// flag that starts unset: `flags[i]` is the flag before call `i`, and
/// `starts[i]` what call `i` gives. Only the first call starts polling, and the
/// flag stays set after it.
pub proof fn law_polling_starts_once(flags: Seq<bool>, starts: Seq<bool>)
    requires
        flags.len() == starts.len() + 1,
        !flags[0],
        forall|i: int| 0 <= i < starts.len() ==> #[trigger] starts[i] == !flags[i] && flags[i + 1],
    ensures
        starts.len() > 0 ==> starts[0],
        forall|i: int| 1 <= i < starts.len() ==> !#[trigger] starts[i],
        forall|i: int| 1 <= i < flags.len() ==> #[trigger] flags[i],
{
    assert forall|i: int| 1 <= i < flags.len() implies #[trigger] flags[i] by {
        assert(starts[i - 1] == !flags[i - 1] && flags[i - 1 + 1]);
    }
    assert forall|i: int| 1 <= i < starts.len() implies !#[trigger] starts[i] by {
        assert(flags[i]);
    }
}

} // verus!
