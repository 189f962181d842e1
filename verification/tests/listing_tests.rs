use groceries_bmesh_core::setup::{permission_step, PermissionStep, MAX_PERMISSION_CHECKS};
use groceries_bmesh_core::clock::Actor;
use groceries_bmesh_core::editor::{Command, Editor, UiEvent};
use groceries_bmesh_core::listing::{grocery_rows, remaining_count};
use groceries_bmesh_core::peer::PeerState;

fn items(entries: &[(&str, &str)]) -> Vec<(String, String)> {
    entries.iter().map(|(k, v)| (k.to_string(), v.to_string())).collect()
}

fn rows(entries: &[(&str, bool)]) -> Vec<(String, bool)> {
    entries.iter().map(|(k, v)| (k.to_string(), *v)).collect()
}

fn actor(b: u8) -> Actor {
    [b; 32]
}

fn update(key: &str, value: bool) -> (String, bool) {
    (key.to_string(), value)
}

fn shown(cmds: &[Command]) -> Vec<String> {
    cmds.iter()
        .map(|c| match c {
            Command::Update { key, value } => format!("update {} {}", key, value),
            Command::Remove { key } => format!("remove {}", key),
            Command::Clear => "clear".to_string(),
            Command::Save => "save".to_string(),
        })
        .collect()
}

#[test]
fn rows_come_in_order_of_name_with_parsed_values() {
    let r = grocery_rows(&items(&[("milk", "true"), ("eggs", "false"), ("bread", "true")]));
    assert_eq!(r, rows(&[("bread", true), ("eggs", false), ("milk", true)]));
}

#[test]
fn rows_are_ordered_by_bytes() {
    let r = grocery_rows(&items(&[("apple", "false"), ("Banana", "true"), ("tea", "true"), ("te", "false"), ("é", "false"), ("z", "true")]));
    assert_eq!(
        r,
        rows(&[("Banana", true), ("apple", false), ("te", false), ("tea", true), ("z", true), ("é", false)])
    );
}

#[test]
fn no_items_give_no_rows() {
    assert!(grocery_rows(&Vec::new()).is_empty());
}

#[test]
fn rows_of_a_peer_listing() {
    let mut p = PeerState::new(actor(1));
    p.update("milk".to_string(), true);
    p.update("eggs".to_string(), false);
    p.update("bread".to_string(), false);
    p.remove("eggs".to_string());
    let r = grocery_rows(&p.to_hashmap());
    assert_eq!(r, rows(&[("bread", false), ("milk", true)]));
    assert_eq!(remaining_count(&r), 1);
}

#[test]
fn remaining_counts_the_rows_not_done() {
    assert_eq!(remaining_count(&rows(&[("a", true), ("b", false), ("c", false)])), 2);
    assert_eq!(remaining_count(&Vec::new()), 0);
}

#[test]
fn adding_an_item_writes_false_and_empties_the_field() {
    let mut e = Editor::new();
    assert!(e.handle(UiEvent::AddItem).is_empty());
    assert!(e.handle(UiEvent::TypeNewItem { text: "milk".to_string() }).is_empty());
    assert_eq!(e.new_item, "milk");
    let cmds = e.handle(UiEvent::AddItem);
    assert_eq!(shown(&cmds), vec!["update milk false"]);
    assert_eq!(e.new_item, "");
    assert!(e.handle(UiEvent::AddItem).is_empty());
}

#[test]
fn toggling_writes_the_opposite_unless_the_name_is_being_edited() {
    let mut e = Editor::new();
    let (k, v) = update("milk", true);
    assert_eq!(shown(&e.handle(UiEvent::Toggle { key: k.clone(), done: v })), vec!["update milk false"]);
    assert_eq!(shown(&e.handle(UiEvent::Toggle { key: k.clone(), done: false })), vec!["update milk true"]);
    e.handle(UiEvent::StartEdit { key: k.clone() });
    assert!(e.handle(UiEvent::Toggle { key: k.clone(), done: v }).is_empty());
    assert_eq!(shown(&e.handle(UiEvent::Toggle { key: "eggs".to_string(), done: v })), vec!["update eggs false"]);
}

#[test]
fn deleting_removes_and_stops_the_edit_of_that_name() {
    let mut e = Editor::new();
    e.handle(UiEvent::StartEdit { key: "milk".to_string() });
    assert_eq!(shown(&e.handle(UiEvent::Delete { key: "eggs".to_string() })), vec!["remove eggs"]);
    assert_eq!(e.editing.as_deref(), Some("milk"));
    assert_eq!(shown(&e.handle(UiEvent::Delete { key: "milk".to_string() })), vec!["remove milk"]);
    assert_eq!(e.editing, None);
}

#[test]
fn starting_an_edit_takes_the_name_as_text_once() {
    let mut e = Editor::new();
    e.handle(UiEvent::StartEdit { key: "milk".to_string() });
    assert_eq!(e.editing.as_deref(), Some("milk"));
    assert_eq!(e.edit_text, "milk");
    e.handle(UiEvent::TypeEdit { text: "oat milk".to_string() });
    e.handle(UiEvent::StartEdit { key: "milk".to_string() });
    assert_eq!(e.edit_text, "oat milk");
}

#[test]
fn finishing_an_edit_renames_the_item() {
    let mut e = Editor::new();
    e.handle(UiEvent::StartEdit { key: "milk".to_string() });
    e.handle(UiEvent::TypeEdit { text: "oat milk".to_string() });
    let cmds = e.handle(UiEvent::FinishEdit { key: "milk".to_string(), done: true });
    assert_eq!(shown(&cmds), vec!["remove milk", "update oat milk true"]);
    assert_eq!(e.editing, None);
    assert!(e.handle(UiEvent::FinishEdit { key: "milk".to_string(), done: true }).is_empty());
}

#[test]
fn finishing_with_an_empty_or_unchanged_name_renames_nothing() {
    let mut e = Editor::new();
    e.handle(UiEvent::StartEdit { key: "milk".to_string() });
    assert!(e.handle(UiEvent::FinishEdit { key: "milk".to_string(), done: false }).is_empty());
    assert_eq!(e.editing, None);
    e.handle(UiEvent::StartEdit { key: "milk".to_string() });
    e.handle(UiEvent::TypeEdit { text: String::new() });
    assert!(e.handle(UiEvent::FinishEdit { key: "milk".to_string(), done: false }).is_empty());
    assert_eq!(e.editing, None);
}

#[test]
fn finishing_another_name_or_escaping_changes_nothing_asked() {
    let mut e = Editor::new();
    e.handle(UiEvent::StartEdit { key: "milk".to_string() });
    e.handle(UiEvent::TypeEdit { text: "tea".to_string() });
    assert!(e.handle(UiEvent::FinishEdit { key: "eggs".to_string(), done: false }).is_empty());
    assert_eq!(e.editing.as_deref(), Some("milk"));
    assert!(e.handle(UiEvent::CancelEdit).is_empty());
    assert_eq!(e.editing, None);
    assert_eq!(e.edit_text, "tea");
}

#[test]
fn save_and_clear_all() {
    let mut e = Editor::new();
    assert_eq!(shown(&e.handle(UiEvent::SaveAll)), vec!["save"]);
    assert_eq!(shown(&e.handle(UiEvent::ClearAll)), vec!["clear", "save"]);
}

#[test]
fn polling_starts_once() {
    let mut started = false;
    assert!(groceries_bmesh_core::editor::begin_polling(&mut started));
    assert!(started);
    assert!(!groceries_bmesh_core::editor::begin_polling(&mut started));
    assert!(started);
}

#[test]
fn permission_wait_proceeds_waits_then_gives_up() {
    assert!(matches!(permission_step(true, 0), PermissionStep::Proceed));
    assert!(matches!(permission_step(true, 500), PermissionStep::Proceed));
    assert!(matches!(permission_step(false, 0), PermissionStep::Wait));
    assert!(matches!(permission_step(false, 299), PermissionStep::Wait));
    assert!(matches!(permission_step(false, MAX_PERMISSION_CHECKS), PermissionStep::GiveUp));
}
