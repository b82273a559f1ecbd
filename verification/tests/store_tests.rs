use tasker::store::TaskList;
use tasker::task::{Task, TaskFlag};

fn date() -> String {
    "Mon Jan  1 2024".to_string()
}

fn empty_store() -> TaskList {
    TaskList::new(String::new()).unwrap()
}

#[test]
fn allocate_on_empty_store_returns_zero() {
    let store = empty_store();
    assert_eq!(store.get_new_id(), 0);
}

#[test]
fn allocate_after_dense_ids_returns_next() {
    let mut store = empty_store();
    store.new_entry_at(vec!["a"], false, date(), 0);
    store.new_entry_at(vec!["b"], false, date(), 0);
    store.new_entry_at(vec!["c"], false, date(), 0);
    assert_eq!(store.get_new_id(), 3);
}

#[test]
fn allocate_fills_gap_at_zero() {
    let mut store = empty_store();
    let task = Task::new_at("only".to_string(), vec![], 1, false, date(), 0);
    store.insert(task);
    assert_eq!(store.get_new_id(), 0);
}

#[test]
fn new_task_scenario() {
    let mut store = empty_store();
    let msg = store.new_entry_at(
        vec!["@coding", "Finish", "the", "spec"],
        false,
        date(),
        0,
    );
    assert_eq!(msg, " \u{2713} Created task: 0");
    let t = store.get(0).unwrap();
    assert_eq!(t.get_boards(), vec!["@coding".to_string()]);
    assert_eq!(t.get_description(), "Finish the spec");
    assert!(!t.is_complete());
    assert!(!t.is_in_progress());
    assert_eq!(t.get_priority(), Some(1));
}

#[test]
fn new_entry_without_boards_uses_default_board() {
    let mut store = empty_store();
    store.new_entry_at(vec!["just", "words"], false, date(), 0);
    let t = store.get(0).unwrap();
    assert_eq!(t.get_boards(), vec!["My Board".to_string()]);
    assert_eq!(t.get_description(), "just words");
}

#[test]
fn note_has_no_task_fields() {
    let mut store = empty_store();
    let msg = store.new_entry_at(vec!["remember"], true, date(), 0);
    assert_eq!(msg, " \u{2713} Created note: 0");
    let t = store.get(0).unwrap();
    assert!(t.is_note());
    assert!(!t.is_complete());
    assert_eq!(t.get_priority(), None);
}

#[test]
fn flip_twice_restores_flags() {
    let mut store = empty_store();
    store.new_entry_at(vec!["t"], false, date(), 0);
    store.flip_task_flag(vec!["0"], TaskFlag::Star).unwrap();
    store.flip_task_flag(vec!["0"], TaskFlag::Star).unwrap();
    assert!(!store.get(0).unwrap().is_starred());
    store.flip_task_flag(vec!["0"], TaskFlag::Begin).unwrap();
    store.flip_task_flag(vec!["0"], TaskFlag::Begin).unwrap();
    assert!(!store.get(0).unwrap().is_in_progress());
    assert!(!store.get(0).unwrap().is_complete());
    store.flip_task_flag(vec!["0"], TaskFlag::Check).unwrap();
    store.flip_task_flag(vec!["0"], TaskFlag::Check).unwrap();
    assert!(!store.get(0).unwrap().is_complete());
    assert!(!store.get(0).unwrap().is_in_progress());
}

#[test]
fn begin_on_note_is_noop_and_reports_nothing() {
    let mut store = empty_store();
    store.new_entry_at(vec!["a", "note"], true, date(), 0);
    let msg = store.flip_task_flag(vec!["0"], TaskFlag::Begin).unwrap();
    assert_eq!(msg, "");
    let t = store.get(0).unwrap();
    assert!(t.is_note());
    assert!(!t.is_complete());
    assert!(!t.is_in_progress());
    assert_eq!(t.get_priority(), None);
}

#[test]
fn check_marks_task_and_reports_it() {
    let mut store = empty_store();
    store.new_entry_at(vec!["t0"], false, date(), 0);
    store.new_entry_at(vec!["t1"], false, date(), 0);
    let msg = store.flip_task_flag(vec!["0", "1"], TaskFlag::Check).unwrap();
    assert_eq!(msg, " \u{2713} Checked task(s): 1, 0\n");
    assert!(store.get(0).unwrap().is_complete());
    assert!(store.get(1).unwrap().is_complete());
}

#[test]
fn begin_then_check_forces_progress_off() {
    let mut store = empty_store();
    store.new_entry_at(vec!["t"], false, date(), 0);
    store.flip_task_flag(vec!["0"], TaskFlag::Begin).unwrap();
    assert!(store.get(0).unwrap().is_in_progress());
    store.flip_task_flag(vec!["0"], TaskFlag::Check).unwrap();
    assert!(store.get(0).unwrap().is_complete());
    assert!(!store.get(0).unwrap().is_in_progress());
}

#[test]
fn flip_on_missing_id_keeps_earlier_removals() {
    let mut store = empty_store();
    store.new_entry_at(vec!["t0"], false, date(), 0);
    store.new_entry_at(vec!["t1"], false, date(), 0);
    let err = store.flip_task_flag(vec!["0", "5"], TaskFlag::Star).unwrap_err();
    assert_eq!(err, " \u{2716} Unable to find item with id: 5");
    assert_eq!(store.len(), 1);
    assert!(store.get(0).is_none());
    assert!(store.get(1).is_some());
}

#[test]
fn edit_replaces_description() {
    let mut store = empty_store();
    store.new_entry_at(vec!["old", "words"], false, date(), 0);
    let msg = store.edit(vec!["@0", "new", "words"]).unwrap();
    assert_eq!(msg, " \u{2713} Updated description of item: 0");
    assert_eq!(store.get(0).unwrap().get_description(), "new words");
}

#[test]
fn edit_without_id_token_fails() {
    let mut store = empty_store();
    let err = store.edit(vec!["words", "only"]).unwrap_err();
    assert_eq!(err, " \u{2716} No id was provided in input");
}

#[test]
fn edit_with_two_id_tokens_fails() {
    let mut store = empty_store();
    let err = store.edit(vec!["@1", "@2", "words"]).unwrap_err();
    assert_eq!(err, " \u{2716} More than one id was given as input");
}

#[test]
fn edit_missing_id_fails() {
    let mut store = empty_store();
    let err = store.edit(vec!["@9", "words"]).unwrap_err();
    assert_eq!(err, " \u{2716} Unable to find item with id: 9");
}

#[test]
fn move_to_board_stores_marked_names() {
    let mut store = empty_store();
    store.new_entry_at(vec!["t"], false, date(), 0);
    store.move_to_board(vec!["@0", "cooking", "baking"]).unwrap();
    assert_eq!(
        store.get(0).unwrap().get_boards(),
        vec!["@cooking".to_string(), "@baking".to_string()]
    );
}

#[test]
fn move_to_board_without_names_returns_to_default_board() {
    let mut store = empty_store();
    store.new_entry_at(vec!["@kitchen", "t"], false, date(), 0);
    store.move_to_board(vec!["@0"]).unwrap();
    assert_eq!(store.get(0).unwrap().get_boards(), vec!["My Board".to_string()]);
}

#[test]
fn priority_rejects_out_of_range_value() {
    let mut store = empty_store();
    store.new_entry_at(vec!["t"], false, date(), 0);
    let err = store.priority(vec!["@0", "7"]).unwrap_err();
    assert_eq!(err, " \u{2716} Priority can only be 1, 2, or 3");
    assert_eq!(store.get(0).unwrap().get_priority(), Some(1));
}

#[test]
fn priority_rejects_two_tokens() {
    let mut store = empty_store();
    store.new_entry_at(vec!["t"], false, date(), 0);
    let err = store.priority(vec!["@0", "2", "3"]).unwrap_err();
    assert_eq!(err, " \u{2716} Priority can only be 1, 2, or 3");
}

#[test]
fn priority_sets_valid_value() {
    let mut store = empty_store();
    store.new_entry_at(vec!["t"], false, date(), 0);
    let msg = store.priority(vec!["@0", "2"]).unwrap();
    assert_eq!(msg, " \u{2713} Updated priority of task: 0 to medium");
    assert_eq!(store.get(0).unwrap().get_priority(), Some(2));
}

#[test]
fn clear_moves_exactly_completed_tasks() {
    let mut active = empty_store();
    let mut archive = empty_store();
    active.new_entry_at(vec!["done", "one"], false, date(), 0);
    active.new_entry_at(vec!["pending"], false, date(), 0);
    active.new_entry_at(vec!["a", "note"], true, date(), 0);
    active.new_entry_at(vec!["done", "two"], false, date(), 0);
    active.flip_task_flag(vec!["0", "3"], TaskFlag::Check).unwrap();
    archive.new_entry_at(vec!["already", "archived"], false, date(), 0);
    active.move_tasks_between_lists(&mut archive, None, false).unwrap();
    assert_eq!(active.len(), 2);
    assert!(active.get(1).is_some());
    assert!(active.get(2).is_some());
    assert!(active.get(0).is_none());
    assert!(active.get(3).is_none());
    assert_eq!(archive.len(), 3);
    assert_eq!(archive.get(1).unwrap().get_description(), "done one");
    assert_eq!(archive.get(2).unwrap().get_description(), "done two");
    assert!(archive.get(1).unwrap().is_complete());
}

#[test]
fn move_with_explicit_id_reassigns_fresh_id() {
    let mut active = empty_store();
    let mut archive = empty_store();
    active.new_entry_at(vec!["t"], false, date(), 0);
    let msg = active.move_tasks_between_lists(&mut archive, Some(vec!["0"]), false).unwrap();
    assert_eq!(msg, " \u{2713} Restore item(s): 0");
    assert_eq!(active.len(), 0);
    assert_eq!(archive.get(0).unwrap().get_id(), 0);
    assert_eq!(archive.get(0).unwrap().get_description(), "t");
}

#[test]
fn round_trip_restores_store_content() {
    let mut store = empty_store();
    store.new_entry_at(vec!["@coding", "quote\"and\\slash"], false, date(), 5);
    store.new_entry_at(vec!["plain", "words"], true, date(), 86400001);
    store.priority(vec!["@0", "3"]).unwrap();
    store.flip_task_flag(vec!["0"], TaskFlag::Star).unwrap();
    let text = store.serialize();
    let reloaded = TaskList::new(text.clone()).unwrap();
    assert_eq!(reloaded.serialize(), text);
    assert_eq!(reloaded.len(), 2);
    let t0 = reloaded.get(0).unwrap();
    assert_eq!(t0.get_description(), "quote\"and\\slash");
    assert_eq!(t0.get_boards(), vec!["@coding".to_string()]);
    assert_eq!(t0.get_priority(), Some(3));
    assert!(t0.is_starred());
    assert_eq!(t0.get_timestamp(), 5);
    let t1 = reloaded.get(1).unwrap();
    assert!(t1.is_note());
    assert_eq!(t1.get_timestamp(), 86400001);
}

#[test]
fn empty_text_and_empty_mapping_load_as_empty_store() {
    assert_eq!(TaskList::new(String::new()).unwrap().len(), 0);
    assert_eq!(TaskList::new("{}".to_string()).unwrap().len(), 0);
}

#[test]
fn malformed_text_is_refused() {
    assert!(TaskList::new("not json".to_string()).is_err());
    assert!(TaskList::new("{\n  \"0\": {\n}".to_string()).is_err());
}

#[test]
fn serialize_produces_canonical_text() {
    let mut store = empty_store();
    store.new_entry_at(vec!["hello"], false, "D".to_string(), 7);
    let expected = "{\n  \"0\": {\n    \"_id\": 0,\n    \"_date\": \"D\",\n    \"_timestamp\": 7,\n    \"description\": \"hello\",\n    \"isStarred\": false,\n    \"boards\": [\n      \"My Board\"\n    ],\n    \"_isTask\": true,\n    \"isComplete\": false,\n    \"inProgress\": false,\n    \"priority\": 1\n  }\n}";
    assert_eq!(store.serialize(), expected);
}

#[test]
fn board_view_counts_completed_over_total() {
    let mut store = empty_store();
    store.new_entry_at(vec!["@cooking", "soup"], false, date(), 0);
    store.new_entry_at(vec!["@cooking", "bread"], false, date(), 0);
    store.new_entry_at(vec!["@cooking", "stew"], false, date(), 0);
    store.flip_task_flag(vec!["0", "1"], TaskFlag::Check).unwrap();
    let out = store.board_view_at(0);
    let expected = " @cooking [2/3]\n    0. \u{2713} soup \n    1. \u{2713} bread \n    2. \u{2610} stew \n";
    assert_eq!(out, expected);
}

#[test]
fn board_view_renders_default_board_first_and_age() {
    let mut store = empty_store();
    store.new_entry_at(vec!["@zzz", "other"], false, date(), 0);
    store.new_entry_at(vec!["plain"], false, date(), 0);
    let day: i64 = 86400000;
    let out = store.board_view_at(2 * day + 1);
    let expected = " My Board [0/1]\n    1. \u{2610} plain 2d \n @zzz [0/1]\n    0. \u{2610} other 2d \n";
    assert_eq!(out, expected);
}

#[test]
fn negative_timestamp_survives_the_round_trip() {
    let mut store = empty_store();
    store.new_entry_at(vec!["old"], false, date(), -5);
    let text = store.serialize();
    let reloaded = TaskList::new(text).unwrap();
    assert_eq!(reloaded.get(0).unwrap().get_timestamp(), -5);
}

#[test]
fn error_builders_produce_their_exact_messages() {
    assert_eq!(tasker::errors::check_mark(), "\u{2713}");
    assert_eq!(
        tasker::errors::no_id_error(),
        " \u{2716} No id was provided in input"
    );
    assert_eq!(
        tasker::errors::too_many_ids_error(),
        " \u{2716} More than one id was given as input"
    );
    assert_eq!(
        tasker::errors::no_index("4".to_string()),
        " \u{2716} Unable to find item with id: 4"
    );
    assert_eq!(
        tasker::errors::invalid_priority(),
        " \u{2716} Priority can only be 1, 2, or 3"
    );
}

#[test]
fn priority_labels_cover_all_levels() {
    let mut store = empty_store();
    store.new_entry_at(vec!["t"], false, date(), 0);
    let m1 = store.priority(vec!["@0", "1"]).unwrap();
    assert_eq!(m1, " \u{2713} Updated priority of task: 0 to normal");
    let m3 = store.priority(vec!["@0", "3"]).unwrap();
    assert_eq!(m3, " \u{2713} Updated priority of task: 0 to high");
    assert_eq!(store.get(0).unwrap().get_priority(), Some(3));
}

#[test]
fn get_tasks_by_ids_removes_and_returns_records() {
    let mut store = empty_store();
    store.new_entry_at(vec!["zero"], false, date(), 0);
    store.new_entry_at(vec!["one"], false, date(), 0);
    let removed = store.get_tasks_by_ids(vec!["1"]).unwrap();
    assert_eq!(removed.len(), 1);
    assert_eq!(removed[0].get_description(), "one");
    assert_eq!(store.len(), 1);
    assert!(store.get(1).is_none());
}

#[test]
fn flip_flag_on_task_reports_new_value() {
    let mut task = Task::new_at("t".to_string(), vec![], 0, false, date(), 0);
    assert_eq!(task.flip_flag(TaskFlag::Begin), Some(true));
    assert_eq!(task.flip_flag(TaskFlag::Begin), Some(false));
    assert_eq!(task.flip_flag(TaskFlag::Check), Some(true));
    assert!(!task.is_in_progress());
    let mut note = Task::new_at("n".to_string(), vec![], 1, true, date(), 0);
    assert_eq!(note.flip_flag(TaskFlag::Check), None);
    assert_eq!(note.flip_flag(TaskFlag::Star), Some(true));
}
