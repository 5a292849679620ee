//! Scenario tests for the stated behaviors of the store: insertion order,
//! completion filtering, failure leaving the file untouched, the
//! load-save round trip, and the exact file format.

use tasg::JsonStore;
use tasg::Task;
use tasg::TaskError;
use tasg::confirm_nuke;
use tasg::description_is_blank;
use tasg::next_id;

fn fixed_task(id: u32, description: &str) -> Task {
    Task {
        id,
        description: description.to_string(),
        created_at: "2024-01-01T00:00:00+00:00".to_string(),
        updated_at: "2024-01-01T00:00:00+00:00".to_string(),
        completed: false,
    }
}

#[test]
fn adds_preserve_insertion_order() {
    let store = JsonStore::new(String::from("tasks.json"));
    let c1 = store.add(None, Task::new(1, String::from("first"))).unwrap();
    let c2 = store.add(Some(&c1), Task::new(2, String::from("second"))).unwrap();
    let c3 = store.add(Some(&c2), Task::new(3, String::from("third"))).unwrap();

    let all = store.list(Some(&c3), true).unwrap();
    assert_eq!(all.len(), 3);
    assert_eq!(all[0].id, 1);
    assert_eq!(all[0].description, "first");
    assert_eq!(all[1].id, 2);
    assert_eq!(all[1].description, "second");
    assert_eq!(all[2].id, 3);
    assert_eq!(all[2].description, "third");
}

#[test]
fn completed_task_leaves_open_listing() {
    let store = JsonStore::new(String::from("tasks.json"));
    let c1 = store.add(None, Task::new(1, String::from("A"))).unwrap();
    let c2 = store.add(Some(&c1), Task::new(2, String::from("B"))).unwrap();
    let c3 = store.complete(Some(&c2), 1).unwrap();

    let open = store.list(Some(&c3), false).unwrap();
    assert_eq!(open.len(), 1);
    assert_eq!(open[0].description, "B");

    let all = store.list(Some(&c3), true).unwrap();
    assert_eq!(all.len(), 2);
    assert!(all.iter().any(|t| t.id == 1));
}

#[test]
fn failed_delete_yields_no_new_contents() {
    let store = JsonStore::new(String::from("tasks.json"));
    let c1 = store.add(None, Task::new(1, String::from("keep me"))).unwrap();

    let result = store.delete(Some(&c1), 7);
    assert!(matches!(result, Err(TaskError::NotFound(7))));

    // The operation handed back no contents, so the file stays byte-for-byte
    // as it was; loading it still shows the untouched task.
    let tasks = store.load(Some(&c1)).unwrap();
    assert_eq!(tasks.len(), 1);
    assert_eq!(tasks[0].description, "keep me");
}

#[test]
fn failed_complete_yields_no_new_contents() {
    let store = JsonStore::new(String::from("tasks.json"));
    let c1 = store.add(None, Task::new(1, String::from("still open"))).unwrap();

    let result = store.complete(Some(&c1), 9);
    assert!(matches!(result, Err(TaskError::NotFound(9))));

    let tasks = store.load(Some(&c1)).unwrap();
    assert_eq!(tasks.len(), 1);
    assert!(!tasks[0].completed);
}

#[test]
fn edit_refreshes_updated_at_only() {
    let store = JsonStore::new(String::from("tasks.json"));
    let c1 = store.add(None, fixed_task(1, "stable text")).unwrap();

    // No new description: the text stays, the update stamp moves.
    let c2 = store.edit(Some(&c1), 1, None).unwrap();
    let tasks = store.load(Some(&c2)).unwrap();
    assert_eq!(tasks[0].description, "stable text");
    assert_ne!(tasks[0].updated_at, "2024-01-01T00:00:00+00:00");
    assert_eq!(tasks[0].created_at, "2024-01-01T00:00:00+00:00");

    // A new description lands, and the update stamp moves as well.
    let c3 = store.edit(Some(&c1), 1, Some("new text".to_string())).unwrap();
    let tasks = store.load(Some(&c3)).unwrap();
    assert_eq!(tasks[0].description, "new text");
    assert_ne!(tasks[0].updated_at, "2024-01-01T00:00:00+00:00");
}

#[test]
fn save_after_load_is_identity() {
    let store = JsonStore::new(String::from("tasks.json"));
    let c1 = store.add(None, Task::new(1, String::from("quoted \" and \\ text"))).unwrap();
    let c2 = store.add(Some(&c1), Task::new(2, String::from("line\nbreak and tab\t"))).unwrap();
    let c3 = store.add(Some(&c2), Task::new(3, String::from("unicode \u{00e9}\u{4e16}"))).unwrap();

    let reloaded = store.load(Some(&c3)).unwrap();
    let rewritten = store.save(&reloaded);
    assert_eq!(rewritten, c3);

    let empty = store.save(&store.load(None).unwrap());
    assert_eq!(empty, "[]");
    let again = store.save(&store.load(Some(&empty)).unwrap());
    assert_eq!(again, "[]");
}

#[test]
fn file_format_is_exact() {
    let store = JsonStore::new(String::from("tasks.json"));
    let mut t = fixed_task(12, "say \"hi\"");
    t.completed = true;
    let contents = store.add(None, t).unwrap();
    assert_eq!(
        contents,
        "[{\"id\":12,\"description\":\"say \\\"hi\\\"\",\
         \"created_at\":\"2024-01-01T00:00:00+00:00\",\
         \"updated_at\":\"2024-01-01T00:00:00+00:00\",\"completed\":true}]"
    );
}

#[test]
fn malformed_contents_are_a_serialization_failure() {
    let store = JsonStore::new(String::from("tasks.json"));
    for bad in ["", "not json", "{}", "[", "[]x", "[{\"id\":1}]", "[,]", "[{}]", "  ", "]["] {
        let result = store.load(Some(bad));
        assert!(matches!(result, Err(TaskError::SerdeError(_))), "accepted: {bad}");
    }
    // A lone surrogate escape and a raw control character are both refused.
    let surrogate = "[{\"id\":1,\"description\":\"\\uD800\",\"created_at\":\"c\",\
        \"updated_at\":\"u\",\"completed\":false}]";
    assert!(store.load(Some(surrogate)).is_err());
    let raw_control = "[{\"id\":1,\"description\":\"a\u{0001}b\",\"created_at\":\"c\",\
        \"updated_at\":\"u\",\"completed\":false}]";
    assert!(store.load(Some(raw_control)).is_err());
}

#[test]
fn whitespace_between_tokens_is_accepted() {
    let store = JsonStore::new(String::from("tasks.json"));
    for empty in ["[]", "[ ]", " []", "[]\n", " [\t\r\n ] "] {
        let tasks = store.load(Some(empty)).unwrap();
        assert_eq!(tasks.len(), 0, "rejected: {empty:?}");
    }
    let spaced = " [ { \"id\" : 7 ,\n \"description\" : \"spaced out\" ,\
        \n \"created_at\" : \"c\" , \"updated_at\" : \"u\" , \"completed\" : false } ] \n";
    let tasks = store.load(Some(spaced)).unwrap();
    assert_eq!(tasks.len(), 1);
    assert_eq!(tasks[0].id, 7);
    assert_eq!(tasks[0].description, "spaced out");
    // Saving what was loaded writes the canonical form: the records survive
    // another load unchanged.
    let canonical = store.save(&tasks);
    assert_eq!(
        canonical,
        "[{\"id\":7,\"description\":\"spaced out\",\"created_at\":\"c\",\
         \"updated_at\":\"u\",\"completed\":false}]"
    );
    let reloaded = store.load(Some(&canonical)).unwrap();
    assert_eq!(reloaded.len(), 1);
    assert_eq!(reloaded[0].description, "spaced out");
}

#[test]
fn short_and_unicode_escapes_decode() {
    let store = JsonStore::new(String::from("tasks.json"));
    let escaped = "[{\"id\":1,\"description\":\"a\\nb\\tc\\rd\\be\\ff\\/g\\u0041h\\u00e9\",\
        \"created_at\":\"c\",\"updated_at\":\"u\",\"completed\":true}]";
    let tasks = store.load(Some(escaped)).unwrap();
    assert_eq!(tasks[0].description, "a\nb\tc\rd\u{0008}e\u{000C}f/gAh\u{00e9}");
    // Uppercase hexadecimal digits are accepted too.
    let upper = "[{\"id\":1,\"description\":\"\\u004A\\u00E9\",\
        \"created_at\":\"c\",\"updated_at\":\"u\",\"completed\":false}]";
    let tasks = store.load(Some(upper)).unwrap();
    assert_eq!(tasks[0].description, "J\u{00e9}");
}

#[test]
fn scenario_buy_milk() {
    let store = JsonStore::new(String::from("tasks.json"));
    let existing = store.list(None, true).unwrap();
    let id = next_id(&existing);
    assert_eq!(id, 1);
    let contents = store.add(None, Task::new(id, String::from("Buy milk"))).unwrap();
    let open = store.list(Some(&contents), false).unwrap();
    assert_eq!(open.len(), 1);
    assert_eq!(open[0].id, 1);
    assert!(!open[0].completed);
}

#[test]
fn scenario_fresh_delete_fails() {
    let store = JsonStore::new(String::from("tasks.json"));
    let result = store.delete(None, 1);
    assert!(matches!(result, Err(TaskError::NotFound(1))));
}

#[test]
fn scenario_edit_moves_update_stamp_forward() {
    let store = JsonStore::new(String::from("tasks.json"));
    let c1 = store.add(None, fixed_task(1, "X")).unwrap();
    let c2 = store.edit(Some(&c1), 1, Some("Y".to_string())).unwrap();
    let all = store.list(Some(&c2), true).unwrap();
    assert_eq!(all[0].description, "Y");
    // The fixed creation stamp lies in the past, so the fresh update stamp
    // compares greater.
    assert!(all[0].updated_at > all[0].created_at);
}

#[test]
fn task_new_sets_both_stamps_equal() {
    let t = Task::new(5, String::from("fresh"));
    assert_eq!(t.id, 5);
    assert_eq!(t.created_at, t.updated_at);
    assert!(!t.completed);
}

#[test]
fn not_found_message_spells_out_the_id() {
    let e = TaskError::NotFound(42);
    assert_eq!(e.message(), "Task with id 42 not found");
    let io = TaskError::IoError("disk gone".to_string());
    assert_eq!(io.message(), "IO error: disk gone");
    let se = TaskError::SerdeError("bad file".to_string());
    assert_eq!(se.message(), "Serialization error: bad file");
    let iv = TaskError::InvalidInput("Description cannot be empty".to_string());
    assert_eq!(iv.message(), "Invalid input: Description cannot be empty");
}

#[test]
fn blank_descriptions_are_detected() {
    assert!(description_is_blank(""));
    assert!(description_is_blank("   "));
    assert!(description_is_blank(" \t\n"));
    assert!(!description_is_blank("a"));
    assert!(!description_is_blank("  a  "));
    // The whole Unicode White_Space set counts as blank, as trimming does.
    assert!(description_is_blank("\u{000B}"));
    assert!(description_is_blank("\u{000C}\u{0085}\u{00A0}"));
    assert!(description_is_blank("\u{1680}\u{2003}\u{200A}\u{2028}\u{2029}\u{202F}\u{205F}\u{3000}"));
    assert!(!description_is_blank("\u{200B}"));
    assert_eq!(description_is_blank("\u{000B}x"), "\u{000B}x".trim().is_empty());
    assert_eq!(description_is_blank("\u{3000}"), "\u{3000}".trim().is_empty());
}

#[test]
fn confirmation_accepts_only_y() {
    assert!(confirm_nuke("y"));
    assert!(confirm_nuke("Y"));
    assert!(confirm_nuke("y\n"));
    assert!(confirm_nuke("  Y  "));
    assert!(!confirm_nuke(""));
    assert!(!confirm_nuke("\n"));
    assert!(!confirm_nuke("n"));
    assert!(!confirm_nuke("yes"));
    assert!(!confirm_nuke("y y"));
    // Unicode whitespace around the answer trims away, as `str::trim` has it.
    assert!(confirm_nuke("\u{000B}y"));
    assert!(confirm_nuke("\u{00A0}Y\u{3000}\n"));
    assert!(!confirm_nuke("\u{200B}y"));
}

#[test]
fn next_id_counts_all_tasks() {
    let store = JsonStore::new(String::from("tasks.json"));
    let c1 = store.add(None, Task::new(1, String::from("A"))).unwrap();
    let c2 = store.complete(Some(&c1), 1).unwrap();
    let all = store.list(Some(&c2), true).unwrap();
    assert_eq!(next_id(&all), 2);
}

#[test]
fn path_is_kept() {
    let store = JsonStore::new(String::from("/tmp/tasks.json"));
    assert_eq!(store.path().as_str(), "/tmp/tasks.json");
}

#[test]
fn ids_beyond_nine_render_with_all_digits() {
    let store = JsonStore::new(String::from("tasks.json"));
    let contents = store.add(None, fixed_task(4294967295, "max id")).unwrap();
    let tasks = store.load(Some(&contents)).unwrap();
    assert_eq!(tasks[0].id, 4294967295);
    assert!(contents.contains("\"id\":4294967295"));
}

#[test]
fn control_characters_round_trip() {
    let store = JsonStore::new(String::from("tasks.json"));
    let contents = store.add(None, fixed_task(1, "bell\u{0007} and nul\u{0000}!")).unwrap();
    assert!(contents.contains("\\u0007"));
    assert!(contents.contains("\\u0000"));
    let tasks = store.load(Some(&contents)).unwrap();
    assert_eq!(tasks[0].description, "bell\u{0007} and nul\u{0000}!");
    assert_eq!(store.save(&tasks), contents);
}
