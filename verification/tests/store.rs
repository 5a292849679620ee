use tasg::JsonStore;
use tasg::Task;
use tasg::TaskError;

#[test]
fn test_add_task() {
    let store = JsonStore::new(String::from("tasks.json"));

    let task = Task::new(1, String::from("Test task"));
    let contents = store.add(None, task).unwrap();

    let tasks: Vec<Task> = store.load(Some(&contents)).unwrap();

    assert_eq!(tasks.len(), 1);
    assert_eq!(tasks[0].id, 1);
    assert_eq!(tasks[0].description, "Test task");
    assert!(!tasks[0].completed);
}

#[test]
fn test_list_tasks() {
    let store = JsonStore::new(String::from("tasks.json"));

    let task1 = Task::new(1, String::from("Test task 1"));
    let task2 = Task::new(2, String::from("Test task 2"));
    let c1 = store.add(None, task1).unwrap();
    let c2 = store.add(Some(&c1), task2).unwrap();

    let all_tasks = store.list(Some(&c2), true).unwrap();
    assert_eq!(all_tasks.len(), 2);

    let incomplete_tasks = store.list(Some(&c2), false).unwrap();
    assert_eq!(incomplete_tasks.len(), 2);
    assert_eq!(incomplete_tasks[0].id, 1);
}

#[test]
fn test_complete_task() {
    let store = JsonStore::new(String::from("tasks.json"));

    let task = Task::new(1, String::from("Test task"));
    let c1 = store.add(None, task).unwrap();
    let c2 = store.complete(Some(&c1), 1).unwrap();

    let tasks: Vec<Task> = store.load(Some(&c2)).unwrap();

    assert_eq!(tasks.len(), 1);
    assert!(tasks[0].completed);
}

#[test]
fn test_complete_task_not_found() {
    let store = JsonStore::new(String::from("tasks.json"));

    let result = store.complete(None, 1);
    assert!(result.is_err());
    if let Err(TaskError::NotFound(id)) = result {
        assert_eq!(id, 1);
    } else {
        panic!("Expected TaskError::NotFound");
    }
}

#[test]
fn test_delete_task() {
    let store = JsonStore::new(String::from("tasks.json"));

    let task = Task::new(1, String::from("Test task"));
    let c1 = store.add(None, task).unwrap();
    let c2 = store.delete(Some(&c1), 1).unwrap();

    let tasks: Vec<Task> = store.load(Some(&c2)).unwrap();

    assert_eq!(tasks.len(), 0);
}

#[test]
fn test_delete_task_not_found() {
    let store = JsonStore::new(String::from("tasks.json"));

    let result = store.delete(None, 1);
    assert!(result.is_err());
    if let Err(TaskError::NotFound(id)) = result {
        assert_eq!(id, 1);
    } else {
        panic!("Expected TaskError::NotFound");
    }
}

#[test]
fn test_edit_task() {
    let store = JsonStore::new(String::from("tasks.json"));

    let task = Task::new(1, String::from("Original task"));
    let c1 = store.add(None, task).unwrap();

    let c2 = store.edit(Some(&c1), 1, Some("Edited task".to_string())).unwrap();

    let tasks: Vec<Task> = store.load(Some(&c2)).unwrap();

    assert_eq!(tasks.len(), 1);
    assert_eq!(tasks[0].description, "Edited task");
}

#[test]
fn test_edit_task_not_found() {
    let store = JsonStore::new(String::from("tasks.json"));

    let result = store.edit(None, 1, Some("New description".to_string()));
    assert!(result.is_err());
    if let Err(TaskError::NotFound(id)) = result {
        assert_eq!(id, 1);
    } else {
        panic!("Expected TaskError::NotFound");
    }
}

#[test]
fn test_edit_task_no_description() {
    let store = JsonStore::new(String::from("tasks.json"));

    let task = Task::new(1, String::from("Original task"));
    let c1 = store.add(None, task).unwrap();

    let c2 = store.edit(Some(&c1), 1, None).unwrap();

    let tasks: Vec<Task> = store.load(Some(&c2)).unwrap();

    assert_eq!(tasks.len(), 1);
    assert_eq!(tasks[0].description, "Original task");
}
