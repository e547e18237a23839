use taskstore::database::{create_pool, get_connection};
use taskstore::repository::{Database, Memory, Repository};

#[test]
fn test_get_connection_success() {
    let pool = create_pool(":memory:");

    let _connection = get_connection(&pool);
}

#[test]
fn test_database_new() {
    let pool = create_pool(":memory:");
    let database = Database::new(pool);

    let tasks = database.get_tasks();

    assert_eq!(tasks.len(), 0);
}

#[test]
fn test_database_add_task() {
    let pool = create_pool(":memory:");
    let mut database = Database::new(pool);

    let task = database.add_task("Example Task".to_string());

    assert_eq!(task.id(), 1);
    assert_eq!(task.name(), "Example Task");
}

#[test]
fn test_database_get_task() {
    let pool = create_pool(":memory:");
    let mut database = Database::new(pool);

    database.add_task("Example Task".to_string());

    let task = database.get_task(1).unwrap();

    assert_eq!(task.id(), 1);
    assert_eq!(task.name(), "Example Task");
}

#[test]
fn test_database_delete_task() {
    let pool = create_pool(":memory:");
    let mut database = Database::new(pool);

    database.add_task("Example Task".to_string());

    let task = database.delete_task(1).unwrap();

    assert_eq!(task.id(), 1);
    assert_eq!(task.name(), "Example Task");

    let tasks = database.get_tasks();

    assert_eq!(tasks.len(), 0);
    assert!(database.get_task(1).is_none());
}

#[test]
fn test_memory_list_starts_empty() {
    let memory = Memory::new();

    assert_eq!(memory.get_tasks().len(), 0);
}

#[test]
fn test_memory_add_assigns_distinct_ids() {
    let mut memory = Memory::new();

    let a = memory.add_task("one".to_string());
    let b = memory.add_task("two".to_string());
    memory.delete_task(a.id());
    let c = memory.add_task("three".to_string());

    assert_eq!(a.id(), 0);
    assert_eq!(b.id(), 1);
    assert_eq!(c.id(), 2);
    assert_ne!(a.id(), b.id());
    assert_ne!(b.id(), c.id());
    assert_ne!(a.id(), c.id());
}

#[test]
fn test_memory_get_after_add_returns_added() {
    let mut memory = Memory::new();

    let added = memory.add_task("fresh".to_string());
    let got = memory.get_task(added.id()).unwrap();

    assert_eq!(got.id(), added.id());
    assert_eq!(got.name(), added.name());
}

#[test]
fn test_memory_delete_returns_got_then_absent() {
    let mut memory = Memory::new();

    memory.add_task("keep".to_string());
    let added = memory.add_task("drop".to_string());

    let got = memory.get_task(added.id()).unwrap();
    let deleted = memory.delete_task(added.id()).unwrap();

    assert_eq!(deleted.id(), got.id());
    assert_eq!(deleted.name(), got.name());
    assert!(memory.get_task(added.id()).is_none());
    assert_eq!(memory.get_tasks().len(), 1);
}

#[test]
fn test_memory_delete_absent_changes_nothing() {
    let mut memory = Memory::new();

    memory.add_task("stay".to_string());

    assert!(memory.delete_task(42).is_none());

    let tasks = memory.get_tasks();
    assert_eq!(tasks.len(), 1);
    assert_eq!(tasks[0].id(), 0);
    assert_eq!(tasks[0].name(), "stay");
}

#[test]
fn test_memory_add_many_no_lost_update() {
    let mut memory = Memory::new();

    for k in 0..25u32 {
        let task = memory.add_task(format!("task {}", k));
        assert_eq!(task.id(), k);
    }

    assert_eq!(memory.get_tasks().len(), 25);
}

#[test]
fn test_memory_duplicate_names_allowed() {
    let mut memory = Memory::new();

    let a = memory.add_task("same".to_string());
    let b = memory.add_task("same".to_string());

    assert_ne!(a.id(), b.id());
    assert_eq!(memory.get_tasks().len(), 2);
}

#[test]
fn test_database_scenario_add_list_delete() {
    let pool = create_pool(":memory:");
    let mut database = Database::new(pool);

    let task = database.add_task("Example Task".to_string());
    assert_eq!(task.name(), "Example Task");

    let tasks = database.get_tasks();
    assert_eq!(tasks.len(), 1);
    assert_eq!(tasks[0].id(), task.id());
    assert_eq!(tasks[0].name(), "Example Task");

    let removed = database.delete_task(task.id()).unwrap();
    assert_eq!(removed.id(), task.id());
    assert_eq!(removed.name(), "Example Task");

    assert_eq!(database.get_tasks().len(), 0);
}

#[test]
fn test_database_delete_absent_changes_nothing() {
    let pool = create_pool(":memory:");
    let mut database = Database::new(pool);

    database.add_task("stay".to_string());

    assert!(database.delete_task(42).is_none());
    assert_eq!(database.get_tasks().len(), 1);
}
