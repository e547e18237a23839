use taskstore::database::create_pool;
use taskstore::repository::{Database, Memory};
use taskstore::service::Service;

#[test]
fn test_service_new() {
    let repository = Memory::new();
    let service = Service::new(Box::new(repository));

    let tasks = service.list_tasks();
    assert_eq!(tasks.len(), 0);
}

#[test]
fn test_service_create_task() {
    let repository = Memory::new();
    let mut service = Service::new(Box::new(repository));
    let task = service.create_task("Example Task".to_string());

    assert_eq!(task.id(), 0);
    assert_eq!(task.name(), "Example Task");
}

#[test]
fn test_service_list_tasks() {
    let repository = Memory::new();
    let mut service = Service::new(Box::new(repository));
    service.create_task("Example Task".to_string());

    let tasks = service.list_tasks();

    assert_eq!(tasks.len(), 1);
    assert_eq!(tasks[0].id(), 0);
    assert_eq!(tasks[0].name(), "Example Task");
}

#[test]
fn test_service_get_task_success() {
    let repository = Memory::new();
    let mut service = Service::new(Box::new(repository));
    service.create_task("Example Task".to_string());

    let task = service.get_task(0).unwrap();

    assert_eq!(task.id(), 0);
    assert_eq!(task.name(), "Example Task");
}

#[test]
fn test_service_get_task_failure() {
    let repository = Memory::new();
    let service = Service::new(Box::new(repository));

    assert!(service.get_task(0).is_none());
}

#[test]
fn test_service_delete_task_success() {
    let repository = Memory::new();
    let mut service = Service::new(Box::new(repository));
    service.create_task("Example Task".to_string());

    let tasks = service.list_tasks();
    assert_eq!(tasks.len(), 1);

    let task = service.delete_task(0).unwrap();

    assert_eq!(task.id(), 0);
    assert_eq!(task.name(), "Example Task");

    let tasks = service.list_tasks();
    assert_eq!(tasks.len(), 0);
}

#[test]
fn test_service_over_database_backend() {
    let repository = Database::new(create_pool(":memory:"));
    let mut service = Service::new(Box::new(repository));

    let task = service.create_task("Example Task".to_string());
    assert_eq!(task.id(), 1);
    assert_eq!(task.name(), "Example Task");

    let tasks = service.list_tasks();
    assert_eq!(tasks.len(), 1);
    assert_eq!(tasks[0].name(), "Example Task");

    let removed = service.delete_task(task.id()).unwrap();
    assert_eq!(removed.id(), task.id());
    assert_eq!(service.list_tasks().len(), 0);
}

#[test]
fn test_service_delete_task_failure() {
    let repository = Memory::new();
    let mut service = Service::new(Box::new(repository));

    assert!(service.delete_task(0).is_none());
}
