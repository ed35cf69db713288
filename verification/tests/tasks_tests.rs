//! Tests for the task lifecycle manager.

use chrono::Datelike;
use tasktrack::colors::ClientColorMap;
use tasktrack::date::Date;
use tasktrack::tasks::{CreateTaskPayload, Task, TaskError, TaskStore};

fn today() -> Date {
    Date {
        days: chrono::Utc::now().date_naive().num_days_from_ce() as i64,
    }
}

fn now() -> i64 {
    chrono::Utc::now().timestamp()
}

fn payload(
    client_name: &str,
    description: &str,
    task_date: Option<Date>,
    priority: Option<i32>,
) -> CreateTaskPayload {
    CreateTaskPayload {
        client_name: client_name.to_string(),
        description: description.to_string(),
        task_date,
        priority,
    }
}

fn find_by_client(store: &TaskStore, client_name: &str) -> Vec<Task> {
    let mut found = Vec::new();
    for i in 0..store.task_count() {
        let t = store.task_at(i);
        if t.client_name == client_name {
            found.push(t.clone());
        }
    }
    found
}

#[test]
fn test_create_and_get_task() {
    let mut store = TaskStore::new();
    let mut colors = ClientColorMap::default();
    let today = today();
    let payload = payload("Test Client", "Test the database", Some(today), Some(5));

    let created_task = store.create_task(&mut colors, payload, today, now());

    assert_eq!(created_task.client_name, "Test Client");
    assert_eq!(created_task.description, "Test the database");
    assert_eq!(created_task.task_date, today);
    assert_eq!(created_task.priority, Some(5));
    assert!(created_task.id > 0);

    let week_tasks = store.list_current_week(today);

    assert_eq!(week_tasks.len(), 1);
    assert_eq!(week_tasks[0].id, created_task.id);
    assert_eq!(week_tasks[0].priority, Some(5));
}

#[test]
fn test_create_task_without_priority() {
    let mut store = TaskStore::new();
    let mut colors = ClientColorMap::default();
    let today = today();
    let payload = payload("Client No Prio", "Task without priority", Some(today), None);

    let created_task = store.create_task(&mut colors, payload, today, now());
    assert_eq!(created_task.priority, None);

    let week_tasks = store.list_current_week(today);
    assert_eq!(week_tasks.len(), 1);
    assert_eq!(week_tasks[0].priority, None);
}

#[test]
fn test_soft_delete_task() {
    let mut store = TaskStore::new();
    let mut colors = ClientColorMap::default();
    let today = today();
    let payload = payload("Client to Delete", "a task to soft delete", Some(today), Some(1));
    let task_to_delete = store.create_task(&mut colors, payload, today, now());

    let tasks_before_delete = store.list_current_week(today);
    assert_eq!(tasks_before_delete.len(), 1);

    let was_deleted = store.soft_delete_task(task_to_delete.id, now());

    assert!(was_deleted);

    let tasks_after_delete = store.list_current_week(today);
    assert_eq!(tasks_after_delete.len(), 0);
}

#[test]
fn test_soft_delete_twice_returns_false() {
    let mut store = TaskStore::new();
    let mut colors = ClientColorMap::default();
    let today = today();
    let t = store.create_task(
        &mut colors,
        payload("Once", "deleted once", Some(today), None),
        today,
        now(),
    );
    assert!(store.soft_delete_task(t.id, now()));
    assert!(!store.soft_delete_task(t.id, now()));
    assert!(!store.soft_delete_task(9999, now()));
}

#[test]
fn test_soft_delete_keeps_the_row() {
    let mut store = TaskStore::new();
    let mut colors = ClientColorMap::default();
    let today = today();
    let t = store.create_task(
        &mut colors,
        payload("Tombstone", "kept but invisible", Some(today), None),
        today,
        now(),
    );
    let stamp = now();
    assert!(store.soft_delete_task(t.id, stamp));
    assert_eq!(store.task_count(), 1);
    assert_eq!(store.task_at(0).deleted_at, Some(stamp));
    assert_eq!(store.task_at(0).client_name, "Tombstone");
}

#[test]
fn test_rollover_tasks() {
    let mut store = TaskStore::new();
    let mut colors = ClientColorMap::default();
    let today = today();
    let tomorrow = today.succ();

    let payload_today = payload("Rollover Client", "A task for today", Some(today), Some(10));
    store.create_task(&mut colors, payload_today, today, now());

    let other_date = Date {
        days: today.days - 2,
    };
    let payload_other = payload(
        "Other Client",
        "A task from another day",
        Some(other_date),
        Some(20),
    );
    store.create_task(&mut colors, payload_other, today, now());

    let num_rolled_over = store.rollover_tasks(today);

    assert_eq!(num_rolled_over, 1);

    let tasks = find_by_client(&store, "Rollover Client");
    assert_eq!(tasks.len(), 1);
    assert_eq!(tasks[0].task_date, tomorrow);
    assert_eq!(tasks[0].priority, Some(10));
}

#[test]
fn test_rollover_skips_soft_deleted_and_other_days() {
    let mut store = TaskStore::new();
    let mut colors = ClientColorMap::default();
    let today = today();

    let doomed = store.create_task(
        &mut colors,
        payload("Doomed", "deleted before rollover", Some(today), None),
        today,
        now(),
    );
    store.soft_delete_task(doomed.id, now());
    let old_date = Date {
        days: today.days - 2,
    };
    store.create_task(
        &mut colors,
        payload("Elder", "dated two days ago", Some(old_date), None),
        today,
        now(),
    );

    assert_eq!(store.rollover_tasks(today), 0);
    assert_eq!(find_by_client(&store, "Doomed")[0].task_date, today);
    assert_eq!(find_by_client(&store, "Elder")[0].task_date, old_date);
}

#[test]
fn test_get_tasks_order_by_priority() {
    let mut store = TaskStore::new();
    let mut colors = ClientColorMap::default();
    let today = today();

    store.create_task(
        &mut colors,
        payload("Client A", "Task Low Prio", Some(today), Some(10)),
        today,
        now(),
    );
    store.create_task(
        &mut colors,
        payload("Client B", "Task High Prio", Some(today), Some(1)),
        today,
        now(),
    );
    store.create_task(
        &mut colors,
        payload("Client C", "Task Medium Prio", Some(today), Some(5)),
        today,
        now(),
    );
    store.create_task(
        &mut colors,
        payload("Client D", "Task No Prio", Some(today), None),
        today,
        now(),
    );

    let tasks = store.list_current_week(today);
    let today_tasks: Vec<Task> = tasks
        .into_iter()
        .filter(|t| t.task_date == today)
        .collect();

    assert_eq!(today_tasks.len(), 4);
    assert_eq!(today_tasks[0].priority, Some(1));
    assert_eq!(today_tasks[0].description, "Task High Prio".to_string());
    assert_eq!(today_tasks[1].priority, Some(5));
    assert_eq!(today_tasks[2].priority, Some(10));
}

#[test]
fn test_priority_ordering_on_same_date() {
    let mut store = TaskStore::new();
    let mut colors = ClientColorMap::default();
    let today = today();

    store.create_task(
        &mut colors,
        payload("Client C", "Task Medium Prio", Some(today), Some(5)),
        today,
        now(),
    );
    store.create_task(
        &mut colors,
        payload("Client A", "Task Low Prio", Some(today), Some(10)),
        today,
        now(),
    );
    store.create_task(
        &mut colors,
        payload("Client B", "Task High Prio", Some(today), Some(1)),
        today,
        now(),
    );
    store.create_task(
        &mut colors,
        payload("Client D", "Task No Prio", Some(today), None),
        today,
        now(),
    );

    let tasks = store.list_current_week(today);

    assert_eq!(tasks.len(), 4);
    assert_eq!(tasks[0].description, "Task High Prio");
    assert_eq!(tasks[1].description, "Task Medium Prio");
    assert_eq!(tasks[2].description, "Task Low Prio");
    assert_eq!(tasks[3].description, "Task No Prio");
}

#[test]
fn test_create_task_validation_empty_name() {
    let mut store = TaskStore::new();
    let mut colors = ClientColorMap::default();
    let today = today();
    let p = payload("", "A valid description", Some(today), None);

    let result = store.handle_create_task(&mut colors, p, today, now());

    assert!(result.is_err());
    let err = result.unwrap_err();
    assert_eq!(err, TaskError::EmptyFields);
    assert_eq!(
        err.message(),
        "Client name and description cannot be empty."
    );
    assert_eq!(store.task_count(), 0);
}

#[test]
fn test_create_task_validation_date_in_past() {
    let mut store = TaskStore::new();
    let mut colors = ClientColorMap::default();
    let today = today();
    let past_date = Date {
        days: chrono::NaiveDate::from_ymd_opt(2020, 1, 1)
            .unwrap()
            .num_days_from_ce() as i64,
    };
    let p = payload("Test Client", "A valid description", Some(past_date), None);

    let result = store.handle_create_task(&mut colors, p, today, now());

    assert!(result.is_err());
    let err = result.unwrap_err();
    assert_eq!(err, TaskError::DateOutsideWeek);
    assert!(err
        .message()
        .contains("Task date must be within the current week"));
    assert_eq!(store.task_count(), 0);
}

#[test]
fn test_create_defaults_date_to_today_with_color() {
    let mut store = TaskStore::new();
    let mut colors = ClientColorMap::default();
    let today = today();
    let p = payload("A", "d", None, None);

    let created = store.create_task(&mut colors, p, today, now());

    assert_eq!(created.task_date, today);
    assert!(!created.client_color.is_empty());
    assert_eq!(created.client_color, "#1f77b4");
    assert_eq!(created.deleted_at, None);
}

#[test]
fn test_create_task_today_uses_clock() {
    let mut store = TaskStore::new();
    let mut colors = ClientColorMap::default();
    let p = payload("Clock Client", "created against the clock", None, Some(2));

    let created = store
        .create_task_today(&mut colors, p)
        .expect("a dateless payload is always within the current week");

    assert_eq!(created.task_date, today());
    assert_eq!(created.priority, Some(2));
    assert_eq!(store.task_count(), 1);
}

#[test]
fn test_task_outside_window_excluded() {
    let mut store = TaskStore::new();
    let mut colors = ClientColorMap::default();
    let today = today();
    let far_away = Date {
        days: today.days + 30,
    };
    store.create_task(
        &mut colors,
        payload("Far", "a month out", Some(far_away), None),
        today,
        now(),
    );
    store.create_task(
        &mut colors,
        payload("Near", "this week", Some(today), None),
        today,
        now(),
    );

    let tasks = store.list_current_week(today);
    assert_eq!(tasks.len(), 1);
    assert_eq!(tasks[0].client_name, "Near");
}

#[test]
fn test_task_color_comes_from_allocator() {
    let mut store = TaskStore::new();
    let mut colors = ClientColorMap::default();
    let today = today();
    let first = store.create_task(
        &mut colors,
        payload("One", "first client", Some(today), None),
        today,
        now(),
    );
    let second = store.create_task(
        &mut colors,
        payload("Two", "second client", Some(today), None),
        today,
        now(),
    );
    let first_again = store.create_task(
        &mut colors,
        payload("One", "first client again", Some(today), None),
        today,
        now(),
    );
    assert_eq!(first.client_color, "#1f77b4");
    assert_eq!(second.client_color, "#ff7f0e");
    assert_eq!(first_again.client_color, "#1f77b4");
    assert_eq!(colors.client_count(), 2);
}
