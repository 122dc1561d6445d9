use std::collections::HashMap;
use taskchampion::{Operation, Operations, Replica, StorageConfig, Task, Uuid};
use taskdb::apply::apply_edits;
use taskdb::edit::{plan_add, plan_add_for, plan_update_for_task};
use taskdb::filter::{
    any_task_reads_bad_wait, filter_reads_bad_wait, query_rows, query_rows_checked, task_matches_filter,
    wait_can_be_read,
};
use taskdb::row::{task_row_from_task, TaskRow};

fn entries(v: &[(&str, &str)]) -> Vec<(String, String)> {
    v.iter().map(|(k, v)| (k.to_string(), v.to_string())).collect()
}

fn add(replica: &mut Replica, fields: &[(&str, &str)]) {
    let plan = plan_add(&entries(fields)).unwrap();
    let mut ops = Operations::new();
    let mut task = replica.create_task(Uuid::from_u128(plan.uuid), &mut ops).unwrap();
    apply_edits(&mut task, plan.edits, &mut ops);
    replica.commit_operations(ops).unwrap();
}

fn all_tasks(replica: &mut Replica) -> Vec<Task> {
    replica.all_tasks().unwrap().into_values().collect()
}

fn uuids(rows: &[TaskRow]) -> Vec<String> {
    rows.iter().map(|r| r.get("uuid").unwrap()).collect()
}

#[test]
fn test_add_task_with_tags() {
    let mut replica = Replica::new(StorageConfig::InMemory.into_storage().unwrap());
    let uuid = Uuid::new_v4().to_string();
    add(&mut replica, &[("uuid", &uuid), ("description", "test task"), ("tags", "tag1 tag2")]);

    let rows = query_rows(&all_tasks(&mut replica), &Vec::new());
    let found = rows.into_iter().find(|r| r.get("uuid") == Some(uuid.clone()));
    assert!(found.is_some(), "task with uuid not found");
    let task = found.unwrap();
    let tags = task.get("tags").unwrap_or_default();
    assert!(tags.contains("tag1"), "tag1 missing in tags: {}", tags);
    assert!(tags.contains("tag2"), "tag2 missing in tags: {}", tags);
    assert_eq!(task.get("description"), Some("test task".to_string()));
    assert_eq!(task.get("status"), Some("pending".to_string()));
}

#[test]
fn test_query_task_by_status_and_project_and_tags() {
    let mut replica = Replica::new(StorageConfig::InMemory.into_storage().unwrap());
    let ua = Uuid::new_v4().to_string();
    add(
        &mut replica,
        &[("uuid", &ua), ("description", "alpha"), ("tags", "work home"), ("project", "projA")],
    );
    let ub = Uuid::new_v4().to_string();
    add(
        &mut replica,
        &[("uuid", &ub), ("description", "beta"), ("tags", "work"), ("project", "projB")],
    );
    let tasks = all_tasks(&mut replica);

    let rows = query_rows(&tasks, &entries(&[("status", "pending")]));
    assert_eq!(rows.len(), 2);

    let rows = query_rows(&tasks, &entries(&[("project", "projA")]));
    assert_eq!(rows.len(), 1);
    assert_eq!(uuids(&rows), vec![ua.clone()]);

    let rows = query_rows(&tasks, &entries(&[("tags", "+work -home")]));
    assert_eq!(rows.len(), 1);
    assert_eq!(uuids(&rows), vec![ub.clone()]);

    let rows = query_rows(&tasks, &entries(&[("uuid", &ub[..8])]));
    assert_eq!(rows.len(), 1);
}

#[test]
fn blank_filter_values_return_every_task() {
    let mut replica = Replica::new(StorageConfig::InMemory.into_storage().unwrap());
    for i in 0..3u128 {
        add(&mut replica, &[("uuid", &Uuid::from_u128(i + 1).to_string()), ("project", "p")]);
    }
    let tasks = all_tasks(&mut replica);
    let blank = entries(&[("uuid", ""), ("status", ""), ("project", ""), ("tags", "  ")]);
    assert_eq!(query_rows(&tasks, &blank).len(), 3);
    assert_eq!(query_rows(&tasks, &Vec::new()).len(), 3);
}

#[test]
fn uuid_filter_ignores_case_and_status_filter_rejects_others() {
    let mut replica = Replica::new(StorageConfig::InMemory.into_storage().unwrap());
    let id = "67E55044-10B1-426F-9247-BB680E5FE0C8";
    add(&mut replica, &[("uuid", id)]);
    let tasks = all_tasks(&mut replica);
    assert_eq!(query_rows(&tasks, &entries(&[("uuid", "BB680E")])).len(), 1);
    assert_eq!(query_rows(&tasks, &entries(&[("uuid", "ffff0000")])).len(), 0);
    assert_eq!(query_rows(&tasks, &entries(&[("status", "PENDING")])).len(), 1);
    assert_eq!(query_rows(&tasks, &entries(&[("status", "completed")])).len(), 0);
}

#[test]
fn invalid_or_missing_tags_reject_and_synthetic_tags_work() {
    let mut replica = Replica::new(StorageConfig::InMemory.into_storage().unwrap());
    add(&mut replica, &[("uuid", &Uuid::from_u128(7).to_string()), ("tags", "work")]);
    let tasks = all_tasks(&mut replica);
    let t = &tasks[0];
    let row = task_row_from_task(t);
    assert!(task_matches_filter(t, &row, &entries(&[("tags", "work")])));
    assert!(task_matches_filter(t, &row, &entries(&[("tags", "+PENDING")])));
    assert!(!task_matches_filter(t, &row, &entries(&[("tags", "+COMPLETED")])));
    assert!(!task_matches_filter(t, &row, &entries(&[("tags", "9work")])));
    assert!(!task_matches_filter(t, &row, &entries(&[("tags", "-work")])));
    assert!(!task_matches_filter(t, &row, &entries(&[("tags", "home")])));
    assert!(task_matches_filter(t, &row, &entries(&[("other", "x")])));
}

#[test]
fn row_of_task_shows_hyphenated_uuid() {
    let mut replica = Replica::new(StorageConfig::InMemory.into_storage().unwrap());
    add(&mut replica, &[("uuid", "67e5504410b1426f9247bb680e5fe0c8")]);
    let tasks = all_tasks(&mut replica);
    let row = task_row_from_task(&tasks[0]);
    assert_eq!(row.get("uuid"), Some("67e55044-10b1-426f-9247-bb680e5fe0c8".to_string()));
}

#[test]
fn update_replaces_tags_and_sets_status() {
    let mut replica = Replica::new(StorageConfig::InMemory.into_storage().unwrap());
    let id = Uuid::from_u128(42);
    add(&mut replica, &[("uuid", &id.to_string()), ("tags", "old keep"), ("start", "")]);
    let mut task = replica.get_task(id).unwrap().unwrap();
    let mut ops = Operations::new();
    let edits = plan_update_for_task(
        &task,
        &entries(&[("tags", "keep fresh"), ("status", "completed"), ("start", "stop")]),
    )
    .unwrap();
    apply_edits(&mut task, edits, &mut ops);
    replica.commit_operations(ops).unwrap();
    let task = replica.get_task(id).unwrap().unwrap();
    let row = task_row_from_task(&task);
    let mut tags: Vec<String> =
        row.get("tags").unwrap().split_whitespace().map(|s| s.to_string()).collect();
    tags.sort();
    assert_eq!(tags, vec!["fresh".to_string(), "keep".to_string()]);
    assert_eq!(row.get("status"), Some("completed".to_string()));
    assert_eq!(row.get("start"), None);
    assert!(row.get("end").is_some());
}

#[test]
fn synthetic_tags_are_not_added() {
    let mut replica = Replica::new(StorageConfig::InMemory.into_storage().unwrap());
    add(&mut replica, &[("uuid", &Uuid::from_u128(5).to_string()), ("tags", "PENDING mine")]);
    let tasks = all_tasks(&mut replica);
    let row = task_row_from_task(&tasks[0]);
    assert_eq!(row.get("tags"), Some("mine".to_string()));
}

#[test]
fn more_conditions_never_admit_more() {
    let mut replica = Replica::new(StorageConfig::InMemory.into_storage().unwrap());
    add(&mut replica, &[("uuid", &Uuid::from_u128(1).to_string()), ("project", "projA")]);
    add(&mut replica, &[("uuid", &Uuid::from_u128(2).to_string()), ("project", "projA"), ("tags", "x")]);
    add(&mut replica, &[("uuid", &Uuid::from_u128(3).to_string()), ("project", "projB")]);
    let tasks = all_tasks(&mut replica);
    let wide = query_rows(&tasks, &entries(&[("project", "projA")]));
    let narrow = query_rows(&tasks, &entries(&[("project", "projA"), ("tags", "+x")]));
    assert_eq!(wide.len(), 2);
    assert_eq!(narrow.len(), 1);
    for id in uuids(&narrow) {
        assert!(uuids(&wide).contains(&id));
    }
}

#[test]
fn due_and_wait_are_stored_as_seconds() {
    let mut replica = Replica::new(StorageConfig::InMemory.into_storage().unwrap());
    add(
        &mut replica,
        &[
            ("uuid", &Uuid::from_u128(9).to_string()),
            ("due", "2024-01-02T03:04:05Z"),
            ("wait", "  "),
            ("priority", "H"),
        ],
    );
    let tasks = all_tasks(&mut replica);
    let row = task_row_from_task(&tasks[0]);
    assert_eq!(row.get("due"), Some("1704164645".to_string()));
    assert_eq!(row.get("wait"), None);
    assert_eq!(row.get("priority"), Some("H".to_string()));
    assert!(row.get("modified").is_some());
}

#[test]
fn update_without_tags_keeps_tags() {
    let mut replica = Replica::new(StorageConfig::InMemory.into_storage().unwrap());
    let id = Uuid::from_u128(11);
    add(&mut replica, &[("uuid", &id.to_string()), ("tags", "a b")]);
    let mut task = replica.get_task(id).unwrap().unwrap();
    let mut ops = Operations::new();
    let edits = plan_update_for_task(&task, &entries(&[("description", "new")])).unwrap();
    apply_edits(&mut task, edits, &mut ops);
    replica.commit_operations(ops).unwrap();
    let task = replica.get_task(id).unwrap().unwrap();
    let row = task_row_from_task(&task);
    let mut tags: Vec<String> =
        row.get("tags").unwrap().split_whitespace().map(|s| s.to_string()).collect();
    tags.sort();
    assert_eq!(tags, vec!["a".to_string(), "b".to_string()]);
    assert_eq!(row.get("description"), Some("new".to_string()));
    assert_eq!(row.get("status"), Some("pending".to_string()));
}

#[test]
fn status_and_active_tags_follow_the_task() {
    let mut replica = Replica::new(StorageConfig::InMemory.into_storage().unwrap());
    let id = Uuid::from_u128(21);
    add(&mut replica, &[("uuid", &id.to_string()), ("start", "now")]);
    let task = replica.get_task(id).unwrap().unwrap();
    let row = task_row_from_task(&task);
    assert!(task_matches_filter(&task, &row, &entries(&[("tags", "+ACTIVE +PENDING +UNBLOCKED")])));
    assert!(!task_matches_filter(&task, &row, &entries(&[("tags", "-PENDING")])));
    assert!(!task_matches_filter(&task, &row, &entries(&[("tags", "+DELETED")])));
    assert!(!task_matches_filter(&task, &row, &entries(&[("tags", "+BLOCKED")])));
    assert!(!task_matches_filter(&task, &row, &entries(&[("tags", "+WAITING")])));
    assert!(!task_matches_filter(&task, &row, &entries(&[("tags", "+NOSUCH")])));
}

#[test]
fn uppercase_values_find_the_same_tasks() {
    let mut replica = Replica::new(StorageConfig::InMemory.into_storage().unwrap());
    add(&mut replica, &[("uuid", &Uuid::from_u128(0xabcdef).to_string()), ("project", "projA")]);
    add(&mut replica, &[("uuid", &Uuid::from_u128(0x123456).to_string()), ("project", "projA")]);
    let tasks = all_tasks(&mut replica);
    let lower = query_rows(&tasks, &entries(&[("uuid", "abcdef"), ("status", "pending")]));
    let upper = query_rows(&tasks, &entries(&[("uuid", "ABCDEF"), ("status", "Pending")]));
    assert_eq!(uuids(&lower), uuids(&upper));
    assert_eq!(lower.len(), 1);
    assert_eq!(query_rows(&tasks, &entries(&[("project", "PROJA")])).len(), 0);
}

#[test]
fn disjoint_filters_intersect() {
    let mut replica = Replica::new(StorageConfig::InMemory.into_storage().unwrap());
    add(&mut replica, &[("uuid", &Uuid::from_u128(31).to_string()), ("project", "p"), ("tags", "x")]);
    add(&mut replica, &[("uuid", &Uuid::from_u128(32).to_string()), ("project", "p")]);
    add(&mut replica, &[("uuid", &Uuid::from_u128(33).to_string()), ("project", "q"), ("tags", "x")]);
    let tasks = all_tasks(&mut replica);
    let a = uuids(&query_rows(&tasks, &entries(&[("project", "p")])));
    let b = uuids(&query_rows(&tasks, &entries(&[("tags", "x")])));
    let both = uuids(&query_rows(&tasks, &entries(&[("project", "p"), ("tags", "x")])));
    let expected: Vec<String> = a.iter().filter(|u| b.contains(u)).cloned().collect();
    let mut both_sorted = both.clone();
    both_sorted.sort();
    let mut expected_sorted = expected;
    expected_sorted.sort();
    assert_eq!(both_sorted, expected_sorted);
    assert_eq!(both.len(), 1);
}

#[test]
fn new_task_is_active_only_with_start_field() {
    let mut replica = Replica::new(StorageConfig::InMemory.into_storage().unwrap());
    let started = Uuid::from_u128(41);
    let idle = Uuid::from_u128(42);
    add(&mut replica, &[("uuid", &started.to_string()), ("start", "stop")]);
    add(&mut replica, &[("uuid", &idle.to_string()), ("description", "x")]);
    let a = replica.get_task(started).unwrap().unwrap();
    let b = replica.get_task(idle).unwrap().unwrap();
    assert!(task_row_from_task(&a).get("start").is_some());
    assert!(task_row_from_task(&b).get("start").is_none());
}

fn task_with_wait(replica: &mut Replica, n: u128, wait: &str) -> Task {
    let id = Uuid::from_u128(n);
    add(replica, &[("uuid", &id.to_string())]);
    let mut task = replica.get_task(id).unwrap().unwrap();
    let mut ops = Operations::new();
    task.set_value("wait", Some(wait.to_string()), &mut ops).unwrap();
    replica.commit_operations(ops).unwrap();
    replica.get_task(id).unwrap().unwrap()
}

#[test]
fn wait_at_the_edges_of_chrono_range() {
    let mut replica = Replica::new(StorageConfig::InMemory.into_storage().unwrap());
    let last = task_with_wait(&mut replica, 51, "8210266876799");
    let first = task_with_wait(&mut replica, 52, "-8334601228800");
    let beyond = task_with_wait(&mut replica, 53, "8210266876800");
    let before = task_with_wait(&mut replica, 54, "-8334601228801");
    let text = task_with_wait(&mut replica, 55, "soon");
    assert!(wait_can_be_read(&last));
    assert!(wait_can_be_read(&first));
    assert!(!wait_can_be_read(&beyond));
    assert!(!wait_can_be_read(&before));
    assert!(wait_can_be_read(&text));
    let waiting = entries(&[("tags", "+WAITING")]);
    let row = task_row_from_task(&last);
    assert!(!filter_reads_bad_wait(&last, &row, &waiting));
    assert!(task_matches_filter(&last, &row, &waiting));
    let row = task_row_from_task(&first);
    assert!(!task_matches_filter(&first, &row, &waiting));
    let row = task_row_from_task(&text);
    assert!(!task_matches_filter(&text, &row, &waiting));
    let row = task_row_from_task(&beyond);
    assert!(filter_reads_bad_wait(&beyond, &row, &waiting));
    assert!(!filter_reads_bad_wait(&beyond, &row, &entries(&[("uuid", "zzz"), ("tags", "+WAITING")])));
    assert!(!filter_reads_bad_wait(&beyond, &row, &entries(&[("tags", "+nosuch +WAITING")])));
    assert!(!filter_reads_bad_wait(&beyond, &row, &entries(&[("tags", "+PENDING")])));
    assert!(any_task_reads_bad_wait(&vec![last.clone(), beyond.clone()], &waiting));
    assert!(!any_task_reads_bad_wait(&vec![last.clone(), beyond.clone()], &Vec::new()));
    assert_eq!(query_rows(&vec![last, text], &waiting).len(), 1);
}

#[test]
#[allow(deprecated)]
fn edits_record_the_updates_that_replay_to_the_task() {
    let mut replica = Replica::new(StorageConfig::InMemory.into_storage().unwrap());
    let id = Uuid::from_u128(61);
    add(&mut replica, &[("uuid", &id.to_string()), ("tags", "a"), ("start", "now")]);
    let mut task = replica.get_task(id).unwrap().unwrap();
    let before: HashMap<String, String> = task.get_taskmap().clone();
    let edits = plan_update_for_task(
        &task,
        &entries(&[("tags", "b"), ("priority", "H"), ("start", "stop"), ("status", "completed")]),
    )
    .unwrap();
    let mut ops = Operations::new();
    apply_edits(&mut task, edits, &mut ops);
    assert!(!ops.is_empty());
    let mut replayed = before;
    for op in &ops {
        match op {
            Operation::Update { uuid, property, value, .. } => {
                assert_eq!(*uuid, id);
                match value {
                    Some(v) => {
                        replayed.insert(property.clone(), v.clone());
                    }
                    None => {
                        replayed.remove(property);
                    }
                }
            }
            _ => panic!("an operation other than an update"),
        }
    }
    assert_eq!(&replayed, task.get_taskmap());
    replica.commit_operations(ops).unwrap();
    let stored = replica.get_task(id).unwrap().unwrap();
    assert_eq!(stored.get_taskmap(), task.get_taskmap());
}

#[test]
fn plan_for_a_known_uuid() {
    let plan = plan_add_for(7, &entries(&[("description", "x"), ("tags", "a b")])).unwrap();
    assert_eq!(plan.uuid, 7);
    assert_eq!(plan.edits.len(), 4);
    assert!(plan_add_for(7, &entries(&[("tags", "1abc")])).is_err());
}

#[test]
fn checked_query_refuses_an_unreadable_wait() {
    let mut replica = Replica::new(StorageConfig::InMemory.into_storage().unwrap());
    let good = task_with_wait(&mut replica, 71, "100");
    let bad = task_with_wait(&mut replica, 72, "9223372036854775807");
    let waiting = entries(&[("tags", "+WAITING")]);
    assert!(query_rows_checked(&vec![good.clone(), bad.clone()], &waiting).is_none());
    assert_eq!(query_rows_checked(&vec![good.clone(), bad.clone()], &Vec::new()).unwrap().len(), 2);
    assert_eq!(query_rows_checked(&vec![good], &waiting).unwrap().len(), 0);
}
