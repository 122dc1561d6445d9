use taskdb::edit::{
    parse_datetime, parse_task_uuid, plan_add, plan_update, status_from_str, PlanError, TaskEdit,
    TaskStatus,
};

fn entries(v: &[(&str, &str)]) -> Vec<(String, String)> {
    v.iter().map(|(k, v)| (k.to_string(), v.to_string())).collect()
}

const ID: &str = "67e55044-10b1-426f-9247-bb680e5fe0c8";

#[test]
fn add_without_uuid_is_refused() {
    let r = plan_add(&entries(&[("description", "x")]));
    assert!(matches!(r, Err(PlanError::MissingUuid)));
}

#[test]
fn add_with_bad_uuid_is_refused() {
    let r = plan_add(&entries(&[("uuid", "not-a-uuid")]));
    assert!(matches!(r, Err(PlanError::InvalidUuid)));
}

#[test]
fn add_with_bad_tag_names_it() {
    let r = plan_add(&entries(&[("uuid", ID), ("tags", "ok 9bad")]));
    match r {
        Err(PlanError::InvalidTag(n)) => assert_eq!(n, "9bad"),
        _ => panic!("expected an invalid tag"),
    }
}

#[test]
fn add_plans_each_field() {
    let plan = plan_add(&entries(&[
        ("uuid", ID),
        ("description", "test task"),
        ("tags", "tag1 tag2"),
        ("project", "projA"),
        ("start", "stop"),
        ("status", "completed"),
        ("due", "2024-01-02T03:04:05Z"),
    ]))
    .unwrap();
    assert_eq!(plan.uuid, 0x67e5504410b1426f9247bb680e5fe0c8);
    let e = &plan.edits;
    assert_eq!(e.len(), 7);
    assert!(matches!(e[0], TaskEdit::SetStatus(TaskStatus::Pending)));
    assert!(matches!(&e[1], TaskEdit::SetDescription(d) if d == "test task"));
    assert!(matches!(&e[2], TaskEdit::AddTag(t) if t.name() == "tag1"));
    assert!(matches!(&e[3], TaskEdit::AddTag(t) if t.name() == "tag2"));
    assert!(matches!(&e[4], TaskEdit::SetProjectAttribute(p) if p == "projA"));
    assert!(matches!(e[5], TaskEdit::Start));
    assert!(matches!(e[6], TaskEdit::SetDue(Some((1704164645, 0)))));
}

#[test]
fn update_plans_stop_status_and_tag_replacement() {
    let props = entries(&[("tag_old", ""), ("description", "d")]);
    let e = plan_update(
        &props,
        &entries(&[("start", "stop"), ("status", "deleted"), ("tags", "new"), ("project", "p")]),
    )
    .unwrap();
    assert_eq!(e.len(), 6);
    assert!(matches!(e[0], TaskEdit::SetStatus(TaskStatus::Pending)));
    assert!(matches!(e[1], TaskEdit::Stop));
    assert!(matches!(e[2], TaskEdit::SetStatus(TaskStatus::Deleted)));
    assert!(matches!(&e[3], TaskEdit::RemoveTag(t) if t.name() == "old"));
    assert!(matches!(&e[4], TaskEdit::AddTag(t) if t.name() == "new"));
    assert!(matches!(&e[5], TaskEdit::SetProject(p) if p == "p"));
}

#[test]
fn update_refuses_an_invalid_existing_tag() {
    let props = entries(&[("tag_a:b", "")]);
    let r = plan_update(&props, &entries(&[("tags", "x")]));
    match r {
        Err(PlanError::InvalidTag(n)) => assert_eq!(n, "a:b"),
        _ => panic!("expected an invalid tag"),
    }
}

#[test]
fn blank_and_bad_dates_are_none() {
    assert_eq!(parse_datetime("   "), None);
    assert_eq!(parse_datetime("tomorrow"), None);
    assert_eq!(parse_datetime("1970-01-01T00:00:01.5Z"), Some((1, 500_000_000)));
}

#[test]
fn statuses_default_to_pending() {
    assert_eq!(status_from_str(&"completed".to_string()), TaskStatus::Completed);
    assert_eq!(status_from_str(&"deleted".to_string()), TaskStatus::Deleted);
    assert_eq!(status_from_str(&"pending".to_string()), TaskStatus::Pending);
    assert_eq!(status_from_str(&"Completed".to_string()), TaskStatus::Pending);
}

#[test]
fn uuids_parse_or_fail() {
    assert_eq!(parse_task_uuid(ID).unwrap(), 0x67e5504410b1426f9247bb680e5fe0c8);
    assert!(matches!(parse_task_uuid("zzz"), Err(PlanError::InvalidUuid)));
}
