use taskdb::row::row_from_properties;

fn props(v: &[(&str, &str)]) -> Vec<(String, String)> {
    v.iter().map(|(k, v)| (k.to_string(), v.to_string())).collect()
}

#[test]
fn row_copies_plain_properties_and_lists_tags() {
    let p = props(&[
        ("description", "test task"),
        ("tag_tag1", ""),
        ("status", "completed"),
        ("tag_tag2", ""),
    ]);
    let row = row_from_properties("67e55044-10b1-426f-9247-bb680e5fe0c8", &p);
    assert_eq!(row.get("description"), Some("test task".to_string()));
    assert_eq!(row.get("status"), Some("completed".to_string()));
    assert_eq!(row.get("tags"), Some("tag1 tag2".to_string()));
    assert_eq!(row.get("uuid"), Some("67e55044-10b1-426f-9247-bb680e5fe0c8".to_string()));
    assert_eq!(row.get("tag_tag1"), None);
    assert_eq!(row.pairs().len(), 4);
}

#[test]
fn row_defaults_status_to_pending() {
    let row = row_from_properties("u", &props(&[("description", "x")]));
    assert_eq!(row.get("status"), Some("pending".to_string()));
    assert_eq!(row.get("tags"), Some(String::new()));
}

#[test]
fn keys_holding_tag_inside_are_dropped() {
    let row = row_from_properties("u", &props(&[("my_tag_x", "1"), ("tags", "old")]));
    assert_eq!(row.get("my_tag_x"), None);
    assert_eq!(row.get("tags"), Some(String::new()));
}

#[test]
fn uuid_field_overrides_a_uuid_property() {
    let row = row_from_properties("real", &props(&[("uuid", "stale")]));
    assert_eq!(row.get("uuid"), Some("real".to_string()));
}

#[test]
fn into_pairs_gives_each_key_once() {
    let row = row_from_properties("u", &props(&[("a", "1"), ("b", "2")]));
    let mut pairs = row.into_pairs();
    pairs.sort();
    let keys: Vec<&str> = pairs.iter().map(|(k, _)| k.as_str()).collect();
    assert_eq!(keys, vec!["a", "b", "status", "tags", "uuid"]);
}

#[test]
fn rows_are_written_as_json_objects() {
    let row = row_from_properties("u", &props(&[("description", "x"), ("tag_a", "")]));
    let text = taskdb::row::rows_to_json(&vec![row]);
    assert_eq!(text, r#"[{"description":"x","status":"pending","tags":"a","uuid":"u"}]"#);
    assert_eq!(taskdb::row::rows_to_json(&Vec::new()), "[]");
}
