use docstore::{table_name_for_uri, Json, JsonData, RelationalStore, StoreError, WritePolicy};

const DAY: i64 = 86400;
const NOW: i64 = 1_700_000_000;

fn s(text: &str) -> String {
    text.to_string()
}

fn text(v: &str) -> Json {
    Json::Str(s(v))
}

fn num(v: &str) -> Json {
    Json::Number(s(v))
}

fn obj(entries: Vec<(&str, Json)>) -> Json {
    Json::Object(entries.into_iter().map(|(k, v)| (s(k), v)).collect())
}

fn user(name: &str, active: bool, street: &str, city: &str) -> Json {
    obj(vec![(
        "user",
        obj(vec![
            ("name", text(name)),
            ("active", Json::Bool(active)),
            (
                "address",
                obj(vec![
                    ("street", text(street)),
                    ("city", text(city)),
                    (
                        "location",
                        obj(vec![(
                            "coordinates",
                            obj(vec![("latitude", num("40.7128")), ("longitude", num("-74.006"))]),
                        )]),
                    ),
                    ("tags", Json::Array(vec![text("home"), text("primary")])),
                ]),
            ),
        ]),
    )])
}

#[test]
fn nested_document_round_trips() {
    let mut store = RelationalStore::new(WritePolicy::Append);
    let doc = obj(vec![
        ("user", obj(vec![("name", text("John")), ("active", Json::Bool(true))])),
        ("age", num("30")),
        ("metadata", Json::Null),
        ("tags", Json::Array(vec![num("1"), obj(vec![("x", Json::Bool(false))])])),
    ]);
    assert_eq!(store.store_json_at(&doc, &s("root"), NOW), Ok(()));
    assert_eq!(store.query_json(&s("root")), doc);
}

#[test]
fn deep_document_round_trips_under_both_policies() {
    for policy in [WritePolicy::Append, WritePolicy::UpsertSingleton] {
        let mut store = RelationalStore::new(policy);
        let doc = user("John", true, "123 Main St", "New York");
        assert_eq!(store.store_json_at(&doc, &s("root"), NOW), Ok(()));
        assert_eq!(store.query_json(&s("root")), doc);
        assert!(store.has_structure(&s("root_user_address_location_coordinates")));
    }
}

#[test]
fn numeric_looking_string_stays_a_string() {
    let mut store = RelationalStore::new(WritePolicy::Append);
    let doc = obj(vec![("zip", text("10001")), ("flag", text("true")), ("n", num("7"))]);
    store.store_json_at(&doc, &s("root"), NOW).unwrap();
    assert_eq!(store.query_json(&s("root")), doc);
}

#[test]
fn non_object_document_is_refused() {
    let mut store = RelationalStore::new(WritePolicy::Append);
    let arr = Json::Array(vec![num("1")]);
    assert_eq!(store.store_json_at(&arr, &s("root"), NOW), Err(StoreError::NotAnObject));
    assert_eq!(store.store_json_at(&text("x"), &s("root"), NOW), Err(StoreError::NotAnObject));
    assert!(!store.has_structure(&s("root")));
}

#[test]
fn missing_structure_reads_as_empty_object() {
    let store = RelationalStore::new(WritePolicy::Append);
    assert_eq!(store.query_json(&s("nothing")), Json::Object(vec![]));
}

#[test]
fn store_json_defaults_to_root() {
    let mut store = RelationalStore::new(WritePolicy::Append);
    let doc = obj(vec![("a", num("1"))]);
    assert_eq!(store.store_json(&doc, None, NOW), Ok(()));
    assert_eq!(store.query_json(&s("root")), doc);
    assert_eq!(store.store_json(&doc, Some(&s("other")), NOW), Ok(()));
    assert_eq!(store.query_json(&s("other")), doc);
}

#[test]
fn columns_only_grow() {
    let mut store = RelationalStore::new(WritePolicy::Append);
    let d1 = obj(vec![("a", num("1")), ("b", num("2"))]);
    let d2 = obj(vec![("a", num("3")), ("b", num("4")), ("k", text("new"))]);
    store.store_json_at(&d1, &s("root"), NOW).unwrap();
    store.store_json_at(&d2, &s("root"), NOW + 1).unwrap();
    assert_eq!(store.columns_of(&s("root")), vec![s("a"), s("b"), s("k")]);
    // the record of the first document has nothing under the new column
    assert_eq!(store.query_record(&s("root"), 1), Some(d1.copy()));
    let d3 = obj(vec![("a", num("5"))]);
    store.store_json_at(&d3, &s("root"), NOW + 2).unwrap();
    assert_eq!(store.columns_of(&s("root")), vec![s("a"), s("b"), s("k")]);
    // the latest record lacks the other columns: they are left out, not an error
    assert_eq!(store.query_json(&s("root")), d3);
}

#[test]
fn upsert_keeps_one_record_and_merges_columns() {
    let mut store = RelationalStore::new(WritePolicy::UpsertSingleton);
    store.store_json_at(&obj(vec![("a", num("1")), ("b", num("2"))]), &s("root"), NOW).unwrap();
    store.store_json_at(&obj(vec![("a", num("9"))]), &s("root"), NOW + 5).unwrap();
    assert_eq!(store.record_count(&s("root")), 1);
    assert_eq!(store.query_json(&s("root")), obj(vec![("a", num("9")), ("b", num("2"))]));
}

#[test]
fn append_keeps_history_and_reads_latest() {
    let mut store = RelationalStore::new(WritePolicy::Append);
    store.store_json_at(&obj(vec![("a", num("1"))]), &s("root"), NOW + 10).unwrap();
    store.store_json_at(&obj(vec![("a", num("2"))]), &s("root"), NOW).unwrap();
    assert_eq!(store.record_count(&s("root")), 2);
    // the record with the greatest timestamp wins
    assert_eq!(store.query_json(&s("root")), obj(vec![("a", num("1"))]));
    store.store_json_at(&obj(vec![("a", num("3"))]), &s("root"), NOW + 10).unwrap();
    // among equal timestamps the later write wins
    assert_eq!(store.query_json(&s("root")), obj(vec![("a", num("3"))]));
}

#[test]
fn sweep_removes_only_old_records_across_the_family() {
    let mut store = RelationalStore::new(WritePolicy::Append);
    let old = obj(vec![("v", text("old")), ("child", obj(vec![("c", text("old"))]))]);
    let new = obj(vec![("v", text("new")), ("child", obj(vec![("c", text("new"))]))]);
    store.store_json_at(&old, &s("root"), NOW - 30 * DAY).unwrap();
    store.store_json_at(&new, &s("root"), NOW).unwrap();
    store.store_json_at(&old, &s("rootless"), NOW - 30 * DAY).unwrap();
    assert_eq!(store.record_count(&s("root")), 2);
    assert_eq!(store.record_count(&s("root_child")), 2);
    store.cleanup_old_data_with_age(&s("root"), 7, NOW);
    assert_eq!(store.record_count(&s("root")), 1);
    assert_eq!(store.record_count(&s("root_child")), 1);
    assert_eq!(store.query_json(&s("root")), new);
    // a structure outside the family keeps its records
    assert_eq!(store.record_count(&s("rootless")), 1);
}

#[test]
fn sweep_keeps_record_exactly_at_cutoff() {
    let mut store = RelationalStore::new(WritePolicy::Append);
    store.store_json_at(&obj(vec![("a", num("1"))]), &s("root"), NOW - 7 * DAY).unwrap();
    store.store_json_at(&obj(vec![("a", num("2"))]), &s("root"), NOW - 7 * DAY - 1).unwrap();
    store.cleanup_old_data_with_age(&s("root"), 7, NOW);
    assert_eq!(store.record_count(&s("root")), 1);
    assert_eq!(store.query_json(&s("root")), obj(vec![("a", num("1"))]));
}

#[test]
fn sweep_of_empty_family_runs_to_completion() {
    let mut store = RelationalStore::new(WritePolicy::Append);
    store.cleanup_old_data_with_age(&s("root"), 7, NOW);
    assert!(!store.has_structure(&s("root")));
    store.cleanup_old_data(&s("root"), NOW);
    assert!(!store.has_structure(&s("root")));
}

#[test]
fn search_finds_both_new_york_documents() {
    let mut store = RelationalStore::new(WritePolicy::Append);
    store.store_json_at(&user("John", true, "123 Main St", "New York"), &s("john"), NOW).unwrap();
    store.store_json_at(&user("Emily", false, "456 Elm St", "Los Angeles"), &s("emily"), NOW).unwrap();
    store.store_json_at(&user("Ann", true, "1 Park Ave", "New York"), &s("ann"), NOW).unwrap();
    let hits = store.query_by_key_value(&s("city"), &s("New York")).unwrap();
    assert_eq!(hits.len(), 2);
    for hit in &hits {
        match hit {
            Json::Object(entries) => {
                assert!(entries.iter().any(|(k, v)| k == "city" && *v == text("New York")));
                // nested levels below the hit are rebuilt too
                assert!(entries.iter().any(|(k, v)| k == "location" && matches!(v, Json::Object(_))));
            },
            _ => panic!("a hit is an object"),
        }
    }
    let again = store.query_by_key_value(&s("city"), &s("New York")).unwrap();
    assert_eq!(hits, again);
}

#[test]
fn search_matches_booleans_and_numbers_by_text() {
    let mut store = RelationalStore::new(WritePolicy::Append);
    store.store_json_at(&obj(vec![("on", Json::Bool(true)), ("n", num("42"))]), &s("a"), NOW).unwrap();
    store.store_json_at(&obj(vec![("on", Json::Bool(false)), ("n", num("7"))]), &s("b"), NOW).unwrap();
    assert_eq!(store.query_by_key_value(&s("on"), &s("true")).unwrap().len(), 1);
    assert_eq!(store.query_by_key_value(&s("n"), &s("7")).unwrap().len(), 1);
    assert_eq!(store.query_by_key_value(&s("missing"), &s("7")).unwrap().len(), 0);
}

#[test]
fn search_takes_the_newest_matching_record() {
    let mut store = RelationalStore::new(WritePolicy::Append);
    store.store_json_at(&obj(vec![("k", text("x")), ("v", num("1"))]), &s("r"), NOW).unwrap();
    store.store_json_at(&obj(vec![("k", text("x")), ("v", num("2"))]), &s("r"), NOW + 1).unwrap();
    let hits = store.query_by_key_value(&s("k"), &s("x")).unwrap();
    assert_eq!(hits, vec![obj(vec![("k", text("x")), ("v", num("2"))])]);
}

#[test]
fn search_validation() {
    let store = RelationalStore::new(WritePolicy::Append);
    assert_eq!(store.query_by_key_value(&s(""), &s("")), Ok(vec![]));
    assert_eq!(store.query_by_key_value(&s(""), &s("x")), Err(StoreError::ValidationError));
    assert_eq!(store.query_by_key_value(&s("x"), &s("")), Err(StoreError::ValidationError));
}

#[test]
fn child_tables_are_listed_in_creation_order() {
    let mut store = RelationalStore::new(WritePolicy::Append);
    store.store_json_at(&user("John", true, "123 Main St", "New York"), &s("root"), NOW).unwrap();
    assert_eq!(
        store.get_child_tables(&s("root")),
        vec![
            s("root_user"),
            s("root_user_address"),
            s("root_user_address_location"),
            s("root_user_address_location_coordinates"),
        ]
    );
    assert_eq!(store.get_child_tables(&s("root_user_address_location")).len(), 1);
}

#[test]
fn errors_describe_themselves() {
    assert_eq!(StoreError::Storage(s("disk full")).describe(), s("disk full"));
    assert_eq!(StoreError::NotAnObject.describe(), s("document is not a JSON object"));
    assert_eq!(StoreError::PathNotFound.describe(), s("path not found"));
    assert_eq!(StoreError::ValidationError.describe(), s("search key and value must both be given"));
}

#[test]
fn schema_manager_creates_then_widens() {
    let mut store = RelationalStore::new(WritePolicy::Append);
    store.create_table_if_not_exists(&s("t"), &vec![s("a"), s("b")]);
    assert!(store.has_structure(&s("t")));
    assert_eq!(store.record_count(&s("t")), 0);
    store.create_table_if_not_exists(&s("t"), &vec![s("c"), s("a")]);
    assert_eq!(store.columns_of(&s("t")), vec![s("a"), s("b"), s("c")]);
    // a structure with columns but no record reads as an empty object
    assert_eq!(store.query_json(&s("t")), Json::Object(vec![]));
}

#[test]
fn records_are_read_by_position() {
    let mut store = RelationalStore::new(WritePolicy::Append);
    store.store_json_at(&obj(vec![("a", num("1"))]), &s("t"), NOW).unwrap();
    store.store_json_at(&obj(vec![("a", num("2")), ("b", Json::Null)]), &s("t"), NOW + 1).unwrap();
    assert_eq!(store.query_record(&s("t"), 1), Some(obj(vec![("a", num("1"))])));
    assert_eq!(store.query_record(&s("t"), 2), Some(obj(vec![("a", num("2")), ("b", Json::Null)])));
    assert_eq!(store.query_record(&s("t"), 0), None);
    assert_eq!(store.query_record(&s("t"), 3), None);
    assert_eq!(store.query_record(&s("none"), 1), None);
}

#[test]
fn uri_becomes_structure_name() {
    assert_eq!(table_name_for_uri(&s("users/admins/list")), s("users_admins_list"));
    assert_eq!(table_name_for_uri(&s("/lead/")), s("_lead_"));
    assert_eq!(table_name_for_uri(&s("plain")), s("plain"));
    let data = JsonData { uri: s("a/b"), data: obj(vec![("x", num("1"))]) };
    let mut store = RelationalStore::new(WritePolicy::UpsertSingleton);
    store.store_json_at(&data.data, &table_name_for_uri(&data.uri), NOW).unwrap();
    assert_eq!(store.query_json(&s("a_b")), data.data);
}

#[test]
fn policy_is_kept() {
    assert_eq!(RelationalStore::new(WritePolicy::UpsertSingleton).policy(), WritePolicy::UpsertSingleton);
    assert_eq!(RelationalStore::new(WritePolicy::Append).policy(), WritePolicy::Append);
}

#[test]
fn copy_is_deep_and_equal() {
    let doc = user("John", true, "123 Main St", "New York");
    assert_eq!(doc.copy(), doc);
}

#[test]
fn schema_pass_creates_every_level_without_records() {
    let mut store = RelationalStore::new(WritePolicy::Append);
    let doc = user("John", true, "123 Main St", "New York");
    store.create_tables_recursive(&doc, &s("root"));
    assert_eq!(store.columns_of(&s("root")), vec![s("user")]);
    assert_eq!(
        store.columns_of(&s("root_user_address")),
        vec![s("street"), s("city"), s("location"), s("tags")]
    );
    assert_eq!(store.record_count(&s("root_user")), 0);
    assert_eq!(store.get_child_tables(&s("root")).len(), 4);
    store.create_tables_recursive(&text("scalar"), &s("other"));
    assert!(!store.has_structure(&s("other")));
}

#[test]
fn store_json_sweeps_the_family_before_writing() {
    let mut store = RelationalStore::new(WritePolicy::Append);
    let old = obj(vec![("v", text("old")), ("child", obj(vec![("c", text("old"))]))]);
    store.store_json_at(&old, &s("root"), NOW - 11 * DAY).unwrap();
    store.store_json_at(&old, &s("root"), NOW - 9 * DAY).unwrap();
    store.store_json_at(&old, &s("other"), NOW - 11 * DAY).unwrap();
    let new = obj(vec![("v", text("new"))]);
    assert_eq!(store.store_json(&new, None, NOW), Ok(()));
    // the 11-day-old record went, the 9-day-old one stayed, the new one came
    assert_eq!(store.record_count(&s("root")), 2);
    assert_eq!(store.record_count(&s("root_child")), 1);
    assert_eq!(store.record_count(&s("other")), 1);
    assert_eq!(store.query_json(&s("root")), new);
    // a refused document sweeps nothing
    assert_eq!(store.store_json(&text("x"), Some(&s("other")), NOW), Err(StoreError::NotAnObject));
    assert_eq!(store.record_count(&s("other")), 1);
}
