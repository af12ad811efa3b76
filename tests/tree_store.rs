use docstore::{Json, SortKey, SortOrder, StoreError, TreeStore};

const NOW: i64 = 1_700_000_000;

fn s(text: &str) -> String {
    text.to_string()
}

fn text(v: &str) -> Json {
    Json::Str(s(v))
}

fn obj(entries: Vec<(&str, Json)>) -> Json {
    Json::Object(entries.into_iter().map(|(k, v)| (s(k), v)).collect())
}

fn sample() -> Json {
    obj(vec![
        ("name", text("John")),
        ("address", obj(vec![("city", text("New York")), ("geo", obj(vec![("lat", Json::Number(s("40.7")))]))])),
        ("age", Json::Number(s("30"))),
    ])
}

#[test]
fn resolving_twice_reaches_the_same_node() {
    let mut tree = TreeStore::new();
    let first = tree.resolve_path_at(&s("/a/b/c"), NOW);
    let count = tree.len();
    let second = tree.resolve_path_at(&s("/a/b/c"), NOW + 1);
    assert_eq!(first, second);
    assert_eq!(tree.len(), count);
    assert_eq!(count, 3);
}

#[test]
fn resolving_shares_common_prefixes() {
    let mut tree = TreeStore::new();
    let ab = tree.resolve_path_at(&s("/a/b"), NOW);
    let ac = tree.resolve_path_at(&s("a//c/"), NOW);
    assert_ne!(ab, ac);
    assert_eq!(tree.len(), 3);
    assert_eq!(tree.resolve_path_at(&s("/"), NOW), None);
    assert_eq!(tree.resolve_path_at(&s("/a/b"), NOW), ab);
}

#[test]
fn depth_one_truncates_internal_children() {
    let mut tree = TreeStore::new();
    tree.store_at(&s("/root"), &sample(), true, NOW).unwrap();
    let r = tree.query_by_path(&s("/root"), 1, 10, Some(1), SortKey::Key, SortOrder::Ascending).unwrap();
    assert_eq!(
        r,
        obj(vec![("address", text("...")), ("age", Json::Number(s("30"))), ("name", text("John"))])
    );
}

#[test]
fn depth_two_expands_one_more_level() {
    let mut tree = TreeStore::new();
    tree.store_at(&s("/root"), &sample(), true, NOW).unwrap();
    let r = tree.query_by_path(&s("/root"), 1, 10, Some(2), SortKey::Key, SortOrder::Ascending).unwrap();
    assert_eq!(
        r,
        obj(vec![
            ("address", obj(vec![("city", text("New York")), ("geo", text("..."))])),
            ("age", Json::Number(s("30"))),
            ("name", text("John")),
        ])
    );
}

#[test]
fn no_depth_limit_expands_everything() {
    let mut tree = TreeStore::new();
    tree.store_at(&s("/root"), &sample(), true, NOW).unwrap();
    let r = tree.query_by_path(&s("/root"), 1, 10, None, SortKey::Timestamp, SortOrder::Ascending).unwrap();
    assert_eq!(r, sample());
}

#[test]
fn pages_and_descending_order() {
    let mut tree = TreeStore::new();
    tree.store_at(&s("/p"), &sample(), true, NOW).unwrap();
    let page2 = tree.query_by_path(&s("/p"), 2, 1, Some(1), SortKey::Key, SortOrder::Ascending).unwrap();
    assert_eq!(page2, obj(vec![("age", Json::Number(s("30")))]));
    let desc = tree.query_by_path(&s("/p"), 1, 2, Some(1), SortKey::Key, SortOrder::Descending).unwrap();
    assert_eq!(desc, obj(vec![("name", text("John")), ("age", Json::Number(s("30")))]));
    let beyond = tree.query_by_path(&s("/p"), 9, 2, Some(1), SortKey::Key, SortOrder::Descending).unwrap();
    assert_eq!(beyond, obj(vec![]));
}

#[test]
fn overwrite_updates_in_place_and_append_adds_siblings() {
    let mut tree = TreeStore::new();
    tree.store_at(&s("/x"), &obj(vec![("k", text("1"))]), true, NOW).unwrap();
    let count = tree.len();
    tree.store_at(&s("/x"), &obj(vec![("k", text("2"))]), true, NOW + 1).unwrap();
    assert_eq!(tree.len(), count);
    let r = tree.query_by_path(&s("/x"), 1, 10, None, SortKey::Key, SortOrder::Ascending).unwrap();
    assert_eq!(r, obj(vec![("k", text("2"))]));
    tree.store_at(&s("/x"), &obj(vec![("k", text("3"))]), false, NOW + 2).unwrap();
    assert_eq!(tree.len(), count + 1);
    let r = tree.query_by_path(&s("/x"), 1, 10, None, SortKey::Timestamp, SortOrder::Descending).unwrap();
    assert_eq!(r, obj(vec![("k", text("3")), ("k", text("2"))]));
}

#[test]
fn array_elements_are_keyed_by_position() {
    let mut tree = TreeStore::new();
    let items: Vec<Json> = (0..12).map(|i| Json::Number(i.to_string())).collect();
    tree.store_at(&s("/list"), &Json::Array(items), true, NOW).unwrap();
    let r = tree.query_by_path(&s("/list"), 1, 3, None, SortKey::Key, SortOrder::Ascending).unwrap();
    assert_eq!(
        r,
        obj(vec![
            ("0", Json::Number(s("0"))),
            ("1", Json::Number(s("1"))),
            ("10", Json::Number(s("10"))),
        ])
    );
}

#[test]
fn missing_path_is_not_found() {
    let mut tree = TreeStore::new();
    tree.store_at(&s("/a"), &sample(), true, NOW).unwrap();
    let r = tree.query_by_path(&s("/a/missing"), 1, 10, None, SortKey::Key, SortOrder::Ascending);
    assert_eq!(r, Err(StoreError::PathNotFound));
    assert_eq!(tree.locate_path(&s("/nowhere")), Err(StoreError::PathNotFound));
}

#[test]
fn scalar_document_is_refused() {
    let mut tree = TreeStore::new();
    assert_eq!(tree.store_at(&s("/a"), &text("x"), true, NOW), Err(StoreError::NotAnObject));
    assert_eq!(tree.len(), 0);
    assert_eq!(tree.store_at(&s("/a"), &sample(), false, NOW), Ok(()));
    assert!(tree.len() > 0);
}

#[test]
fn tree_search_finds_leaves_at_any_depth() {
    let mut tree = TreeStore::new();
    let ny = obj(vec![("name", text("A")), ("addr", obj(vec![("city", text("New York"))]))]);
    let la = obj(vec![("name", text("B")), ("addr", obj(vec![("city", text("Los Angeles"))]))]);
    let top = obj(vec![("city", text("New York")), ("zip", Json::Number(s("10001")))]);
    tree.store_at(&s("/a"), &ny, true, NOW).unwrap();
    tree.store_at(&s("/b"), &la, true, NOW).unwrap();
    tree.store_at(&s("/c"), &top, true, NOW).unwrap();
    let hits = tree.find_by_attribute(&s("city"), &s("New York")).unwrap();
    assert_eq!(hits, vec![obj(vec![("city", text("New York"))]), top]);
    assert_eq!(tree.find_by_attribute(&s("zip"), &s("10001")).unwrap().len(), 1);
    assert_eq!(tree.find_by_attribute(&s(""), &s("")), Ok(vec![]));
    assert_eq!(tree.find_by_attribute(&s("city"), &s("")), Err(StoreError::ValidationError));
}

#[test]
fn children_are_listed_in_node_order() {
    let mut tree = TreeStore::new();
    let root = tree.resolve_path_at(&s("/r"), NOW);
    tree.store_at(&s("/r"), &sample(), true, NOW).unwrap();
    assert_eq!(tree.children_of(root).len(), 3);
    assert_eq!(tree.find_child(root, &s("age")).is_some(), true);
    assert_eq!(tree.find_child(root, &s("missing")), None);
}

const DAY: i64 = 86400;

#[test]
fn tree_sweep_removes_old_nodes_below_the_path() {
    let mut tree = TreeStore::new();
    tree.store_at(&s("/a"), &obj(vec![("k", text("old"))]), false, NOW - 30 * DAY).unwrap();
    tree.store_at(&s("/a"), &obj(vec![("k", text("new"))]), false, NOW).unwrap();
    tree.store_at(&s("/other"), &obj(vec![("k", text("old"))]), false, NOW - 30 * DAY).unwrap();
    assert_eq!(tree.len(), 5);
    assert_eq!(tree.cleanup_at(&s("/a"), 7, NOW), Ok(()));
    // the node the path names stays; only what lies below it is swept
    assert_eq!(tree.len(), 4);
    let r = tree.query_by_path(&s("/a"), 1, 10, None, SortKey::Key, SortOrder::Ascending).unwrap();
    assert_eq!(r, obj(vec![("k", text("new"))]));
    let o = tree.query_by_path(&s("/other"), 1, 10, None, SortKey::Key, SortOrder::Ascending).unwrap();
    assert_eq!(o, obj(vec![("k", text("old"))]));
}

#[test]
fn tree_sweep_takes_descendants_of_removed_nodes() {
    let mut tree = TreeStore::new();
    tree.store_at(&s("/b"), &obj(vec![("x", obj(vec![("y", text("1"))]))]), true, NOW - 30 * DAY).unwrap();
    tree.store_at(&s("/b"), &obj(vec![("w", obj(vec![("z", text("2"))]))]), true, NOW).unwrap();
    tree.store_at(&s("/b/x"), &obj(vec![("fresh", text("3"))]), true, NOW).unwrap();
    assert_eq!(tree.cleanup_at(&s("/b"), 7, NOW), Ok(()));
    let r = tree.query_by_path(&s("/b"), 1, 10, None, SortKey::Key, SortOrder::Ascending).unwrap();
    assert_eq!(r, obj(vec![("w", obj(vec![("z", text("2"))]))]));
}

#[test]
fn tree_sweep_of_whole_tree_and_missing_path() {
    let mut tree = TreeStore::new();
    tree.store_at(&s("/a"), &obj(vec![("k", text("1"))]), true, NOW - 30 * DAY).unwrap();
    assert_eq!(tree.cleanup_at(&s("/missing"), 7, NOW), Err(StoreError::PathNotFound));
    assert_eq!(tree.len(), 2);
    assert_eq!(tree.cleanup_at(&s("/"), 7, NOW), Ok(()));
    assert_eq!(tree.len(), 0);
}
