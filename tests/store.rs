use catalog_mirror::error::CatalogError;
use catalog_mirror::mirror::{Mirror, RemoteCall};
use catalog_mirror::name::QualifiedName;

fn q(s: &str) -> QualifiedName {
    QualifiedName::parse(s).unwrap()
}

fn listed(m: &Mirror<u64>, ns: &str) -> Vec<String> {
    let mut v: Vec<String> = m.table_names(&q(ns)).unwrap().iter().map(|n| n.render()).collect();
    v.sort();
    v
}

fn with_sales() -> Mirror<u64> {
    let mut m = Mirror::new();
    m.add_namespace(&q("sales")).unwrap();
    m
}

#[test]
fn register_then_list_then_remove() {
    let mut m = with_sales();
    let r = m.register_table(q("sales.orders"), 1, "s3://b/orders/meta.json".to_string());
    assert_eq!(r, Ok(Some(1)));
    assert_eq!(listed(&m, "sales"), vec!["sales.orders".to_string()]);
    assert_eq!(m.table(&q("sales.orders")), Some(&1));
    assert_eq!(m.deregister_table(q("sales.orders")), Ok(Some(1)));
    assert!(listed(&m, "sales").is_empty());
}

#[test]
fn register_under_missing_namespace_changes_nothing() {
    let mut m = with_sales();
    let r = m.register_table(q("missing.orders"), 7, "loc".to_string());
    assert_eq!(r, Err(CatalogError::NamespaceNotFound));
    assert!(!m.table_exists(&q("missing.orders")));
    assert_eq!(m.table_names(&q("missing")).err(), Some(CatalogError::NamespaceNotFound));
    assert!(listed(&m, "sales").is_empty());
    assert_eq!(m.schema_names().len(), 1);
    assert!(m.take_pending().is_empty());
}

#[test]
fn register_twice_keeps_second_handle() {
    let mut m = with_sales();
    m.register_table(q("sales.orders"), 1, "a".to_string()).unwrap();
    assert_eq!(listed(&m, "sales").len(), 1);
    m.register_table(q("sales.orders"), 2, "b".to_string()).unwrap();
    assert_eq!(listed(&m, "sales").len(), 1);
    assert_eq!(m.table(&q("sales.orders")), Some(&2));
}

#[test]
fn read_after_write() {
    let mut m = with_sales();
    assert!(!m.table_exists(&q("sales.items")));
    m.register_table(q("sales.items"), 42, "loc".to_string()).unwrap();
    assert!(m.table_exists(&q("sales.items")));
    assert_eq!(m.table(&q("sales.items")), Some(&42));
}

#[test]
fn removal_after_registration() {
    let mut m = with_sales();
    m.register_table(q("sales.items"), 5, "loc".to_string()).unwrap();
    assert_eq!(m.deregister_table(q("sales.items")), Ok(Some(5)));
    assert_eq!(m.table(&q("sales.items")), None);
    assert!(!m.table_exists(&q("sales.items")));
    assert!(!listed(&m, "sales").contains(&"sales.items".to_string()));
}

#[test]
fn many_tables_in_one_namespace() {
    let mut m = with_sales();
    let n: u64 = 50;
    for i in (0..n).rev() {
        let name = format!("sales.t{:03}", i);
        m.register_table(q(&name), i, format!("loc{}", i)).unwrap();
    }
    let names = listed(&m, "sales");
    let expected: Vec<String> = (0..n).map(|i| format!("sales.t{:03}", i)).collect();
    assert_eq!(names, expected);
}

#[test]
fn mutations_queue_remote_calls_in_order() {
    let mut m = with_sales();
    m.register_table(q("sales.orders"), 1, "s3://meta".to_string()).unwrap();
    m.deregister_table(q("sales.orders")).unwrap();
    let calls = m.take_pending();
    assert_eq!(calls.len(), 2);
    match &calls[0] {
        RemoteCall::Register { name, location } => {
            assert_eq!(name.render(), "sales.orders");
            assert_eq!(location, "s3://meta");
        }
        RemoteCall::Drop { .. } => panic!("expected a registration first"),
    }
    match &calls[1] {
        RemoteCall::Drop { name } => assert_eq!(name.render(), "sales.orders"),
        RemoteCall::Register { .. } => panic!("expected a drop second"),
    }
    assert!(m.take_pending().is_empty());
}

#[test]
fn loaded_tables_owe_no_remote_call() {
    let mut m = with_sales();
    m.load_table(&q("sales.orders"), 3).unwrap();
    assert_eq!(m.table(&q("sales.orders")), Some(&3));
    assert!(m.take_pending().is_empty());
    assert_eq!(m.load_table(&q("other.orders"), 3), Err(CatalogError::NamespaceNotFound));
}

#[test]
fn kind_mismatches_are_reported() {
    let mut m = with_sales();
    m.register_table(q("sales.orders"), 1, "l".to_string()).unwrap();
    assert_eq!(m.table_names(&q("sales.orders")).err(), Some(CatalogError::NotANamespace));
    assert_eq!(
        m.register_table(q("sales.orders.x"), 2, "l".to_string()),
        Err(CatalogError::NotANamespace)
    );
    assert_eq!(m.deregister_table(q("sales")), Err(CatalogError::NotATable));
    assert_eq!(m.register_table(q("sales"), 2, "l".to_string()), Err(CatalogError::NamespaceNotFound));
    m.add_namespace(&q("sales.eu")).unwrap();
    assert_eq!(m.register_table(q("sales.eu"), 2, "l".to_string()), Err(CatalogError::NotATable));
    assert_eq!(m.add_namespace(&q("sales.orders")), Err(CatalogError::NotANamespace));
    assert_eq!(m.deregister_table(q("sales.gone")), Err(CatalogError::TableNotFound));
    assert_eq!(m.table(&q("sales")), None);
    assert!(!m.table_exists(&q("sales")));
}

#[test]
fn schema_names_lists_each_namespace_once() {
    let mut m = with_sales();
    m.add_namespace(&q("hr")).unwrap();
    m.add_namespace(&q("sales")).unwrap();
    m.register_table(q("hr.people"), 1, "l".to_string()).unwrap();
    let mut names: Vec<String> = m.schema_names().iter().map(|n| n.render()).collect();
    names.sort();
    assert_eq!(names, vec!["hr".to_string(), "sales".to_string()]);
}

#[test]
fn re_adding_a_namespace_keeps_its_tables() {
    let mut m = with_sales();
    m.register_table(q("sales.orders"), 1, "l".to_string()).unwrap();
    m.add_namespace(&q("sales")).unwrap();
    assert_eq!(listed(&m, "sales"), vec!["sales.orders".to_string()]);
}
