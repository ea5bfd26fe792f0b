use catalog_mirror::error::CatalogError;
use catalog_mirror::name::QualifiedName;

fn parts(n: &QualifiedName) -> Vec<String> {
    n.segments().clone()
}

#[test]
fn parse_splits_on_dots() {
    let n = QualifiedName::parse("sales.eu.orders").unwrap();
    assert_eq!(parts(&n), vec!["sales".to_string(), "eu".to_string(), "orders".to_string()]);
    assert_eq!(n.name(), "orders");
}

#[test]
fn render_joins_with_dots() {
    let n = QualifiedName::parse("sales.orders").unwrap();
    assert_eq!(n.render(), "sales.orders");
    let single = QualifiedName::parse("sales").unwrap();
    assert_eq!(single.render(), "sales");
}

#[test]
fn parse_render_round_trip() {
    for text in ["a", "sales.orders", "x.y.z.w", "ünï.cödé"] {
        let n = QualifiedName::parse(text).unwrap();
        assert_eq!(n.render(), text);
        let again = QualifiedName::parse(&n.render()).unwrap();
        assert_eq!(parts(&again), parts(&n));
    }
}

#[test]
fn parse_rejects_malformed_text() {
    for text in ["", ".", "a..b", ".a", "a.", "sales..orders"] {
        assert_eq!(QualifiedName::parse(text).err(), Some(CatalogError::MalformedName));
    }
}

#[test]
fn parent_namespace_drops_last_segment() {
    let n = QualifiedName::parse("sales.eu.orders").unwrap();
    let p = n.parent_namespace().unwrap();
    assert_eq!(p.render(), "sales.eu");
    assert!(QualifiedName::parse("sales").unwrap().parent_namespace().is_none());
}

#[test]
fn child_appends_a_segment() {
    let ns = QualifiedName::parse("sales").unwrap();
    let t = ns.child("orders").unwrap();
    assert_eq!(t.render(), "sales.orders");
    assert_eq!(ns.child("").err(), Some(CatalogError::MalformedName));
    assert_eq!(ns.child("a.b").err(), Some(CatalogError::MalformedName));
}
