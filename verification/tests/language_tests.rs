use synless::language::Language;
use synless::typed_construct::{Construct, Signature};

#[test]
fn test_construct_new() {
    let c = Construct::new("plus", "Expr", Signature::Forest(vec!["Expr".to_string(), "Expr".to_string()], None));
    assert_eq!(c.name, "plus");
    assert_eq!(c.typ, "Expr");
    match c.sig {
        Signature::Forest(kids, more) => {
            assert_eq!(kids, vec!["Expr".to_string(), "Expr".to_string()]);
            assert_eq!(more, None);
        }
        _ => panic!("wrong signature"),
    }
}

#[test]
fn test_hole() {
    let h = Construct::hole();
    assert_eq!(h.name, "?");
    assert_eq!(h.typ, "Any");
    match h.sig {
        Signature::Forest(kids, more) => {
            assert!(kids.is_empty());
            assert_eq!(more, None);
        }
        _ => panic!("wrong signature"),
    }
}

#[test]
fn test_language_lookup() {
    let mut lang = Language::new();
    assert!(lang.lookup('p').is_none());
    lang.add('p', Construct::new("plus", "Expr", Signature::Forest(vec![], None)));
    lang.add('i', Construct::new("iden", "Expr", Signature::Text));
    lang.add('s', Construct::new("strn", "Str", Signature::Mixed("Expr".to_string())));
    assert_eq!(lang.lookup('p').unwrap().name, "plus");
    assert_eq!(lang.lookup('i').unwrap().name, "iden");
    assert_eq!(lang.lookup_name("strn").typ, "Str");
    assert!(lang.lookup('x').is_none());
}

#[test]
fn test_language_add_replaces() {
    let mut lang = Language::new();
    lang.add('p', Construct::new("plus", "Expr", Signature::Text));
    lang.add('q', Construct::new("plus", "Sum", Signature::Text));
    // Both keys insert the construct of that name, which is the newer one.
    assert_eq!(lang.lookup('p').unwrap().typ, "Sum");
    assert_eq!(lang.lookup('q').unwrap().typ, "Sum");
    // A key given again now inserts the new construct.
    lang.add('p', Construct::new("times", "Expr", Signature::Text));
    assert_eq!(lang.lookup('p').unwrap().name, "times");
    assert_eq!(lang.lookup_name("plus").typ, "Sum");
}
