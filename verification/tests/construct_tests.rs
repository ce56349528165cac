use synless::construct::Construct;
use synless::construct::Arity;

#[test]
fn test_arity() {
    let fixed = Arity::fixed(2);
    assert_eq!(fixed, Arity::ForestArity { arity: 2, extendable: false });
    assert!(!fixed.is_text());
    assert!(!fixed.is_extendable());
    assert_eq!(fixed.arity(), 2);

    let ext = Arity::extendable(1);
    assert!(ext.is_extendable());
    assert!(!ext.is_text());
    assert_eq!(ext.arity(), 1);

    let text = Arity::text();
    assert!(text.is_text());
    assert!(!text.is_extendable());
    assert_eq!(text.arity(), 0);
}

#[test]
fn test_construct_extendable() {
    let list = Construct::new("list", Arity::extendable(0), "[...]");
    assert_eq!(list.name, "list");
    assert!(list.is_extendable());
    let plus = Construct::new("plus", Arity::fixed(2), "+");
    assert!(!plus.is_extendable());
    assert_eq!(plus.arity.arity(), 2);
    let iden = Construct::new("iden", Arity::text(), ());
    assert!(!iden.is_extendable());
}
