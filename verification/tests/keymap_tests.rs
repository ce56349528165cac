use synless::key::{Key, KeyCode, KeyModifiers};
use synless::keymap::{Candidate, Keymap};
use synless::stack::{Op, Prog, Value};

fn key(c: char) -> Key {
    Key::new(
        KeyCode::Char(c),
        KeyModifiers {
            ctrl: false,
            alt: false,
            shift: false,
        },
    )
    .unwrap()
}

fn prog(ops: Vec<Op>) -> Prog {
    Prog::new(ops)
}

#[test]
fn test_bind_and_lookup() {
    let mut km = Keymap::new();
    km.bind_key(key('p'), "pop".to_string(), prog(vec![Op::Pop]), false);
    km.bind_key(key('q'), "quit".to_string(), prog(vec![Op::Pop]), true);
    // Without exiting the menu, the program blocks once done.
    assert_eq!(km.lookup(key('p'), None), Some(prog(vec![Op::Pop, Op::Block])));
    // Exiting the menu comes first.
    assert_eq!(km.lookup(key('q'), None), Some(prog(vec![Op::ExitMenu, Op::Pop])));
    assert_eq!(km.lookup(key('z'), None), None);
}

#[test]
fn test_rebinding_overwrites() {
    let mut km = Keymap::new();
    km.bind_key(key('a'), "first".to_string(), prog(vec![Op::Pop]), false);
    km.bind_key(key('b'), "other".to_string(), prog(vec![Op::Swap]), false);
    km.bind_key(key('a'), "second".to_string(), prog(vec![Op::Apply]), false);
    assert_eq!(km.lookup(key('a'), None), Some(prog(vec![Op::Apply, Op::Block])));
    let keys = km.available_keys(None);
    assert_eq!(keys, vec![(key('a'), "second"), (key('b'), "other")]);
}

#[test]
fn test_literal_and_custom_candidates() {
    let mut km = Keymap::new();
    km.add_literal_candidate("one".to_string(), Value::Int(1));
    km.bind_key_for_literal_candidates(key('i'), "insert".to_string(), prog(vec![]), true);
    km.bind_key_for_custom_candidates(key('i'), "insert text".to_string(), prog(vec![Op::Pop]), false);
    let one = Value::Int(1);
    let lit = Candidate::Literal {
        display: "one",
        value: &one,
    };
    assert_eq!(
        km.lookup(key('i'), Some(lit)),
        Some(prog(vec![Op::ExitMenu, Op::Literal(Value::Int(1))]))
    );
    let custom = Candidate::Custom { input: "abc" };
    assert_eq!(
        km.lookup(key('i'), Some(custom)),
        Some(prog(vec![
            Op::Literal(Value::String("abc".to_string())),
            Op::Pop,
            Op::Block
        ]))
    );
}

#[test]
fn test_candidate_bindings_come_first() {
    let mut km = Keymap::new();
    km.bind_key(key('x'), "general".to_string(), prog(vec![Op::Pop]), false);
    km.bind_key(key('y'), "general y".to_string(), prog(vec![Op::Swap]), false);
    km.bind_key_for_candidate(key('x'), "file".to_string(), "open".to_string(), prog(vec![Op::Apply]), true);
    let file = Candidate::NonLiteral { display: "file" };
    assert_eq!(km.lookup(key('x'), Some(file)), Some(prog(vec![Op::ExitMenu, Op::Apply])));
    assert_eq!(km.lookup(key('y'), Some(file)), Some(prog(vec![Op::Swap, Op::Block])));
    assert_eq!(km.lookup(key('x'), None), Some(prog(vec![Op::Pop, Op::Block])));
    let keys = km.available_keys(Some(file));
    assert_eq!(
        keys,
        vec![(key('x'), "open"), (key('x'), "general"), (key('y'), "general y")]
    );
}

#[test]
fn test_append_overrides() {
    let mut km = Keymap::new();
    km.bind_key(key('a'), "mine".to_string(), prog(vec![Op::Pop]), false);
    km.bind_key(key('b'), "kept".to_string(), prog(vec![Op::Pop]), false);
    km.add_literal_candidate("v".to_string(), Value::Int(1));
    let mut other = Keymap::new();
    other.bind_key(key('a'), "theirs".to_string(), prog(vec![Op::Swap]), false);
    other.bind_key(key('c'), "new".to_string(), prog(vec![Op::Apply]), false);
    other.add_literal_candidate("v".to_string(), Value::Int(2));
    other.add_literal_candidate("w".to_string(), Value::Int(3));
    other.bind_key_for_candidate(key('d'), "file".to_string(), "open".to_string(), prog(vec![]), false);
    km.append(other);
    assert_eq!(km.lookup(key('a'), None), Some(prog(vec![Op::Swap, Op::Block])));
    assert_eq!(km.lookup(key('b'), None), Some(prog(vec![Op::Pop, Op::Block])));
    assert_eq!(km.lookup(key('c'), None), Some(prog(vec![Op::Apply, Op::Block])));
    let keys = km.available_keys(None);
    assert_eq!(
        keys,
        vec![(key('a'), "theirs"), (key('b'), "kept"), (key('c'), "new")]
    );
    let names: Vec<String> = km
        .filtered_candidates("")
        .iter()
        .map(|c| match c {
            Candidate::Literal { display, value } => format!("{}={:?}", display, value),
            Candidate::NonLiteral { display } => display.to_string(),
            Candidate::Custom { input } => format!("custom {}", input),
        })
        .collect();
    assert_eq!(names, vec!["v=Int(2)", "w=Int(3)", "file"]);
}

#[test]
fn test_filtered_candidates() {
    let mut km = Keymap::new();
    assert!(!km.has_candidates());
    km.add_literal_candidate("apple".to_string(), Value::Int(1));
    km.add_literal_candidate("banana".to_string(), Value::Int(2));
    km.bind_key_for_candidate(key('o'), "grape".to_string(), "open".to_string(), prog(vec![]), false);
    km.bind_key_for_candidate(key('o'), "pineapple".to_string(), "open".to_string(), prog(vec![]), false);
    assert!(km.has_candidates());
    let found = km.filtered_candidates("app");
    assert_eq!(found.len(), 2);
    assert!(matches!(found[0], Candidate::Literal { display: "apple", .. }));
    assert!(matches!(found[1], Candidate::NonLiteral { display: "pineapple" }));
    km.bind_key_for_custom_candidates(key('n'), "new".to_string(), prog(vec![]), false);
    let found = km.filtered_candidates("an");
    assert_eq!(found.len(), 2);
    assert!(matches!(found[0], Candidate::Custom { input: "an" }));
    assert!(matches!(found[1], Candidate::Literal { display: "banana", .. }));
}
