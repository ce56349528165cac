use synless::interpreter::Interpreter;
use synless::stack::{type_mismatch_error, CallStack, DataStack, EditorError, Op, Prog, Value, ValueType};

#[test]
fn test_prog_runs_in_order() {
    let prog = Prog::new(vec![Op::Swap, Op::Pop, Op::Block]);
    let mut stack = CallStack::new();
    stack.push(prog);
    assert_eq!(stack.pop(), Some(Op::Swap));
    assert_eq!(stack.pop(), Some(Op::Pop));
    assert_eq!(stack.pop(), Some(Op::Block));
    assert_eq!(stack.pop(), None);
}

#[test]
fn test_prog_insert_first_and_last() {
    let mut prog = Prog::new(vec![Op::Pop]);
    prog.insert_first(Op::Swap);
    prog.insert_last(Op::Block);
    let mut stack = CallStack::new();
    stack.push(prog);
    assert_eq!(stack.pop(), Some(Op::Swap));
    assert_eq!(stack.pop(), Some(Op::Pop));
    assert_eq!(stack.pop(), Some(Op::Block));
    assert_eq!(stack.pop(), None);
}

#[test]
fn test_call_stack_nested() {
    let mut stack = CallStack::new();
    stack.push(Prog::new(vec![Op::Swap, Op::Pop]));
    assert_eq!(stack.pop(), Some(Op::Swap));
    // A program pushed later runs first; the outer one resumes after it.
    stack.push(Prog::new(vec![Op::Block, Op::ExitMenu]));
    assert_eq!(stack.pop(), Some(Op::Block));
    assert_eq!(stack.pop(), Some(Op::ExitMenu));
    assert_eq!(stack.pop(), Some(Op::Pop));
    assert_eq!(stack.pop(), None);
}

#[test]
fn test_prog_quote_and_pop() {
    let mut prog = Prog::from_op(Op::Apply);
    assert_eq!(prog.pop(), Some(Op::Apply));
    assert_eq!(prog.pop(), None);
    let quoted = Prog::new(vec![Op::Pop]).quote();
    assert_eq!(quoted, Value::Quote(Prog::new(vec![Op::Pop])));
}

#[test]
fn test_data_stack_pops() {
    let mut ds = DataStack::new();
    assert_eq!(ds.pop(), Err(EditorError::EmptyDataStack));
    ds.push(Value::Int(7));
    ds.push(Value::String("hi".to_string()));
    ds.push(Value::Quote(Prog::new(vec![Op::Block])));
    assert_eq!(ds.pop_quote(), Ok(Prog::new(vec![Op::Block])));
    assert_eq!(ds.pop_string(), Ok("hi".to_string()));
    assert_eq!(ds.pop_int(), Ok(7));
    assert_eq!(ds.pop_int(), Err(EditorError::EmptyDataStack));
}

#[test]
fn test_data_stack_type_mismatch() {
    let mut ds = DataStack::new();
    ds.push(Value::Int(3));
    assert_eq!(
        ds.pop_string(),
        Err(EditorError::TypeMismatch { actual: "Int".to_string(), expected: "String".to_string() })
    );
    // The mismatched value is left on the stack.
    assert_eq!(ds.pop(), Ok(Value::Int(3)));
    assert_eq!(ds.pop(), Err(EditorError::EmptyDataStack));
    ds.push(Value::String("s".to_string()));
    assert_eq!(
        ds.pop_quote(),
        Err(EditorError::TypeMismatch { actual: "String".to_string(), expected: "Quote".to_string() })
    );
    ds.push(Value::Quote(Prog::new(vec![])));
    assert_eq!(
        ds.pop_int(),
        Err(EditorError::TypeMismatch { actual: "Quote".to_string(), expected: "Int".to_string() })
    );
}

#[test]
fn test_data_stack_swap() {
    let mut ds = DataStack::new();
    assert_eq!(ds.swap(), Err(EditorError::EmptyDataStack));
    ds.push(Value::Int(1));
    assert_eq!(ds.swap(), Err(EditorError::EmptyDataStack));
    ds.push(Value::Int(2));
    assert_eq!(ds.swap(), Ok(()));
    assert_eq!(ds.pop_int(), Ok(1));
    assert_eq!(ds.pop_int(), Ok(2));
    // Swapping twice gives the stack back.
    ds.push(Value::Int(5));
    ds.push(Value::Int(6));
    assert_eq!(ds.swap(), Ok(()));
    assert_eq!(ds.swap(), Ok(()));
    assert_eq!(ds.pop_int(), Ok(6));
    assert_eq!(ds.pop_int(), Ok(5));
}

#[test]
fn test_value_types() {
    assert_eq!(Value::Int(0).get_type(), ValueType::Int);
    assert_eq!(Value::String(String::new()).get_type(), ValueType::String);
    assert_eq!(ValueType::Quote.to_string(), "Quote");
    assert_eq!(
        type_mismatch_error(&Value::Int(1), ValueType::String),
        EditorError::TypeMismatch { actual: "Int".to_string(), expected: "String".to_string() }
    );
}

#[test]
fn test_interpreter_execute() {
    let mut interp = Interpreter::new();
    assert_eq!(interp.execute(Prog::new(vec![])), Ok(false));
    assert_eq!(interp.execute(Prog::new(vec![Op::Block])), Ok(true));
}
