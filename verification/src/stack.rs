//! The data stack and call stack of the editor's small stack machine, and the
//! programs it runs.

use vstd::prelude::*;
use vstd::string::*;

verus! {

/// Errors raised while running a program on the stack machine.
#[derive(Debug, Clone, PartialEq, Eq)]
pub enum EditorError {
    /// A value was needed but the data stack was empty.
    EmptyDataStack,
    /// The value on top of the data stack had the wrong type.
    TypeMismatch { actual: String, expected: String },
}

/// A program. Its ops are stored in reverse: the last op runs first.
#[derive(Debug, PartialEq, Eq)]
pub struct Prog(pub Vec<Op>);

/// A value on the data stack.
#[derive(Debug, PartialEq, Eq)]
pub enum Value {
    Int(i32),
    String(String),
    Quote(Prog),
}

/// The type of a `Value`.
#[derive(Debug, Clone, Copy, PartialEq, Eq, Structural)]
pub enum ValueType {
    Int,
    String,
    Quote,
}

/// An operation of the stack machine.
#[derive(Debug, PartialEq, Eq)]
pub enum Op {
    // Data-stack manipulation:
    Swap,
    Apply,
    Pop,
    Literal(Value),
    // Keymap:
    Block,
    ExitMenu,
}

/// The data stack: values, top of stack last.
pub struct DataStack(pub Vec<Value>);

/// The call stack: programs, the running one last.
pub struct CallStack(pub Vec<Prog>);

impl View for Prog {
    type V = Seq<Op>;

    open spec fn view(&self) -> Seq<Op> {
        self.0@
    }
}

impl View for DataStack {
    type V = Seq<Value>;

    open spec fn view(&self) -> Seq<Value> {
        self.0@
    }
}

impl View for CallStack {
    type V = Seq<Prog>;

    open spec fn view(&self) -> Seq<Prog> {
        self.0@
    }
}

/// A value as the specification compares values: strings and programs by
/// their contents.
pub enum ValueD {
    Int(i32),
    Str(Seq<char>),
    Quote(Seq<OpD>),
}

/// An op as the specification compares ops.
pub enum OpD {
    Swap,
    Apply,
    Pop,
    Literal(ValueD),
    Block,
    ExitMenu,
}

/// The contents of a value.
pub open spec fn value_d(v: Value) -> ValueD
    decreases v,
{
    match v {
        Value::Int(i) => ValueD::Int(i),
        Value::String(s) => ValueD::Str(s@),
        Value::Quote(p) => ValueD::Quote(ops_d(p.0@)),
    }
}

/// The contents of an op.
pub open spec fn op_d(o: Op) -> OpD
    decreases o,
{
    match o {
        Op::Swap => OpD::Swap,
        Op::Apply => OpD::Apply,
        Op::Pop => OpD::Pop,
        Op::Literal(v) => OpD::Literal(value_d(v)),
        Op::Block => OpD::Block,
        Op::ExitMenu => OpD::ExitMenu,
    }
}

/// The contents of a sequence of ops.
pub open spec fn ops_d(ops: Seq<Op>) -> Seq<OpD>
    decreases ops,
{
    if ops.len() == 0 {
        Seq::empty()
    } else {
        ops_d(ops.drop_last()).push(op_d(ops.last()))
    }
}

/// The type of a value.
pub open spec fn type_of(v: Value) -> ValueType {
    match v {
        Value::Int(_) => ValueType::Int,
        Value::String(_) => ValueType::String,
        Value::Quote(_) => ValueType::Quote,
    }
}

/// The name a value type is displayed with.
pub open spec fn value_type_text(t: ValueType) -> Seq<char> {
    match t {
        ValueType::Int => "Int"@,
        ValueType::String => "String"@,
        ValueType::Quote => "Quote"@,
    }
}

/// Whether `e` reports finding `actual` where `expected` was needed.
pub open spec fn is_mismatch(e: EditorError, actual: ValueType, expected: ValueType) -> bool {
    match e {
        EditorError::TypeMismatch { actual: a, expected: x } => a@ == value_type_text(actual) && x@
            == value_type_text(expected),
        _ => false,
    }
}

/// The contents of the ops of `ops` up to `k`.
proof fn lemma_ops_d_prefix(ops: Seq<Op>, k: int)
    requires
        0 <= k < ops.len(),
    ensures
        ops_d(ops.subrange(0, k + 1)) == ops_d(ops.subrange(0, k)).push(op_d(ops[k])),
{
    let s = ops.subrange(0, k + 1);
    assert(s.drop_last() =~= ops.subrange(0, k));
}

impl Value {
    /// A copy of this value.
    pub fn duplicate(&self) -> (v: Value)
        ensures
            value_d(v) == value_d(*self),
        decreases self,
    {
        match self {
            Value::Int(i) => Value::Int(*i),
            Value::String(s) => Value::String(s.clone()),
            Value::Quote(p) => Value::Quote(p.duplicate()),
        }
    }
}

impl Op {
    /// A copy of this op.
    pub fn duplicate(&self) -> (o: Op)
        ensures
            op_d(o) == op_d(*self),
        decreases self,
    {
        match self {
            Op::Swap => Op::Swap,
            Op::Apply => Op::Apply,
            Op::Pop => Op::Pop,
            Op::Literal(v) => Op::Literal(v.duplicate()),
            Op::Block => Op::Block,
            Op::ExitMenu => Op::ExitMenu,
        }
    }
}

impl Prog {
    /// A copy of this program.
    pub fn duplicate(&self) -> (p: Prog)
        ensures
            ops_d(p@) == ops_d(self@),
        decreases self,
    {
        let mut ops: Vec<Op> = Vec::new();
        let mut i: usize = 0;
        while i < self.0.len()
            invariant
                i <= self.0@.len(),
                ops_d(ops@) == ops_d(self.0@.subrange(0, i as int)),
            decreases self.0@.len() - i,
        {
            proof {
                assert(decreases_to!(self => self.0@[i as int]));
            }
            let o = self.0[i].duplicate();
            let ghost before = ops@;
            ops.push(o);
            proof {
                assert(ops@.drop_last() =~= before);
                lemma_ops_d_prefix(self.0@, i as int);
            }
            i += 1;
        }
        proof {
            assert(self.0@.subrange(0, self.0@.len() as int) =~= self.0@);
        }
        Prog(ops)
    }
}

impl Value {
    /// The type of this value.
    pub fn get_type(&self) -> (t: ValueType)
        ensures
            t == type_of(*self),
    {
        match self {
            Value::Int(_) => ValueType::Int,
            Value::String(_) => ValueType::String,
            Value::Quote(_) => ValueType::Quote,
        }
    }
}

impl ValueType {
    /// The type's name: `Int`, `String` or `Quote`.
    pub fn to_string(&self) -> (s: String)
        ensures
            s@ == value_type_text(*self),
    {
        match self {
            ValueType::Int => String::from_str("Int"),
            ValueType::String => String::from_str("String"),
            ValueType::Quote => String::from_str("Quote"),
        }
    }
}

/// The ops still to run, in the order they will run, for a call stack whose
/// running program is last.
pub open spec fn pending(stack: Seq<Prog>) -> Seq<Op>
    decreases stack.len(),
{
    if stack.len() == 0 {
        Seq::empty()
    } else {
        stack.last()@.reverse() + pending(stack.drop_last())
    }
}

impl Prog {
    /// Construct a program in which the given ops will be executed in order,
    /// starting from index 0 of the vector.
    pub fn new(forward_ops: Vec<Op>) -> (p: Prog)
        ensures
            p@ == forward_ops@.reverse(),
    {
        let mut forward_ops = forward_ops;
        let ghost orig = forward_ops@;
        let mut ops: Vec<Op> = Vec::new();
        while forward_ops.len() > 0
            invariant
                forward_ops@.len() <= orig.len(),
                forward_ops@ == orig.subrange(0, forward_ops@.len() as int),
                ops@ == orig.subrange(forward_ops@.len() as int, orig.len() as int).reverse(),
            decreases forward_ops@.len(),
        {
            let ghost k = forward_ops@.len();
            let op = forward_ops.pop().unwrap();
            assert(op == orig[k - 1]);
            ops.push(op);
            assert(forward_ops@ =~= orig.subrange(0, forward_ops@.len() as int));
            assert(ops@ =~= orig.subrange(forward_ops@.len() as int, orig.len() as int).reverse());
        }
        assert(orig.subrange(0, orig.len() as int) =~= orig);
        Prog(ops)
    }

    /// Insert `op` as the _first_ operator to be executed in this program.
    pub fn insert_first(&mut self, op: Op)
        ensures
            final(self)@ == old(self)@.push(op),
    {
        self.0.push(op);
    }

    /// Insert `op` as the _last_ operator to be executed in this program.
    pub fn insert_last(&mut self, op: Op)
        ensures
            final(self)@ == seq![op] + old(self)@,
    {
        self.0.insert(0, op);
        assert(self@ =~= seq![op] + old(self)@);
    }

    /// Produce a literal value containing this program.
    pub fn quote(self) -> (v: Value)
        ensures
            v == Value::Quote(self),
    {
        Value::Quote(self)
    }

    /// Pop the next op from the program.
    pub fn pop(&mut self) -> (op: Option<Op>)
        ensures
            old(self)@.len() == 0 ==> op is None && final(self)@ == old(self)@,
            old(self)@.len() > 0 ==> op == Some(old(self)@.last()) && final(self)@ == old(self)@.drop_last(),
    {
        self.0.pop()
    }

    /// A program of the one op `op`.
    pub fn from_op(op: Op) -> (p: Prog)
        ensures
            p@ == seq![op],
    {
        let mut v = Vec::new();
        v.push(op);
        Prog(v)
    }
}

impl CallStack {
    /// Construct a new empty callstack.
    pub fn new() -> (c: CallStack)
        ensures
            c@ == Seq::<Prog>::empty(),
    {
        CallStack(Vec::new())
    }

    /// Push a program onto the call stack.
    pub fn push(&mut self, prog: Prog)
        ensures
            final(self)@ == old(self)@.push(prog),
            pending(final(self)@) == prog@.reverse() + pending(old(self)@),
    {
        self.0.push(prog);
        assert(self@.drop_last() =~= old(self)@);
    }

    /// Return the next op to execute, removing it from the call stack. Or
    /// return None if the call stack is empty.
    pub fn pop(&mut self) -> (op: Option<Op>)
        ensures
            pending(old(self)@).len() == 0 ==> op is None && final(self)@.len() == 0,
            pending(old(self)@).len() > 0 ==> op == Some(pending(old(self)@)[0]) && pending(
                final(self)@,
            ) == pending(old(self)@).drop_first(),
    {
        loop
            invariant
                pending(self@) == pending(old(self)@),
            decreases self@.len(),
        {
            let ghost before = self@;
            match self.0.pop() {
                None => {
                    return None;
                }
                Some(prog) => {
                    assert(before.drop_last() =~= self@);
                    let mut prog = prog;
                    let ghost ops = prog@;
                    match prog.pop() {
                        None => {
                            assert(ops.reverse() =~= Seq::<Op>::empty());
                            assert(pending(self@) =~= pending(before));
                        },
                        Some(op) => {
                            assert(ops.reverse() =~= seq![op] + prog@.reverse());
                            if prog.0.len() > 0 {
                                self.0.push(prog);
                                assert(self@.drop_last() =~= before.drop_last());
                            } else {
                                assert(prog@.reverse() =~= Seq::<Op>::empty());
                            }
                            assert(pending(before) =~= seq![op] + pending(self@));
                            assert(pending(self@) =~= pending(before).drop_first());
                            return Some(op);
                        },
                    }
                },
            }
        }
    }
}

impl DataStack {
    /// Construct a new empty data stack.
    pub fn new() -> (d: DataStack)
        ensures
            d@ == Seq::<Value>::empty(),
    {
        DataStack(Vec::new())
    }

    /// Swap the order of the two top-most values on the data stack. Return an
    /// error if there are less than 2 values on the data stack (and then leave
    /// the stack as it was).
    pub fn swap(&mut self) -> (r: Result<(), EditorError>)
        ensures
            old(self)@.len() < 2 ==> r == Err::<(), EditorError>(EditorError::EmptyDataStack)
                && final(self)@ == old(self)@,
            old(self)@.len() >= 2 ==> r is Ok && final(self)@ == old(self)@.subrange(
                0,
                old(self)@.len() - 2,
            ).push(old(self)@.last()).push(old(self)@[old(self)@.len() - 2]),
    {
        let first = self.pop()?;
        let maybe_second = self.pop();
        self.push(first);
        match maybe_second {
            Ok(second) => {
                self.push(second);
                assert(self@ =~= old(self)@.subrange(0, old(self)@.len() - 2).push(
                    old(self)@.last(),
                ).push(old(self)@[old(self)@.len() - 2]));
                Ok(())
            },
            Err(e) => {
                assert(self@ =~= old(self)@);
                Err(e)
            },
        }
    }

    /// Push this value onto the data stack.
    pub fn push(&mut self, value: Value)
        ensures
            final(self)@ == old(self)@.push(value),
    {
        self.0.push(value);
    }

    /// Pop a value from the data stack, returning it. If the stack is empty,
    /// return an error.
    pub fn pop(&mut self) -> (r: Result<Value, EditorError>)
        ensures
            old(self)@.len() == 0 ==> r == Err::<Value, EditorError>(EditorError::EmptyDataStack)
                && final(self)@ == old(self)@,
            old(self)@.len() > 0 ==> r == Ok::<Value, EditorError>(old(self)@.last()) && final(self)@ == old(self)@.drop_last(),
    {
        match self.0.pop() {
            Some(v) => Ok(v),
            None => Err(EditorError::EmptyDataStack),
        }
    }

    /// If there is a `Value::Int` on top of the stack, pop it and return it.
    /// Otherwise return an error, leaving the stack as it was.
    pub fn pop_int(&mut self) -> (r: Result<i32, EditorError>)
        ensures
            old(self)@.len() == 0 ==> r == Err::<i32, EditorError>(EditorError::EmptyDataStack)
                && final(self)@ == old(self)@,
            old(self)@.len() > 0 ==> match old(self)@.last() {
                Value::Int(n) => r == Ok::<i32, EditorError>(n) && final(self)@ == old(self)@.drop_last(),
                other => r matches Err(e) && is_mismatch(e, type_of(other), ValueType::Int)
                    && final(self)@ == old(self)@,
            },
    {
        match self.pop()? {
            Value::Int(num) => Ok(num),
            other => {
                let err = type_mismatch_error(&other, ValueType::Int);
                self.push(other);
                assert(self@ =~= old(self)@);
                Err(err)
            },
        }
    }

    /// If there is a `Value::String` on top of the stack, pop it and return it.
    /// Otherwise return an error, leaving the stack as it was.
    pub fn pop_string(&mut self) -> (r: Result<String, EditorError>)
        ensures
            old(self)@.len() == 0 ==> r == Err::<String, EditorError>(EditorError::EmptyDataStack)
                && final(self)@ == old(self)@,
            old(self)@.len() > 0 ==> match old(self)@.last() {
                Value::String(s) => r == Ok::<String, EditorError>(s) && final(self)@ == old(self)@.drop_last(),
                other => r matches Err(e) && is_mismatch(e, type_of(other), ValueType::String)
                    && final(self)@ == old(self)@,
            },
    {
        match self.pop()? {
            Value::String(s) => Ok(s),
            other => {
                let err = type_mismatch_error(&other, ValueType::String);
                self.push(other);
                assert(self@ =~= old(self)@);
                Err(err)
            },
        }
    }

    /// If there is a `Value::Quote` on top of the stack, pop it and return it.
    /// Otherwise return an error, leaving the stack as it was.
    pub fn pop_quote(&mut self) -> (r: Result<Prog, EditorError>)
        ensures
            old(self)@.len() == 0 ==> r == Err::<Prog, EditorError>(EditorError::EmptyDataStack)
                && final(self)@ == old(self)@,
            old(self)@.len() > 0 ==> match old(self)@.last() {
                Value::Quote(p) => r == Ok::<Prog, EditorError>(p) && final(self)@ == old(self)@.drop_last(),
                other => r matches Err(e) && is_mismatch(e, type_of(other), ValueType::Quote)
                    && final(self)@ == old(self)@,
            },
    {
        match self.pop()? {
            Value::Quote(prog) => Ok(prog),
            other => {
                let err = type_mismatch_error(&other, ValueType::Quote);
                self.push(other);
                assert(self@ =~= old(self)@);
                Err(err)
            },
        }
    }
}

/// The error for finding `actual` where a value of type `expected` was needed.
pub fn type_mismatch_error(actual: &Value, expected: ValueType) -> (e: EditorError)
    ensures
        is_mismatch(e, type_of(*actual), expected),
{
    EditorError::TypeMismatch {
        actual: actual.get_type().to_string(),
        expected: expected.to_string(),
    }
}

// Laws

/// A program built from `ops` and pushed on the call stack runs its ops in
/// order, from index 0, before anything that was pending already.
pub proof fn lemma_new_prog_runs_in_order(ops: Seq<Op>, stack: Seq<Prog>, p: Prog)
    requires
        p@ == ops.reverse(),
    ensures
        pending(stack.push(p)) == ops + pending(stack),
{
    assert(stack.push(p).drop_last() =~= stack);
    assert(ops.reverse().reverse() =~= ops);
}

/// Swapping the top two values twice leaves the data stack as it was.
pub proof fn lemma_swap_twice(s: Seq<Value>)
    requires
        s.len() >= 2,
    ensures
        ({
            let once = s.subrange(0, s.len() - 2).push(s.last()).push(s[s.len() - 2]);
            once.subrange(0, once.len() - 2).push(once.last()).push(once[once.len() - 2]) == s
        }),
{
    let once = s.subrange(0, s.len() - 2).push(s.last()).push(s[s.len() - 2]);
    assert(once.subrange(0, once.len() - 2).push(once.last()).push(once[once.len() - 2]) =~= s);
}

} // verus!
