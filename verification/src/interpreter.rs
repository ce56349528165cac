//! Runs programs on the stack machine.

use vstd::prelude::*;
use crate::stack::{pending, CallStack, DataStack, EditorError, Op, Prog};

verus! {

/// A stack machine: the programs still running, and the values they work on.
pub struct Interpreter {
    pub call_stack: CallStack,
    pub data_stack: DataStack,
}

/// The ops that will run when `prog` is started on top of `stack`.
pub open spec fn run_order(prog: Prog, stack: Seq<Prog>) -> Seq<Op> {
    prog@.reverse() + pending(stack)
}

impl Interpreter {
    /// A machine with nothing to run and nothing on its data stack.
    pub fn new() -> (i: Interpreter)
        ensures
            i.call_stack@ == Seq::<Prog>::empty(),
            i.data_stack@.len() == 0,
    {
        Interpreter { call_stack: CallStack::new(), data_stack: DataStack::new() }
    }

    /// Execute the program. Returns `Ok(true)` if it halted from a `Block` op,
    /// and `Ok(false)` if it halted from hitting the end of the program.
    ///
    /// Only `Block` can be run so far (the other ops have no behaviour yet), so
    /// the next op to run must be `Block`, or there must be none.
    pub fn execute(&mut self, prog: Prog) -> (r: Result<bool, EditorError>)
        requires
            run_order(prog, old(self).call_stack@).len() > 0 ==> run_order(
                prog,
                old(self).call_stack@,
            )[0] == Op::Block,
        ensures
            run_order(prog, old(self).call_stack@).len() == 0 ==> r == Ok::<bool, EditorError>(
                false,
            ),
            run_order(prog, old(self).call_stack@).len() > 0 ==> r == Ok::<bool, EditorError>(true)
                && pending(final(self).call_stack@) == run_order(
                prog,
                old(self).call_stack@,
            ).drop_first(),
            final(self).data_stack@ == old(self).data_stack@,
    {
        self.call_stack.push(prog);
        match self.call_stack.pop() {
            Some(op) => {
                match op {
                    Op::Block => Ok(true),
                    _ => {
                        assert(false);
                        Ok(false)
                    },
                }
            },
            None => Ok(false),
        }
    }
}

} // verus!
