//! The error scripts see: a message built from an error and its chain of causes.

use vstd::prelude::*;
use vstd::string::*;
use crate::strings::push_str;

verus! {

/// An error reported to a script.
#[derive(Debug, Clone)]
pub struct SynlessError {
    pub is_fatal_to_script: bool,
    pub short_message: String,
    pub long_message: String,
}

/// The messages from index `i` on, each after `": "`.
pub open spec fn joined_causes(messages: Seq<Seq<char>>, i: int) -> Seq<char>
    decreases messages.len() - i,
{
    if i >= messages.len() {
        Seq::empty()
    } else {
        ": "@ + messages[i] + joined_causes(messages, i + 1)
    }
}

/// The full message: the prefix, then the error's message and each of its
/// causes' messages, separated by `": "`.
pub open spec fn long_text(prefix: Seq<char>, messages: Seq<Seq<char>>) -> Seq<char> {
    prefix + joined_causes(messages, 0)
}

impl SynlessError {
    /// An error with `message_prefix`, for an error whose message and whose
    /// causes' messages (innermost last) are `messages`. The short message is
    /// the innermost cause's.
    pub fn new(message_prefix: &str, messages: Vec<String>, is_fatal: bool) -> (e: SynlessError)
        requires
            messages@.len() > 0,
        ensures
            e.is_fatal_to_script == is_fatal,
            e.long_message@ == long_text(message_prefix@, messages@.map_values(|m: String| m@)),
            e.short_message@ == messages@.last()@,
    {
        let ghost ms = messages@.map_values(|m: String| m@);
        let mut long_message = String::new();
        push_str(&mut long_message, message_prefix);
        let mut i: usize = 0;
        while i < messages.len()
            invariant
                ms == messages@.map_values(|m: String| m@),
                i <= messages@.len(),
                long_message@ + joined_causes(ms, i as int) == long_text(message_prefix@, ms),
            decreases messages@.len() - i,
        {
            let ghost before = long_message@;
            push_str(&mut long_message, ": ");
            push_str(&mut long_message, messages[i].as_str());
            assert(long_message@ + joined_causes(ms, i + 1) =~= before + joined_causes(ms, i as int));
            i = i + 1;
        }
        assert(joined_causes(ms, i as int) =~= Seq::<char>::empty());
        let short_message = messages[messages.len() - 1].clone();
        SynlessError { is_fatal_to_script: is_fatal, short_message, long_message }
    }

    /// An error that stops the script.
    pub fn new_fatal(message_prefix: &str, messages: Vec<String>) -> (e: SynlessError)
        requires
            messages@.len() > 0,
        ensures
            e.is_fatal_to_script,
            e.long_message@ == long_text(message_prefix@, messages@.map_values(|m: String| m@)),
            e.short_message@ == messages@.last()@,
    {
        SynlessError::new(message_prefix, messages, true)
    }

    /// An error that the script may recover from.
    pub fn new_non_fatal(message_prefix: &str, messages: Vec<String>) -> (e: SynlessError)
        requires
            messages@.len() > 0,
        ensures
            !e.is_fatal_to_script,
            e.long_message@ == long_text(message_prefix@, messages@.map_values(|m: String| m@)),
            e.short_message@ == messages@.last()@,
    {
        SynlessError::new(message_prefix, messages, false)
    }

    /// The error as shown: its long message.
    pub fn to_string(&self) -> (s: String)
        ensures
            s@ == self.long_message@,
    {
        self.long_message.clone()
    }
}

} // verus!
