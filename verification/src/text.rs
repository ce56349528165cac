//! The text held by a texty node, edited by character index.

use vstd::prelude::*;
use vstd::string::*;
use crate::strings::string_push;

verus! {

/// The text of a texty node.
#[derive(Clone, Debug)]
pub struct Text(String);

impl View for Text {
    type V = Seq<char>;

    closed spec fn view(&self) -> Seq<char> {
        self.0@
    }
}

impl Text {
    /// An empty text.
    pub fn new() -> (t: Text)
        ensures
            t@ == Seq::<char>::empty(),
    {
        Text(String::new())
    }

    /// The whole text.
    pub fn as_str(&self) -> (s: &str)
        ensures
            s@ == self@,
    {
        self.0.as_str()
    }

    /// The text split in two at the given character index.
    ///
    /// The index must be at most the number of characters.
    pub fn as_split_str(&self, char_index: usize) -> (r: (&str, &str))
        requires
            char_index <= self@.len(),
        ensures
            r.0@ == self@.subrange(0, char_index as int),
            r.1@ == self@.subrange(char_index as int, self@.len() as int),
    {
        let s = self.0.as_str();
        let n = s.unicode_len();
        (s.substring_char(0, char_index), s.substring_char(char_index, n))
    }

    /// Return the length of the text in characters.
    pub fn num_chars(&self) -> (n: usize)
        ensures
            n == self@.len(),
    {
        self.0.as_str().unicode_len()
    }

    /// Insert a new character at the given index.
    ///
    /// The index must be at most the number of characters.
    pub fn insert(&mut self, char_index: usize, character: char)
        requires
            char_index <= old(self)@.len(),
        ensures
            final(self)@ == old(self)@.insert(char_index as int, character),
    {
        let s = self.0.as_str();
        let n = s.unicode_len();
        let mut out = String::from_str(s.substring_char(0, char_index));
        string_push(&mut out, character);
        out.append(s.substring_char(char_index, n));
        assert(out@ =~= old(self)@.insert(char_index as int, character));
        self.0 = out;
    }

    /// Remove and return the character at the given index.
    ///
    /// The index must be less than the number of characters.
    pub fn delete(&mut self, char_index: usize) -> (c: char)
        requires
            char_index < old(self)@.len(),
        ensures
            c == old(self)@[char_index as int],
            final(self)@ == old(self)@.remove(char_index as int),
    {
        let s = self.0.as_str();
        let n = s.unicode_len();
        let c = s.get_char(char_index);
        let mut out = String::from_str(s.substring_char(0, char_index));
        out.append(s.substring_char(char_index + 1, n));
        assert(out@ =~= old(self)@.remove(char_index as int));
        self.0 = out;
        c
    }

    /// Set the text to the given string, replacing the current contents.
    pub fn set(&mut self, s: String)
        ensures
            final(self)@ == s@,
    {
        self.0 = s;
    }
}

impl Default for Text {
    fn default() -> (t: Text)
        ensures
            t@ == Seq::<char>::empty(),
    {
        Text::new()
    }
}

// Laws

/// Deleting the character just inserted gives back the text as it was.
pub proof fn lemma_insert_then_delete(t: Seq<char>, i: int, c: char)
    requires
        0 <= i <= t.len(),
    ensures
        t.insert(i, c)[i] == c,
        t.insert(i, c).remove(i) == t,
{
    assert(t.insert(i, c).remove(i) =~= t);
}

/// Inserting a character adds one to the length; deleting one removes one.
pub proof fn lemma_edit_lengths(t: Seq<char>, i: int, c: char)
    requires
        0 <= i <= t.len(),
    ensures
        t.insert(i, c).len() == t.len() + 1,
        i < t.len() ==> t.remove(i).len() == t.len() - 1,
{
}

} // verus!
