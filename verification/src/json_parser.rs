//! A JSON reader that keeps what an editor needs: object keys in order and
//! duplicates kept, and numbers as the text they were written as.

use vstd::prelude::*;
use vstd::string::*;
use crate::json_tokenizer::{
    lemma_next_token_advances, next_token, pos_count, pos_fits, error_at, token_error_text,
    utf8_len_of, Token, TokenV, TokenError, Tokenizer,
};
use crate::coord::{Col, Row};
use crate::strings::str_chars;
use crate::parse_error::ParseError;

verus! {

/// A JSON value.
#[derive(Debug, PartialEq, Eq)]
pub enum Json {
    Null,
    True,
    False,
    Number(String),
    String(String),
    Array(Vec<Json>),
    Object(Vec<(String, Json)>),
}

/// A JSON value, as the specification speaks of it.
pub enum JsonV {
    Null,
    True,
    False,
    Number(Seq<char>),
    String(Seq<char>),
    Array(Seq<JsonV>),
    Object(Seq<(Seq<char>, JsonV)>),
}

/// The specification value of a JSON value.
pub open spec fn json_view(j: Json) -> JsonV
    decreases j,
{
    match j {
        Json::Null => JsonV::Null,
        Json::True => JsonV::True,
        Json::False => JsonV::False,
        Json::Number(s) => JsonV::Number(s@),
        Json::String(s) => JsonV::String(s@),
        Json::Array(v) => JsonV::Array(
            Seq::new(v@.len(), |i: int| if 0 <= i < v@.len() { json_view(v@[i]) } else { JsonV::Null }),
        ),
        Json::Object(v) => JsonV::Object(
            Seq::new(
                v@.len(),
                |i: int| if 0 <= i < v@.len() { (v@[i].0@, json_view(v@[i].1)) } else { (Seq::empty(), JsonV::Null) },
            ),
        ),
    }
}

} // verus!

verus! {

/// What can be wrong with the structure of JSON text, once it has been split
/// into tokens.
#[derive(Debug, Clone, Copy, PartialEq, Eq, Structural)]
pub enum JsonError {
    ExpectedValueFoundComma,
    ExpectedValueFoundColon,
    ExpectedValueFoundEndArray,
    ExpectedValueFoundEndObject,
    ExpectedArrayComma,
    UnclosedArray,
    ExpectedObjectComma,
    ExpectedObjectColon,
    IncompletePair,
    NotAKey,
    UnclosedObject,
    TrailingComma,
    EmptyFile,
    ExtraToken,
}

/// The message and label each structural error is reported with.
pub open spec fn json_error_text(e: JsonError) -> (Seq<char>, Seq<char>) {
    match e {
        JsonError::ExpectedValueFoundComma => ("Expected JSON value, found ','."@, "unexpected"@),
        JsonError::ExpectedValueFoundColon => ("Expected JSON value, found ':'."@, "unexpected"@),
        JsonError::ExpectedValueFoundEndArray => (
            "Extra ']' does not match any opening '['."@,
            "unmatched"@,
        ),
        JsonError::ExpectedValueFoundEndObject => (
            "Extra '}' does not match any opening '{'."@,
            "unmatched"@,
        ),
        JsonError::ExpectedArrayComma => (
            "Array elements must be separated by commas."@,
            "expected ',' or ']'"@,
        ),
        JsonError::UnclosedArray => ("Array not closed."@, "expected ']'."@),
        JsonError::ExpectedObjectComma => (
            "Object elements must be separated by commas."@,
            "expected ',' or '}'"@,
        ),
        JsonError::ExpectedObjectColon => ("Object keys must be followed by ':'."@, "expected ':'"@),
        JsonError::IncompletePair => ("Missing value after object key."@, "expected JSON value"@),
        JsonError::NotAKey => ("Object key must be a string."@, "expected string"@),
        JsonError::UnclosedObject => ("Object not closed."@, "expected '}'"@),
        JsonError::TrailingComma => (
            "Trailing commas aren't allowed in JSON."@,
            "trailing comma"@,
        ),
        JsonError::EmptyFile => ("File is empty."@, "expected JSON value"@),
        JsonError::ExtraToken => ("Expected end of file, found extra token."@, "unexpected"@),
    }
}

impl JsonError {
    /// The message and label this error is reported with.
    pub fn message_and_label(&self) -> (r: (&'static str, &'static str))
        ensures
            r.0@ == json_error_text(*self).0,
            r.1@ == json_error_text(*self).1,
    {
        match self {
            JsonError::ExpectedValueFoundComma => ("Expected JSON value, found ','.", "unexpected"),
            JsonError::ExpectedValueFoundColon => ("Expected JSON value, found ':'.", "unexpected"),
            JsonError::ExpectedValueFoundEndArray => (
                "Extra ']' does not match any opening '['.",
                "unmatched",
            ),
            JsonError::ExpectedValueFoundEndObject => (
                "Extra '}' does not match any opening '{'.",
                "unmatched",
            ),
            JsonError::ExpectedArrayComma => (
                "Array elements must be separated by commas.",
                "expected ',' or ']'",
            ),
            JsonError::UnclosedArray => ("Array not closed.", "expected ']'."),
            JsonError::ExpectedObjectComma => (
                "Object elements must be separated by commas.",
                "expected ',' or '}'",
            ),
            JsonError::ExpectedObjectColon => ("Object keys must be followed by ':'.", "expected ':'"),
            JsonError::IncompletePair => ("Missing value after object key.", "expected JSON value"),
            JsonError::NotAKey => ("Object key must be a string.", "expected string"),
            JsonError::UnclosedObject => ("Object not closed.", "expected '}'"),
            JsonError::TrailingComma => ("Trailing commas aren't allowed in JSON.", "trailing comma"),
            JsonError::EmptyFile => ("File is empty.", "expected JSON value"),
            JsonError::ExtraToken => ("Expected end of file, found extra token.", "unexpected"),
        }
    }
}

/// Why reading JSON text failed, with the offset the tokenizer had reached.
pub enum ParseFail {
    Token(TokenError, nat),
    Syntax(JsonError, nat),
}

pub open spec fn fail_offset(f: ParseFail) -> nat {
    match f {
        ParseFail::Token(_, o) => o,
        ParseFail::Syntax(_, o) => o,
    }
}

/// The message and label a failure is reported with.
pub open spec fn fail_text(f: ParseFail) -> (Seq<char>, Seq<char>) {
    match f {
        ParseFail::Token(k, _) => token_error_text(k),
        ParseFail::Syntax(e, _) => json_error_text(e),
    }
}

/// Reading went forward from `from` to `to`, within the text.
pub open spec fn moved(s: Seq<char>, from: nat, to: nat) -> bool {
    from < to && to <= s.len()
}

// The grammar, over the token stream of `s`. Each function takes the offset
// the tokenizer stands at, and gives what was read with the offset reached.
// The `moved` guards always hold (reading a token moves forward, see
// `lemma_reading_moves`); they only make termination plain.

/// Reading a value whose first token `t` has just been read.
pub open spec fn value_from(s: Seq<char>, t: TokenV, off: nat) -> Result<(JsonV, nat), ParseFail>
    decreases s.len() - off,
{
    match t {
        TokenV::Null => Ok((JsonV::Null, off)),
        TokenV::True => Ok((JsonV::True, off)),
        TokenV::False => Ok((JsonV::False, off)),
        TokenV::Number(n) => Ok((JsonV::Number(n), off)),
        TokenV::PlainString(x) => Ok((JsonV::String(x), off)),
        TokenV::EscapedString(x) => Ok((JsonV::String(x), off)),
        TokenV::StartArray => {
            let (n, o) = next_token(s, off);
            match n {
                None => Err(ParseFail::Syntax(JsonError::UnclosedArray, o)),
                Some(Err(k)) => Err(ParseFail::Token(k, o)),
                Some(Ok(TokenV::EndArray)) => Ok((JsonV::Array(Seq::empty()), o)),
                Some(Ok(t1)) => if moved(s, off, o) {
                    match value_from(s, t1, o) {
                        Err(f) => Err(f),
                        Ok((v, o1)) => if moved(s, off, o1) {
                            array_rest(s, seq![v], o1)
                        } else {
                            Err(ParseFail::Syntax(JsonError::UnclosedArray, o1))
                        },
                    }
                } else {
                    Err(ParseFail::Syntax(JsonError::UnclosedArray, o))
                },
            }
        },
        TokenV::StartObject => {
            let (n, o) = next_token(s, off);
            match n {
                None => Err(ParseFail::Syntax(JsonError::UnclosedObject, o)),
                Some(Err(k)) => Err(ParseFail::Token(k, o)),
                Some(Ok(TokenV::EndObject)) => Ok((JsonV::Object(Seq::empty()), o)),
                Some(Ok(t1)) => if moved(s, off, o) {
                    match pair_from(s, t1, o) {
                        Err(f) => Err(f),
                        Ok((p, o1)) => if moved(s, off, o1) {
                            object_rest(s, seq![p], o1)
                        } else {
                            Err(ParseFail::Syntax(JsonError::UnclosedObject, o1))
                        },
                    }
                } else {
                    Err(ParseFail::Syntax(JsonError::UnclosedObject, o))
                },
            }
        },
        TokenV::Comma => Err(ParseFail::Syntax(JsonError::ExpectedValueFoundComma, off)),
        TokenV::Colon => Err(ParseFail::Syntax(JsonError::ExpectedValueFoundColon, off)),
        TokenV::EndArray => Err(ParseFail::Syntax(JsonError::ExpectedValueFoundEndArray, off)),
        TokenV::EndObject => Err(ParseFail::Syntax(JsonError::ExpectedValueFoundEndObject, off)),
    }
}

/// Reading the rest of an array after its elements `acc`.
pub open spec fn array_rest(s: Seq<char>, acc: Seq<JsonV>, off: nat) -> Result<(JsonV, nat), ParseFail>
    decreases s.len() - off,
{
    let (n, o) = next_token(s, off);
    match n {
        None => Err(ParseFail::Syntax(JsonError::UnclosedArray, o)),
        Some(Err(k)) => Err(ParseFail::Token(k, o)),
        Some(Ok(TokenV::EndArray)) => Ok((JsonV::Array(acc), o)),
        Some(Ok(TokenV::Comma)) => {
            let (n2, o2) = next_token(s, o);
            match n2 {
                None => Err(ParseFail::Syntax(JsonError::UnclosedArray, o2)),
                Some(Err(k)) => Err(ParseFail::Token(k, o2)),
                Some(Ok(TokenV::EndArray)) => Err(ParseFail::Syntax(JsonError::TrailingComma, o2)),
                Some(Ok(t2)) => if moved(s, off, o2) {
                    match value_from(s, t2, o2) {
                        Err(f) => Err(f),
                        Ok((v, o3)) => if moved(s, off, o3) {
                            array_rest(s, acc.push(v), o3)
                        } else {
                            Err(ParseFail::Syntax(JsonError::UnclosedArray, o3))
                        },
                    }
                } else {
                    Err(ParseFail::Syntax(JsonError::UnclosedArray, o2))
                },
            }
        },
        Some(Ok(_)) => Err(ParseFail::Syntax(JsonError::ExpectedArrayComma, o)),
    }
}

/// Reading a `key : value` pair whose first token `t` has just been read.
pub open spec fn pair_from(s: Seq<char>, t: TokenV, off: nat) -> Result<((Seq<char>, JsonV), nat), ParseFail>
    decreases s.len() - off,
{
    let key = match t {
        TokenV::PlainString(k) => Some(k),
        TokenV::EscapedString(k) => Some(k),
        _ => None,
    };
    match key {
        None => Err(ParseFail::Syntax(JsonError::NotAKey, off)),
        Some(k) => {
            let (n, o) = next_token(s, off);
            match n {
                None => Err(ParseFail::Syntax(JsonError::ExpectedObjectColon, o)),
                Some(Err(e)) => Err(ParseFail::Token(e, o)),
                Some(Ok(TokenV::Colon)) => {
                    let (n2, o2) = next_token(s, o);
                    match n2 {
                        None => Err(ParseFail::Syntax(JsonError::IncompletePair, o2)),
                        Some(Err(e)) => Err(ParseFail::Token(e, o2)),
                        Some(Ok(t2)) => if moved(s, off, o2) {
                            match value_from(s, t2, o2) {
                                Err(f) => Err(f),
                                Ok((v, o3)) => Ok(((k, v), o3)),
                            }
                        } else {
                            Err(ParseFail::Syntax(JsonError::IncompletePair, o2))
                        },
                    }
                },
                Some(Ok(_)) => Err(ParseFail::Syntax(JsonError::ExpectedObjectColon, o)),
            }
        },
    }
}

/// A string with escapes serves as an object key, as a string without them
/// does: reading a pair that starts with either gives the same result, and a
/// pair that is read has the string's text as its key. (Likewise for values.)
pub proof fn lemma_string_keys(s: Seq<char>, k: Seq<char>, off: nat)
    ensures
        pair_from(s, TokenV::EscapedString(k), off) == pair_from(s, TokenV::PlainString(k), off),
        pair_from(s, TokenV::PlainString(k), off) matches Ok(((key, _), _)) ==> key == k,
        value_from(s, TokenV::EscapedString(k), off) == value_from(s, TokenV::PlainString(k), off),
        value_from(s, TokenV::PlainString(k), off) == Ok::<(JsonV, nat), ParseFail>((JsonV::String(k), off)),
{
}

/// Reading the rest of an object after its pairs `acc`.
pub open spec fn object_rest(s: Seq<char>, acc: Seq<(Seq<char>, JsonV)>, off: nat) -> Result<
    (JsonV, nat),
    ParseFail,
>
    decreases s.len() - off,
{
    let (n, o) = next_token(s, off);
    match n {
        None => Err(ParseFail::Syntax(JsonError::UnclosedObject, o)),
        Some(Err(k)) => Err(ParseFail::Token(k, o)),
        Some(Ok(TokenV::EndObject)) => Ok((JsonV::Object(acc), o)),
        Some(Ok(TokenV::Comma)) => {
            let (n2, o2) = next_token(s, o);
            match n2 {
                None => Err(ParseFail::Syntax(JsonError::UnclosedObject, o2)),
                Some(Err(k)) => Err(ParseFail::Token(k, o2)),
                Some(Ok(TokenV::EndObject)) => Err(ParseFail::Syntax(JsonError::TrailingComma, o2)),
                Some(Ok(t2)) => if moved(s, off, o2) {
                    match pair_from(s, t2, o2) {
                        Err(f) => Err(f),
                        Ok((p, o3)) => if moved(s, off, o3) {
                            object_rest(s, acc.push(p), o3)
                        } else {
                            Err(ParseFail::Syntax(JsonError::UnclosedObject, o3))
                        },
                    }
                } else {
                    Err(ParseFail::Syntax(JsonError::UnclosedObject, o2))
                },
            }
        },
        Some(Ok(_)) => Err(ParseFail::Syntax(JsonError::ExpectedObjectComma, o)),
    }
}

/// Reading a whole document from offset `off`: one value, then the end of the text.
pub open spec fn doc_from(s: Seq<char>, off: nat) -> Result<JsonV, ParseFail> {
    let (n, o) = next_token(s, off);
    match n {
        None => Err(ParseFail::Syntax(JsonError::EmptyFile, o)),
        Some(Err(k)) => Err(ParseFail::Token(k, o)),
        Some(Ok(t)) => match value_from(s, t, o) {
            Err(f) => Err(f),
            Ok((v, o1)) => {
                let (n2, o2) = next_token(s, o1);
                match n2 {
                    None => Ok(v),
                    Some(Err(k)) => Err(ParseFail::Token(k, o2)),
                    Some(Ok(_)) => Err(ParseFail::Syntax(JsonError::ExtraToken, o2)),
                }
            },
        },
    }
}

/// The JSON text `s` read as a whole.
pub open spec fn json_of(s: Seq<char>) -> Result<JsonV, ParseFail> {
    doc_from(s, 0)
}

/// A failure, if there is one, is at a position that can be counted.
pub open spec fn fails_within<T>(s: Seq<char>, r: Result<T, ParseFail>) -> bool {
    r matches Err(f) ==> pos_fits(s, fail_offset(f))
}

/// `e` is how the failure `f` is reported, for the file `file` with text `s`.
pub open spec fn reports(e: ParseError, file: Seq<char>, s: Seq<char>, f: ParseFail) -> bool {
    error_at(e, file, s, fail_offset(f), fail_text(f).0, fail_text(f).1)
}

/// Reading a value, or the rest of an array or object, stays within the text
/// and never moves back; so the `moved` guards of the grammar always hold.
#[verifier::spinoff_prover]
#[verifier::rlimit(40)]
pub proof fn lemma_reading_moves(s: Seq<char>, t: TokenV, off: nat)
    requires
        off <= s.len(),
    ensures
        value_from(s, t, off) matches Ok((_, o)) ==> off <= o <= s.len(),
        pair_from(s, t, off) matches Ok((_, o)) ==> off < o <= s.len(),
        value_from(s, t, off) matches Err(f) ==> fail_offset(f) <= s.len(),
        pair_from(s, t, off) matches Err(f) ==> fail_offset(f) <= s.len(),
    decreases s.len() - off, 1nat,
{
    lemma_next_token_advances(s, off);
    let (n, o) = next_token(s, off);
    if o <= s.len() {
        lemma_next_token_advances(s, o);
    }
    match n {
        Some(Ok(t1)) => {
            if moved(s, off, o) {
                lemma_reading_moves(s, t1, o);
                match t {
                    TokenV::StartArray => match value_from(s, t1, o) {
                        Ok((v, o1)) => if moved(s, off, o1) {
                            lemma_rest_moves(s, seq![v], seq![], o1);
                        },
                        Err(_) => {},
                    },
                    TokenV::StartObject => match pair_from(s, t1, o) {
                        Ok((p, o1)) => if moved(s, off, o1) {
                            lemma_rest_moves(s, seq![], seq![p], o1);
                        },
                        Err(_) => {},
                    },
                    _ => {},
                }
            }
            let (n2, o2) = next_token(s, o);
            match n2 {
                Some(Ok(t2)) => if moved(s, off, o2) {
                    lemma_reading_moves(s, t2, o2);
                },
                _ => {},
            }
        },
        _ => {},
    }
}

/// Reading the rest of an array or object moves forward, within the text.
pub proof fn lemma_rest_moves(
    s: Seq<char>,
    elems: Seq<JsonV>,
    pairs: Seq<(Seq<char>, JsonV)>,
    off: nat,
)
    requires
        off <= s.len(),
    ensures
        array_rest(s, elems, off) matches Ok((_, o)) ==> off < o <= s.len(),
        object_rest(s, pairs, off) matches Ok((_, o)) ==> off < o <= s.len(),
        array_rest(s, elems, off) matches Err(f) ==> fail_offset(f) <= s.len(),
        object_rest(s, pairs, off) matches Err(f) ==> fail_offset(f) <= s.len(),
    decreases s.len() - off, 0nat,
{
    lemma_next_token_advances(s, off);
    let (n, o) = next_token(s, off);
    match n {
        Some(Ok(TokenV::Comma)) => {
            lemma_next_token_advances(s, o);
            let (n2, o2) = next_token(s, o);
            match n2 {
                Some(Ok(t2)) => if moved(s, off, o2) {
                    lemma_reading_moves(s, t2, o2);
                    match value_from(s, t2, o2) {
                        Ok((v, o3)) => if moved(s, off, o3) {
                            lemma_rest_moves(s, elems.push(v), pairs, o3);
                        },
                        Err(_) => {},
                    }
                    match pair_from(s, t2, o2) {
                        Ok((p, o3)) => if moved(s, off, o3) {
                            lemma_rest_moves(s, elems, pairs.push(p), o3);
                        },
                        Err(_) => {},
                    }
                },
                _ => {},
            }
        },
        _ => {},
    }
}

pub open spec fn jsons_view(a: Seq<Json>) -> Seq<JsonV> {
    Seq::new(a.len(), |i: int| json_view(a[i]))
}

pub open spec fn pairs_view(a: Seq<(String, Json)>) -> Seq<(Seq<char>, JsonV)> {
    Seq::new(a.len(), |i: int| (a[i].0@, json_view(a[i].1)))
}

} // verus!

verus! {

/// Builds a `Json` value from the tokens of a source text.
pub struct JsonBuilder<'j> {
    pub tokens: Tokenizer<'j>,
}

impl<'j> JsonBuilder<'j> {
    /// The text being read.
    pub open spec fn text(self) -> Seq<char> {
        self.tokens.text()
    }

    /// The offset reached.
    pub open spec fn at(self) -> nat {
        self.tokens.at()
    }

    /// The structural error `error`, at the current position.
    pub fn error(&self, error: JsonError) -> (e: ParseError)
        requires
            pos_fits(self.text(), self.at()),
        ensures
            error_at(
                e,
                self.tokens.file(),
                self.text(),
                self.at(),
                json_error_text(error).0,
                json_error_text(error).1,
            ),
    {
        let (message, label) = error.message_and_label();
        self.tokens.error(message, label)
    }

    /// Read a value whose first token, `token`, has just been read.
    pub fn parse_value(&mut self, token: Token<'j>) -> (r: Result<Json, ParseError>)
        requires
            old(self).at() <= old(self).text().len(),
            fails_within(old(self).text(), value_from(old(self).text(), token@, old(self).at())),
        ensures
            final(self).text() == old(self).text(),
            final(self).tokens.file() == old(self).tokens.file(),
            old(self).at() <= final(self).at() <= final(self).text().len(),
            match value_from(old(self).text(), token@, old(self).at()) {
                Ok((v, o)) => r matches Ok(j) && json_view(j) == v && final(self).at() == o,
                Err(f) => r matches Err(e) && reports(e, old(self).tokens.file(), old(self).text(), f),
            },
        decreases old(self).text().len() - old(self).at(), 1nat,
    {
        let ghost s = self.text();
        let ghost off = self.at();
        match token {
            Token::Null => Ok(Json::Null),
            Token::True => Ok(Json::True),
            Token::False => Ok(Json::False),
            Token::Number(n) => Ok(Json::Number(String::from_str(n))),
            Token::PlainString(x) => Ok(Json::String(String::from_str(x))),
            Token::EscapedString(x) => Ok(Json::String(x)),
            Token::StartArray => self.parse_array(),
            Token::StartObject => self.parse_object(),
            Token::Comma => Err(self.error(JsonError::ExpectedValueFoundComma)),
            Token::Colon => Err(self.error(JsonError::ExpectedValueFoundColon)),
            Token::EndArray => Err(self.error(JsonError::ExpectedValueFoundEndArray)),
            Token::EndObject => Err(self.error(JsonError::ExpectedValueFoundEndObject)),
        }
    }

    /// Read the rest of an array whose `[` has just been read.
    fn parse_array(&mut self) -> (r: Result<Json, ParseError>)
        requires
            old(self).at() <= old(self).text().len(),
            fails_within(old(self).text(), value_from(old(self).text(), TokenV::StartArray, old(self).at())),
        ensures
            final(self).text() == old(self).text(),
            final(self).tokens.file() == old(self).tokens.file(),
            old(self).at() <= final(self).at() <= final(self).text().len(),
            match value_from(old(self).text(), TokenV::StartArray, old(self).at()) {
                Ok((v, o)) => r matches Ok(j) && json_view(j) == v && final(self).at() == o,
                Err(f) => r matches Err(e) && reports(e, old(self).tokens.file(), old(self).text(), f),
            },
        decreases old(self).text().len() - old(self).at(), 0nat,
    {
        let ghost s = self.text();
        let ghost file = self.tokens.file();
        let ghost off = self.at();
        proof {
            lemma_next_token_advances(s, off);
        }
        let mut array: Vec<Json> = Vec::new();
        let first = match self.tokens.next() {
            None => return Err(self.error(JsonError::UnclosedArray)),
            Some(Err(e)) => return Err(e),
            Some(Ok(t)) => t,
        };
        if matches!(first, Token::EndArray) {
            assert(json_view(Json::Array(array))->Array_0 =~= Seq::<JsonV>::empty());
            return Ok(Json::Array(array));
        }
        let elem = match self.parse_value(first) {
            Err(e) => return Err(e),
            Ok(j) => j,
        };
        array.push(elem);
        assert(jsons_view(array@) =~= seq![json_view(elem)]);
        loop
            invariant
                s == old(self).text(),
                file == old(self).tokens.file(),
                off == old(self).at(),
                self.text() == s,
                self.tokens.file() == file,
                off < self.at() <= s.len(),
                value_from(s, TokenV::StartArray, off) == array_rest(s, jsons_view(array@), self.at()),
                fails_within(s, value_from(s, TokenV::StartArray, off)),
            decreases s.len() - self.at(),
        {
            let ghost here = self.at();
            let ghost acc = jsons_view(array@);
            proof {
                lemma_next_token_advances(s, here);
            }
            let token = match self.tokens.next() {
                None => return Err(self.error(JsonError::UnclosedArray)),
                Some(Err(e)) => return Err(e),
                Some(Ok(t)) => t,
            };
            if matches!(token, Token::EndArray) {
                assert(json_view(Json::Array(array)) == JsonV::Array(acc)) by {
                    assert(json_view(Json::Array(array))->Array_0 =~= acc);
                }
                return Ok(Json::Array(array));
            }
            if !matches!(token, Token::Comma) {
                return Err(self.error(JsonError::ExpectedArrayComma));
            }
            let ghost mid = self.at();
            proof {
                lemma_next_token_advances(s, mid);
            }
            let token = match self.tokens.next() {
                None => return Err(self.error(JsonError::UnclosedArray)),
                Some(Err(e)) => return Err(e),
                Some(Ok(t)) => t,
            };
            if matches!(token, Token::EndArray) {
                return Err(self.error(JsonError::TrailingComma));
            }
            let elem = match self.parse_value(token) {
                Err(e) => return Err(e),
                Ok(j) => j,
            };
            array.push(elem);
            assert(jsons_view(array@) =~= acc.push(json_view(elem)));
        }
    }

    /// Read the rest of an object whose `{` has just been read.
    fn parse_object(&mut self) -> (r: Result<Json, ParseError>)
        requires
            old(self).at() <= old(self).text().len(),
            fails_within(old(self).text(), value_from(old(self).text(), TokenV::StartObject, old(self).at())),
        ensures
            final(self).text() == old(self).text(),
            final(self).tokens.file() == old(self).tokens.file(),
            old(self).at() <= final(self).at() <= final(self).text().len(),
            match value_from(old(self).text(), TokenV::StartObject, old(self).at()) {
                Ok((v, o)) => r matches Ok(j) && json_view(j) == v && final(self).at() == o,
                Err(f) => r matches Err(e) && reports(e, old(self).tokens.file(), old(self).text(), f),
            },
        decreases old(self).text().len() - old(self).at(), 0nat,
    {
        let ghost s = self.text();
        let ghost file = self.tokens.file();
        let ghost off = self.at();
        proof {
            lemma_next_token_advances(s, off);
        }
        let mut object: Vec<(String, Json)> = Vec::new();
        let first = match self.tokens.next() {
            None => return Err(self.error(JsonError::UnclosedObject)),
            Some(Err(e)) => return Err(e),
            Some(Ok(t)) => t,
        };
        if matches!(first, Token::EndObject) {
            assert(json_view(Json::Object(object))->Object_0 =~= Seq::<(Seq<char>, JsonV)>::empty());
            return Ok(Json::Object(object));
        }
        let pair = match self.parse_key_value_pair(first) {
            Err(e) => return Err(e),
            Ok(p) => p,
        };
        object.push(pair);
        assert(pairs_view(object@) =~= seq![(pair.0@, json_view(pair.1))]);
        loop
            invariant
                s == old(self).text(),
                file == old(self).tokens.file(),
                off == old(self).at(),
                self.text() == s,
                self.tokens.file() == file,
                off < self.at() <= s.len(),
                value_from(s, TokenV::StartObject, off) == object_rest(s, pairs_view(object@), self.at()),
                fails_within(s, value_from(s, TokenV::StartObject, off)),
            decreases s.len() - self.at(),
        {
            let ghost here = self.at();
            let ghost acc = pairs_view(object@);
            proof {
                lemma_next_token_advances(s, here);
            }
            let token = match self.tokens.next() {
                None => return Err(self.error(JsonError::UnclosedObject)),
                Some(Err(e)) => return Err(e),
                Some(Ok(t)) => t,
            };
            if matches!(token, Token::EndObject) {
                assert(json_view(Json::Object(object)) == JsonV::Object(acc)) by {
                    assert(json_view(Json::Object(object))->Object_0 =~= acc);
                }
                return Ok(Json::Object(object));
            }
            if !matches!(token, Token::Comma) {
                return Err(self.error(JsonError::ExpectedObjectComma));
            }
            let ghost mid = self.at();
            proof {
                lemma_next_token_advances(s, mid);
            }
            let token = match self.tokens.next() {
                None => return Err(self.error(JsonError::UnclosedObject)),
                Some(Err(e)) => return Err(e),
                Some(Ok(t)) => t,
            };
            if matches!(token, Token::EndObject) {
                return Err(self.error(JsonError::TrailingComma));
            }
            let pair = match self.parse_key_value_pair(token) {
                Err(e) => return Err(e),
                Ok(p) => p,
            };
            object.push(pair);
            assert(pairs_view(object@) =~= acc.push((pair.0@, json_view(pair.1))));
        }
    }

    /// Read a `key : value` pair whose first token, `token`, has just been read.
    pub fn parse_key_value_pair(&mut self, token: Token<'j>) -> (r: Result<(String, Json), ParseError>)
        requires
            old(self).at() <= old(self).text().len(),
            fails_within(old(self).text(), pair_from(old(self).text(), token@, old(self).at())),
        ensures
            final(self).text() == old(self).text(),
            final(self).tokens.file() == old(self).tokens.file(),
            old(self).at() <= final(self).at() <= final(self).text().len(),
            match pair_from(old(self).text(), token@, old(self).at()) {
                Ok((p, o)) => r matches Ok(q) && q.0@ == p.0 && json_view(q.1) == p.1
                    && final(self).at() == o,
                Err(f) => r matches Err(e) && reports(e, old(self).tokens.file(), old(self).text(), f),
            },
        decreases old(self).text().len() - old(self).at(), 1nat,
    {
        let ghost s = self.text();
        let ghost off = self.at();
        let key: String = match token {
            Token::PlainString(k) => String::from_str(k),
            Token::EscapedString(k) => k,
            _ => return Err(self.error(JsonError::NotAKey)),
        };
        proof {
            lemma_next_token_advances(s, off);
        }
        match self.tokens.next() {
            None => Err(self.error(JsonError::ExpectedObjectColon)),
            Some(Err(e)) => Err(e),
            Some(Ok(t)) => if matches!(t, Token::Colon) {
                let ghost mid = self.at();
                proof {
                    lemma_next_token_advances(s, mid);
                }
                match self.tokens.next() {
                    None => Err(self.error(JsonError::IncompletePair)),
                    Some(Err(e)) => Err(e),
                    Some(Ok(t2)) => match self.parse_value(t2) {
                        Err(e) => Err(e),
                        Ok(v) => Ok((key, v)),
                    },
                }
            } else {
                Err(self.error(JsonError::ExpectedObjectColon))
            },
        }
    }

    /// Read one JSON value, and check that the text ends after it.
    pub fn parse(&mut self) -> (r: Result<Json, ParseError>)
        requires
            old(self).at() <= old(self).text().len(),
            fails_within(old(self).text(), doc_from(old(self).text(), old(self).at())),
        ensures
            match doc_from(old(self).text(), old(self).at()) {
                Ok(v) => r matches Ok(j) && json_view(j) == v,
                Err(f) => r matches Err(e) && reports(e, old(self).tokens.file(), old(self).text(), f),
            },
    {
        let ghost s = self.text();
        let ghost off = self.at();
        proof {
            lemma_next_token_advances(s, off);
        }
        let token = match self.tokens.next() {
            None => return Err(self.error(JsonError::EmptyFile)),
            Some(Err(e)) => return Err(e),
            Some(Ok(t)) => t,
        };
        let json = match self.parse_value(token) {
            Err(e) => return Err(e),
            Ok(j) => j,
        };
        let ghost end = self.at();
        proof {
            lemma_next_token_advances(s, end);
        }
        match self.tokens.next() {
            None => Ok(json),
            Some(Err(e)) => Err(e),
            Some(Ok(_)) => Err(self.error(JsonError::ExtraToken)),
        }
    }
}

} // verus!

verus! {

/// Read the JSON text `source`, from the file `file_name`, as one value.
/// Object keys keep their order and duplicates, and numbers keep their text.
pub fn parse_json(file_name: &str, source: &str) -> (r: Result<Json, ParseError>)
    requires
        fails_within(source@, json_of(source@)),
    ensures
        match json_of(source@) {
            Ok(v) => r matches Ok(j) && json_view(j) == v,
            Err(f) => r matches Err(e) && reports(e, file_name@, source@, f),
        },
{
    let tokens = Tokenizer::new(file_name, source);
    let mut builder = JsonBuilder { tokens };
    builder.parse()
}

/// Where reading `s` fails, it fails at an offset within `s`.
pub proof fn lemma_failure_within_text(s: Seq<char>)
    ensures
        json_of(s) matches Err(f) ==> fail_offset(f) <= s.len(),
{
    lemma_next_token_advances(s, 0);
    let (n, o) = next_token(s, 0);
    match n {
        Some(Ok(t)) => {
            lemma_reading_moves(s, t, o);
            match value_from(s, t, o) {
                Ok((_, o1)) => {
                    lemma_next_token_advances(s, o1);
                },
                Err(_) => {},
            }
        },
        _ => {},
    }
}

/// Whether every position in `source` can be counted in rows and columns;
/// when it can, `parse_json` may be given `source`.
pub fn positions_fit(source: &str) -> (b: bool)
    ensures
        b == pos_fits(source@, source@.len()),
        b ==> fails_within(source@, json_of(source@)),
{
    let chars = str_chars(source);
    let mut row: u64 = 0;
    let mut col: u64 = 0;
    let mut k: usize = 0;
    while k < chars.len()
        invariant
            chars@ == source@,
            k <= chars@.len(),
            pos_fits(source@, k as nat),
            pos_count(source@, k as nat) == (row as nat, col as nat),
        decreases chars@.len() - k,
    {
        let ch = chars[k];
        if ch == '\n' {
            row = row + 1;
            col = 0;
        } else {
            col = col + utf8_len_of(ch) as u64;
        }
        assert(pos_count(source@, (k + 1) as nat) == (row as nat, col as nat));
        if row > Row::MAX as u64 || col > Col::MAX as u64 {
            return false;
        }
        assert forall|j: nat| j <= k + 1 implies (#[trigger] pos_count(source@, j)).0 <= Row::MAX
            && pos_count(source@, j).1 <= Col::MAX by {
            if j <= k {
                assert(pos_count(source@, j) == pos_count(source@, j));
            }
        }
        k = k + 1;
    }
    proof {
        lemma_failure_within_text(source@);
    }
    true
}

} // verus!
