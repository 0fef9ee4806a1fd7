//! The cursor-based recursive-descent parsing engine.

use crate::grammar::digits_end;
use crate::grammar::is_digit;
use crate::grammar::is_ws_char;
use crate::grammar::lemma_ws_end_props;
use crate::grammar::lex_number;
use crate::grammar::lex_str_rest;
use crate::grammar::lex_string;
use crate::grammar::spec_arr_items;
use crate::grammar::spec_obj_items;
use crate::grammar::spec_parse_array;
use crate::grammar::spec_parse_object;
use crate::grammar::spec_parse_value;
use crate::grammar::ws_end;
use crate::value::entries_distinct;
use crate::value::insert_entry;
use crate::value::lemma_insert_reflects;
use crate::value::obj_reflects;
use crate::value::reflects;
use crate::value::JsonError;
use crate::value::JsonValue;
use crate::value::SpecJson;
use vstd::prelude::*;
use vstd::string::StrSliceExecFns;
use vstd::string::StringExecFns;

verus! {

/// Relies on String::push: appends one character at the end.
#[verifier::external_body]
fn push_char(s: &mut String, c: char)
    ensures
        final(s)@ == old(s)@.push(c),
{
    s.push(c);
}

/// Whether `c` is a Unicode white-space scalar value.
fn is_ws(c: char) -> (b: bool)
    ensures
        b == is_ws_char(c),
{
    c == '\u{0009}' || c == '\u{000A}' || c == '\u{000B}' || c == '\u{000C}' || c == '\u{000D}'
        || c == ' ' || c == '\u{0085}' || c == '\u{00A0}' || c == '\u{1680}' || ('\u{2000}' <= c
        && c <= '\u{200A}') || c == '\u{2028}' || c == '\u{2029}' || c == '\u{202F}' || c
        == '\u{205F}' || c == '\u{3000}'
}

/// Whether `c` is an ASCII decimal digit.
fn is_digit_ch(c: char) -> (b: bool)
    ensures
        b == is_digit(c),
{
    '0' <= c && c <= '9'
}


/// The value of a whole string literal, given decoded characters `acc`
/// already consumed and the lex of the remainder.
spec fn str_cont(acc: Seq<char>, rest: Option<(Seq<char>, int)>) -> Option<(Seq<char>, int)> {
    match rest {
        Some(r) => Some((acc + r.0, r.1)),
        None => None,
    }
}


/// The entry list of a whole object, given entries `done` already
/// consumed and the spec parse of the remainder.
spec fn obj_cont(
    done: Seq<(Seq<char>, SpecJson)>,
    rest: Option<(Seq<(Seq<char>, SpecJson)>, int)>,
) -> Option<(Seq<(Seq<char>, SpecJson)>, int)> {
    match rest {
        Some(r) => Some((done + r.0, r.1)),
        None => None,
    }
}

/// The element list of a whole array, given elements `done` already
/// consumed and the spec parse of the remainder.
spec fn arr_cont(done: Seq<SpecJson>, rest: Option<(Seq<SpecJson>, int)>) -> Option<
    (Seq<SpecJson>, int),
> {
    match rest {
        Some(r) => Some((done + r.0, r.1)),
        None => None,
    }
}

/// The forward-only cursor over the input's character sequence.
pub struct Parser {
    pub input: Vec<char>,
    pub pos: usize,
}

impl Parser {
    /// The cursor never stands past the end of the input.
    pub open spec fn wf(&self) -> bool {
        self.pos <= self.input.len()
    }

    pub fn new(input: &str) -> (p: Parser)
        ensures
            p.input@ == input@,
            p.pos == 0,
    {
        let n = input.unicode_len();
        let mut chars: Vec<char> = Vec::new();
        let mut i: usize = 0;
        while i < n
            invariant
                i <= n,
                n == input@.len(),
                chars@ == input@.subrange(0, i as int),
            decreases n - i,
        {
            let c = input.get_char(i);
            chars.push(c);
            proof {
                assert(input@.subrange(0, i as int).push(input@[i as int]) =~= input@.subrange(
                    0,
                    i as int + 1,
                ));
            }
            i = i + 1;
        }
        proof {
            assert(chars@ =~= input@);
        }
        Parser { input: chars, pos: 0 }
    }

    /// Move the cursor past any white space.
    pub fn skip_whitespace(&mut self)
        requires
            old(self).wf(),
        ensures
            final(self).input@ == old(self).input@,
            final(self).wf(),
            final(self).pos == ws_end(old(self).input@, old(self).pos as int),
    {
        while self.pos < self.input.len() && is_ws(self.input[self.pos])
            invariant
                self.wf(),
                self.input@ == old(self).input@,
                ws_end(self.input@, self.pos as int) == ws_end(
                    old(self).input@,
                    old(self).pos as int,
                ),
            decreases self.input.len() - self.pos,
        {
            self.pos = self.pos + 1;
        }
    }

    /// Consume the exact text of `literal`, character by character.
    /// Returns whether all of it was found; on a mismatch the cursor is
    /// not rewound (failure is terminal for the whole parse).
    pub fn consume_literal(&mut self, literal: &str) -> (r: bool)
        requires
            old(self).wf(),
        ensures
            final(self).input@ == old(self).input@,
            final(self).wf(),
            old(self).pos <= final(self).pos,
            final(self).pos <= old(self).pos + literal@.len(),
            r == (old(self).pos + literal@.len() <= old(self).input@.len() && old(
                self,
            ).input@.subrange(
                old(self).pos as int,
                old(self).pos + literal@.len(),
            ) == literal@),
            r ==> final(self).pos == old(self).pos + literal@.len(),
    {
        let n = literal.unicode_len();
        let ghost p0 = old(self).pos as int;
        let ghost s = old(self).input@;
        let mut i: usize = 0;
        while i < n
            invariant
                self.wf(),
                s == old(self).input@,
                p0 == old(self).pos,
                self.input@ == s,
                i <= n,
                n == literal@.len(),
                self.pos == p0 + i,
                p0 + i <= s.len(),
                forall|j: int| 0 <= j < i ==> s[p0 + j] == literal@[j],
            decreases n - i,
        {
            if self.pos < self.input.len() {
                let c = self.input[self.pos];
                let e = literal.get_char(i);
                self.pos = self.pos + 1;
                if c != e {
                    proof {
                        if p0 + n <= s.len() && s.subrange(p0, p0 + n as int) == literal@ {
                            assert(s.subrange(p0, p0 + n as int)[i as int] == literal@[i as int]);
                        }
                    }
                    return false;
                }
                i = i + 1;
            } else {
                return false;
            }
        }
        proof {
            assert(s.subrange(p0, p0 + n as int) =~= literal@);
        }
        true
    }

    /// Consume the literal `true`.
    fn parse_true(&mut self) -> (r: Result<JsonValue, JsonError>)
        requires
            old(self).wf(),
        ensures
            final(self).input@ == old(self).input@,
            final(self).wf(),
            old(self).pos <= final(self).pos,
            (r is Ok) <==> (old(self).pos + 4 <= old(self).input@.len() && old(
                self,
            ).input@.subrange(old(self).pos as int, old(self).pos + 4) == "true"@),
            r matches Ok(v) ==> v == JsonValue::Boolean(true) && final(self).pos == old(self).pos
                + 4,
    {
        proof {
            reveal_strlit("true");
        }
        if self.consume_literal("true") {
            Ok(JsonValue::Boolean(true))
        } else {
            Err(JsonError::new(String::from_str("Expected true")))
        }
    }

    /// Consume the literal `false`.
    fn parse_false(&mut self) -> (r: Result<JsonValue, JsonError>)
        requires
            old(self).wf(),
        ensures
            final(self).input@ == old(self).input@,
            final(self).wf(),
            old(self).pos <= final(self).pos,
            (r is Ok) <==> (old(self).pos + 5 <= old(self).input@.len() && old(
                self,
            ).input@.subrange(old(self).pos as int, old(self).pos + 5) == "false"@),
            r matches Ok(v) ==> v == JsonValue::Boolean(false) && final(self).pos == old(self).pos
                + 5,
    {
        proof {
            reveal_strlit("false");
        }
        if self.consume_literal("false") {
            Ok(JsonValue::Boolean(false))
        } else {
            Err(JsonError::new(String::from_str("Expected false")))
        }
    }

    /// Consume the literal `null`.
    fn parse_null(&mut self) -> (r: Result<JsonValue, JsonError>)
        requires
            old(self).wf(),
        ensures
            final(self).input@ == old(self).input@,
            final(self).wf(),
            old(self).pos <= final(self).pos,
            (r is Ok) <==> (old(self).pos + 4 <= old(self).input@.len() && old(
                self,
            ).input@.subrange(old(self).pos as int, old(self).pos + 4) == "null"@),
            r matches Ok(v) ==> v == JsonValue::Null && final(self).pos == old(self).pos + 4,
    {
        proof {
            reveal_strlit("null");
        }
        if self.consume_literal("null") {
            Ok(JsonValue::Null)
        } else {
            Err(JsonError::new(String::from_str("Expected null")))
        }
    }

    /// Consume a string literal, decoding the seven supported escape
    /// sequences; `\uXXXX` escapes are not supported.
    pub fn parse_string(&mut self) -> (r: Result<String, JsonError>)
        requires
            old(self).wf(),
        ensures
            final(self).input@ == old(self).input@,
            final(self).wf(),
            old(self).pos <= final(self).pos,
            (r is Ok) <==> lex_string(old(self).input@, old(self).pos as int) is Some,
            r matches Ok(st) ==> (lex_string(old(self).input@, old(self).pos as int) matches Some(
                lr,
            ) && st@ == lr.0 && final(self).pos == lr.1 && old(self).pos + 2 <= final(self).pos),
    {
        let ghost s = old(self).input@;
        let ghost p0 = old(self).pos as int;
        if !(self.pos < self.input.len() && self.input[self.pos] == '"') {
            return Err(JsonError::new(String::from_str("Expected '\"' at start of string")));
        }
        self.pos = self.pos + 1;
        let mut result = String::new();
        proof {
            match lex_str_rest(s, p0 + 1) {
                Some(rr) => {
                    assert(Seq::<char>::empty() + rr.0 =~= rr.0);
                },
                None => {},
            }
        }
        loop
            invariant
                self.wf(),
                s == old(self).input@,
                p0 == old(self).pos,
                self.input@ == s,
                p0 < self.pos <= s.len(),
                lex_string(s, p0) == str_cont(result@, lex_str_rest(s, self.pos as int)),
            decreases s.len() - self.pos,
        {
            if self.pos == self.input.len() {
                return Err(JsonError::new(String::from_str("Unterminated string")));
            }
            let c = self.input[self.pos];
            self.pos = self.pos + 1;
            if c == '"' {
                proof {
                    assert(result@ + Seq::<char>::empty() =~= result@);
                }
                return Ok(result);
            }
            if c == '\\' {
                if self.pos == self.input.len() {
                    return Err(JsonError::new(String::from_str("Invalid escape sequence")));
                }
                let e = self.input[self.pos];
                self.pos = self.pos + 1;
                let d = if e == '"' {
                    '"'
                } else if e == '\\' {
                    '\\'
                } else if e == '/' {
                    '/'
                } else if e == 'b' {
                    '\u{0008}'
                } else if e == 'f' {
                    '\u{000C}'
                } else if e == 'n' {
                    '\n'
                } else if e == 'r' {
                    '\r'
                } else if e == 't' {
                    '\t'
                } else {
                    return Err(JsonError::new(String::from_str("Invalid escape sequence")));
                };
                let ghost before = result@;
                push_char(&mut result, d);
                proof {
                    match lex_str_rest(s, self.pos as int) {
                        Some(rr) => {
                            assert(before.push(d) + rr.0 =~= before + (seq![d] + rr.0));
                        },
                        None => {},
                    }
                }
            } else {
                let ghost before = result@;
                push_char(&mut result, c);
                proof {
                    match lex_str_rest(s, self.pos as int) {
                        Some(rr) => {
                            assert(before.push(c) + rr.0 =~= before + (seq![c] + rr.0));
                        },
                        None => {},
                    }
                }
            }
        }
    }

    /// Consume a number matching the strict grammar: optional `-`, a
    /// single `0` or a nonzero-led digit run, optional fraction,
    /// optional exponent.  The matched text is the value's payload.
    fn parse_number(&mut self) -> (r: Result<JsonValue, JsonError>)
        requires
            old(self).wf(),
        ensures
            final(self).input@ == old(self).input@,
            final(self).wf(),
            old(self).pos <= final(self).pos,
            (r is Ok) <==> lex_number(old(self).input@, old(self).pos as int) is Some,
            r matches Ok(v) ==> (v matches JsonValue::Number(t) && lex_number(
                old(self).input@,
                old(self).pos as int,
            ) == Some(final(self).pos as int) && t@ == old(self).input@.subrange(
                old(self).pos as int,
                final(self).pos as int,
            ) && old(self).pos < final(self).pos),
    {
        let ghost s = old(self).input@;
        let ghost p0 = old(self).pos as int;
        let mut number_str = String::new();
        if self.pos < self.input.len() && self.input[self.pos] == '-' {
            push_char(&mut number_str, '-');
            self.pos = self.pos + 1;
        }
        let ghost p1 = self.pos as int;
        proof {
            assert(number_str@ =~= s.subrange(p0, p1));
        }
        if self.pos < self.input.len() && self.input[self.pos] == '0' {
            push_char(&mut number_str, '0');
            proof {
                assert(s.subrange(p0, p1).push(s[p1]) =~= s.subrange(p0, p1 + 1));
            }
            self.pos = self.pos + 1;
        } else if self.pos < self.input.len() && is_digit_ch(self.input[self.pos]) {
            let c0 = self.input[self.pos];
            push_char(&mut number_str, c0);
            proof {
                assert(s.subrange(p0, p1).push(s[p1]) =~= s.subrange(p0, p1 + 1));
            }
            self.pos = self.pos + 1;
            while self.pos < self.input.len() && is_digit_ch(self.input[self.pos])
                invariant
                    self.wf(),
                    s == old(self).input@,
                    self.input@ == s,
                    0 <= p0 <= p1,
                    p1 < self.pos <= s.len(),
                    digits_end(s, p1) == digits_end(s, self.pos as int),
                    number_str@ == s.subrange(p0, self.pos as int),
                decreases s.len() - self.pos,
            {
                let c = self.input[self.pos];
                push_char(&mut number_str, c);
                proof {
                    assert(s.subrange(p0, self.pos as int).push(s[self.pos as int])
                        =~= s.subrange(p0, self.pos as int + 1));
                }
                self.pos = self.pos + 1;
            }
        } else {
            return Err(JsonError::new(String::from_str("Expected digit in number")));
        }
        let ghost p2 = self.pos as int;
        if self.pos < self.input.len() && self.input[self.pos] == '.' {
            push_char(&mut number_str, '.');
            proof {
                assert(s.subrange(p0, p2).push(s[p2]) =~= s.subrange(p0, p2 + 1));
            }
            self.pos = self.pos + 1;
            let ghost f0 = self.pos as int;
            let mut has_decimal_digits = false;
            while self.pos < self.input.len() && is_digit_ch(self.input[self.pos])
                invariant
                    self.wf(),
                    s == old(self).input@,
                    self.input@ == s,
                    0 <= p0 <= f0,
                    f0 <= self.pos <= s.len(),
                    digits_end(s, f0) == digits_end(s, self.pos as int),
                    number_str@ == s.subrange(p0, self.pos as int),
                    has_decimal_digits == (f0 < self.pos),
                decreases s.len() - self.pos,
            {
                let c = self.input[self.pos];
                push_char(&mut number_str, c);
                proof {
                    assert(s.subrange(p0, self.pos as int).push(s[self.pos as int])
                        =~= s.subrange(p0, self.pos as int + 1));
                }
                self.pos = self.pos + 1;
                has_decimal_digits = true;
            }
            if !has_decimal_digits {
                return Err(JsonError::new(String::from_str("Expected digit after decimal point")));
            }
        }
        let ghost p3 = self.pos as int;
        if self.pos < self.input.len() && (self.input[self.pos] == 'e' || self.input[self.pos]
            == 'E') {
            let c = self.input[self.pos];
            push_char(&mut number_str, c);
            proof {
                assert(s.subrange(p0, p3).push(s[p3]) =~= s.subrange(p0, p3 + 1));
            }
            self.pos = self.pos + 1;
            if self.pos < self.input.len() && (self.input[self.pos] == '+' || self.input[self.pos]
                == '-') {
                let c2 = self.input[self.pos];
                push_char(&mut number_str, c2);
                proof {
                    assert(s.subrange(p0, p3 + 1).push(s[p3 + 1]) =~= s.subrange(p0, p3 + 2));
                }
                self.pos = self.pos + 1;
            }
            let ghost e0 = self.pos as int;
            let mut has_exp_digits = false;
            while self.pos < self.input.len() && is_digit_ch(self.input[self.pos])
                invariant
                    self.wf(),
                    s == old(self).input@,
                    self.input@ == s,
                    0 <= p0 <= e0,
                    e0 <= self.pos <= s.len(),
                    digits_end(s, e0) == digits_end(s, self.pos as int),
                    number_str@ == s.subrange(p0, self.pos as int),
                    has_exp_digits == (e0 < self.pos),
                decreases s.len() - self.pos,
            {
                let c2 = self.input[self.pos];
                push_char(&mut number_str, c2);
                proof {
                    assert(s.subrange(p0, self.pos as int).push(s[self.pos as int])
                        =~= s.subrange(p0, self.pos as int + 1));
                }
                self.pos = self.pos + 1;
                has_exp_digits = true;
            }
            if !has_exp_digits {
                return Err(JsonError::new(String::from_str("Expected digit in exponent")));
            }
        }
        Ok(JsonValue::Number(number_str))
    }

    /// Parse any JSON value, dispatching on the first non-white-space
    /// character.
    fn parse_value(&mut self) -> (r: Result<JsonValue, JsonError>)
        requires
            old(self).wf(),
        ensures
            final(self).input@ == old(self).input@,
            final(self).wf(),
            old(self).pos <= final(self).pos,
            (r is Ok) <==> spec_parse_value(old(self).input@, old(self).pos as int) is Some,
            (r is Ok) ==> ws_end(old(self).input@, old(self).pos as int) < final(self).pos,
            r matches Ok(v) ==> (spec_parse_value(old(self).input@, old(self).pos as int)
                matches Some(g) && final(self).pos == g.1 && old(self).pos < final(self).pos
                && reflects(v, g.0)),
        decreases self.input@.len() - self.pos, 3int,
    {
        let ghost s = old(self).input@;
        let ghost p0 = old(self).pos as int;
        self.skip_whitespace();
        proof {
            lemma_ws_end_props(s, p0);
        }
        if self.pos == self.input.len() {
            return Err(JsonError::new(String::from_str("Unexpected end of input")));
        }
        let c = self.input[self.pos];
        if c == '{' {
            self.parse_object()
        } else if c == '[' {
            self.parse_array()
        } else if c == '"' {
            match self.parse_string() {
                Ok(st) => Ok(JsonValue::String(st)),
                Err(e) => Err(e),
            }
        } else if c == 't' {
            self.parse_true()
        } else if c == 'f' {
            self.parse_false()
        } else if c == 'n' {
            self.parse_null()
        } else if c == '-' || is_digit_ch(c) {
            self.parse_number()
        } else {
            let mut msg = String::from_str("Unexpected character: ");
            push_char(&mut msg, c);
            Err(JsonError::new(msg))
        }
    }

    /// Parse an object: `{`, an optional `"key": value` list separated
    /// by `,`, then `}`.  A repeated key overwrites its earlier value.
    #[verifier::rlimit(60)]
    fn parse_object(&mut self) -> (r: Result<JsonValue, JsonError>)
        requires
            old(self).wf(),
        ensures
            final(self).input@ == old(self).input@,
            final(self).wf(),
            old(self).pos <= final(self).pos,
            (r is Ok) <==> (old(self).pos < old(self).input@.len() && old(self).input@[old(
                self,
            ).pos as int] == '{' && spec_parse_object(old(self).input@, old(self).pos + 1)
                is Some),
            r matches Ok(v) ==> (spec_parse_object(old(self).input@, old(self).pos + 1)
                matches Some(g) && final(self).pos == g.1 && old(self).pos < final(self).pos
                && reflects(v, g.0)),
        decreases self.input@.len() - self.pos, 2int,
    {
        let ghost s = old(self).input@;
        let ghost p0 = old(self).pos as int;
        if self.pos == self.input.len() {
            return Err(JsonError::new(String::from_str("Expected '{' at start of object")));
        }
        let c0 = self.input[self.pos];
        self.pos = self.pos + 1;
        if c0 != '{' {
            return Err(JsonError::new(String::from_str("Expected '{' at start of object")));
        }
        let ghost q = self.pos as int;
        self.skip_whitespace();
        proof {
            lemma_ws_end_props(s, q);
        }
        let mut obj: Vec<(String, JsonValue)> = Vec::new();
        if self.pos < self.input.len() && self.input[self.pos] == '}' {
            self.pos = self.pos + 1;
            proof {
                assert(obj_reflects(obj@, Seq::<(Seq<char>, SpecJson)>::empty()));
            }
            return Ok(JsonValue::Object(obj));
        }
        let ghost mut done: Seq<(Seq<char>, SpecJson)> = Seq::empty();
        proof {
            assert(spec_obj_items(s, self.pos as int) == spec_obj_items(s, q));
            match spec_obj_items(s, q) {
                Some(r) => {
                    assert(Seq::<(Seq<char>, SpecJson)>::empty() + r.0 =~= r.0);
                },
                None => {},
            }
        }
        loop
            invariant
                self.wf(),
                s == old(self).input@,
                p0 == old(self).pos,
                self.input@ == s,
                q == p0 + 1,
                0 <= q <= s.len(),
                s[p0] == '{',
                q <= self.pos <= s.len(),
                q <= ws_end(s, q) <= s.len(),
                !(ws_end(s, q) < s.len() && s[ws_end(s, q)] == '}'),
                obj_cont(done, spec_obj_items(s, self.pos as int)) == spec_obj_items(s, q),
                obj_reflects(obj@, done),
            decreases s.len() - self.pos,
        {
            let ghost cur = self.pos as int;
            self.skip_whitespace();
            proof {
                lemma_ws_end_props(s, cur);
            }
            let ghost k = self.pos as int;
            let key_str = match self.parse_string() {
                Ok(kk) => kk,
                Err(e) => {
                    return Err(e);
                },
            };
            let ghost gk = key_str@;
            let ghost ke = self.pos as int;
            if self.pos == self.input.len() {
                return Err(JsonError::new(String::from_str("Expected ':' after object key")));
            }
            let cc = self.input[self.pos];
            self.pos = self.pos + 1;
            if cc != ':' {
                return Err(JsonError::new(String::from_str("Expected ':' after object key")));
            }
            let value = match self.parse_value() {
                Ok(vv) => vv,
                Err(e) => {
                    return Err(e);
                },
            };
            let ghost gv = (choose|gp: (SpecJson, int)|
                spec_parse_value(s, ke + 1) == Some(gp)).0;
            let ghost e = self.pos as int;
            let ghost obj_before = obj@;
            let ghost gval = value;
            insert_entry(&mut obj, key_str, value);
            proof {
                lemma_insert_reflects(obj_before, obj@, done, gk, gval, gv);
            }
            self.skip_whitespace();
            proof {
                lemma_ws_end_props(s, e);
            }
            let ghost w2 = self.pos as int;
            if self.pos == self.input.len() {
                return Err(
                    JsonError::new(String::from_str("Expected ',' or '}' after object value")),
                );
            }
            let c2 = self.input[self.pos];
            self.pos = self.pos + 1;
            if c2 == ',' {
                proof {
                    match spec_obj_items(s, w2 + 1) {
                        Some(rr) => {
                            assert(done + (seq![(gk, gv)] + rr.0) =~= (done + seq![(gk, gv)])
                                + rr.0);
                        },
                        None => {},
                    }
                    assert(done.push((gk, gv)) =~= done + seq![(gk, gv)]);
                    done = done.push((gk, gv));
                }
            } else if c2 == '}' {
                proof {
                    assert(spec_obj_items(s, cur) == Some((seq![(gk, gv)], w2 + 1)));
                    assert(done.push((gk, gv)) =~= done + seq![(gk, gv)]);
                    done = done.push((gk, gv));
                }
                return Ok(JsonValue::Object(obj));
            } else {
                return Err(
                    JsonError::new(String::from_str("Expected ',' or '}' after object value")),
                );
            }
        }
    }

    /// Parse an array: `[`, an optional value list separated by `,`,
    /// then `]`.
    fn parse_array(&mut self) -> (r: Result<JsonValue, JsonError>)
        requires
            old(self).wf(),
        ensures
            final(self).input@ == old(self).input@,
            final(self).wf(),
            old(self).pos <= final(self).pos,
            (r is Ok) <==> (old(self).pos < old(self).input@.len() && old(self).input@[old(
                self,
            ).pos as int] == '[' && spec_parse_array(old(self).input@, old(self).pos + 1)
                is Some),
            r matches Ok(v) ==> (spec_parse_array(old(self).input@, old(self).pos + 1)
                matches Some(g) && final(self).pos == g.1 && old(self).pos < final(self).pos
                && reflects(v, g.0)),
        decreases self.input@.len() - self.pos, 2int,
    {
        let ghost s = old(self).input@;
        let ghost p0 = old(self).pos as int;
        if self.pos == self.input.len() {
            return Err(JsonError::new(String::from_str("Expected '[' at start of array")));
        }
        let c0 = self.input[self.pos];
        self.pos = self.pos + 1;
        if c0 != '[' {
            return Err(JsonError::new(String::from_str("Expected '[' at start of array")));
        }
        let ghost q = self.pos as int;
        self.skip_whitespace();
        proof {
            lemma_ws_end_props(s, q);
        }
        let mut arr: Vec<JsonValue> = Vec::new();
        if self.pos < self.input.len() && self.input[self.pos] == ']' {
            self.pos = self.pos + 1;
            return Ok(JsonValue::Array(arr));
        }
        let ghost mut done: Seq<SpecJson> = Seq::empty();
        proof {
            assert(spec_parse_value(s, self.pos as int) == spec_parse_value(s, q));
            assert(spec_arr_items(s, self.pos as int) == spec_arr_items(s, q));
            match spec_arr_items(s, q) {
                Some(r) => {
                    assert(Seq::<SpecJson>::empty() + r.0 =~= r.0);
                },
                None => {},
            }
        }
        loop
            invariant
                self.wf(),
                s == old(self).input@,
                p0 == old(self).pos,
                self.input@ == s,
                q == p0 + 1,
                0 <= q <= s.len(),
                s[p0] == '[',
                q <= self.pos <= s.len(),
                q <= ws_end(s, q) <= s.len(),
                !(ws_end(s, q) < s.len() && s[ws_end(s, q)] == ']'),
                arr_cont(done, spec_arr_items(s, self.pos as int)) == spec_arr_items(s, q),
                arr@.len() == done.len(),
                forall|i: int| 0 <= i < done.len() ==> reflects(#[trigger] arr@[i], done[i]),
            decreases s.len() - self.pos,
        {
            let ghost cur = self.pos as int;
            proof {
                lemma_ws_end_props(s, cur);
            }
            let value = match self.parse_value() {
                Ok(vv) => vv,
                Err(e) => {
                    return Err(e);
                },
            };
            let ghost gv = (choose|gp: (SpecJson, int)| spec_parse_value(s, cur) == Some(gp)).0;
            let ghost e = self.pos as int;
            let ghost arr_before = arr@;
            let ghost gval = value;
            arr.push(value);
            self.skip_whitespace();
            proof {
                lemma_ws_end_props(s, e);
            }
            let ghost w2 = self.pos as int;
            if self.pos == self.input.len() {
                return Err(
                    JsonError::new(String::from_str("Expected ',' or ']' after array element")),
                );
            }
            let c2 = self.input[self.pos];
            self.pos = self.pos + 1;
            if c2 == ',' {
                proof {
                    match spec_arr_items(s, w2 + 1) {
                        Some(rr) => {
                            assert(done + (seq![gv] + rr.0) =~= (done + seq![gv]) + rr.0);
                        },
                        None => {},
                    }
                    assert(done.push(gv) =~= done + seq![gv]);
                    done = done.push(gv);
                    assert(reflects(arr@[done.len() - 1], done[done.len() - 1]));
                }
            } else if c2 == ']' {
                proof {
                    assert(spec_arr_items(s, cur) == Some((seq![gv], w2 + 1)));
                    assert(done.push(gv) =~= done + seq![gv]);
                    done = done.push(gv);
                    assert(reflects(arr@[done.len() - 1], done[done.len() - 1]));
                }
                return Ok(JsonValue::Array(arr));
            } else {
                return Err(
                    JsonError::new(String::from_str("Expected ',' or ']' after array element")),
                );
            }
        }
    }

    /// Parse one top-level value.  Trailing input after the value is
    /// not inspected.
    fn parse(&mut self) -> (r: Result<JsonValue, JsonError>)
        requires
            old(self).wf(),
        ensures
            final(self).input@ == old(self).input@,
            final(self).wf(),
            (r is Ok) <==> spec_parse_value(old(self).input@, old(self).pos as int) is Some,
            r matches Ok(v) ==> (spec_parse_value(old(self).input@, old(self).pos as int)
                matches Some(g) && final(self).pos == g.1 && reflects(v, g.0)),
    {
        let value = match self.parse_value() {
            Ok(v) => v,
            Err(e) => {
                return Err(e);
            },
        };
        Ok(value)
    }
}

/// Parse a JSON document: one top-level value, which the result tree
/// mirrors exactly as the grammar describes it.  Trailing characters
/// after the value are silently ignored.
pub fn parse(input: &str) -> (r: Result<JsonValue, JsonError>)
    ensures
        (r is Ok) <==> spec_parse_value(input@, 0) is Some,
        r matches Ok(v) ==> (spec_parse_value(input@, 0) matches Some(g) && reflects(v, g.0)),
{
    let mut parser = Parser::new(input);
    parser.parse()
}

} // verus!
