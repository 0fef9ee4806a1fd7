//! The textual grammar, stated as deterministic spec-level lexers and
//! a spec-level parser.
//!
//! Every executable parsing step is specified against these functions:
//! a parse succeeds exactly when `spec_parse_value` yields `Some`, and
//! then ends at exactly the position the spec parser names.  The spec
//! parser mirrors the committed, lookahead-1 discipline of the cursor:
//! once a production is entered it either completes or the whole parse
//! fails, so no backtracking exists here either.
//!
//! The range guards of the form `if !(a <= b) { None }` are never taken
//! (positions produced by the grammar stay inside the input); they make
//! the termination of the mutual recursion a matter of arithmetic.

use crate::value::SpecJson;
use vstd::prelude::*;

verus! {

/// The Unicode white-space scalar values (the `White_Space` property):
/// what the cursor skips between tokens, a deliberate superset of the
/// four JSON white-space characters.
pub open spec fn is_ws_char(c: char) -> bool {
    c == '\u{0009}' || c == '\u{000A}' || c == '\u{000B}' || c == '\u{000C}' || c == '\u{000D}'
        || c == ' ' || c == '\u{0085}' || c == '\u{00A0}' || c == '\u{1680}' || ('\u{2000}' <= c
        && c <= '\u{200A}') || c == '\u{2028}' || c == '\u{2029}' || c == '\u{202F}' || c
        == '\u{205F}' || c == '\u{3000}'
}

/// An ASCII decimal digit.
pub open spec fn is_digit(c: char) -> bool {
    '0' <= c && c <= '9'
}

/// The first position at or after `p` holding a non-white-space
/// character (or the end of the input).
pub open spec fn ws_end(s: Seq<char>, p: int) -> int
    decreases s.len() - p, 0int
        when 0 <= p <= s.len()
{
    if p < s.len() && is_ws_char(s[p]) {
        ws_end(s, p + 1)
    } else {
        p
    }
}

pub proof fn lemma_ws_end_props(s: Seq<char>, p: int)
    requires
        0 <= p <= s.len(),
    ensures
        p <= ws_end(s, p) <= s.len(),
        ws_end(s, p) < s.len() ==> !is_ws_char(s[ws_end(s, p)]),
        ws_end(s, ws_end(s, p)) == ws_end(s, p),
    decreases s.len() - p,
{
    if p < s.len() && is_ws_char(s[p]) {
        lemma_ws_end_props(s, p + 1);
    }
}

/// What a two-character escape `\c` stands for, if anything.
pub open spec fn escape_of(c: char) -> Option<char> {
    if c == '"' {
        Some('"')
    } else if c == '\\' {
        Some('\\')
    } else if c == '/' {
        Some('/')
    } else if c == 'b' {
        Some('\u{0008}')
    } else if c == 'f' {
        Some('\u{000C}')
    } else if c == 'n' {
        Some('\n')
    } else if c == 'r' {
        Some('\r')
    } else if c == 't' {
        Some('\t')
    } else {
        None
    }
}

/// The decoded remainder of a string literal whose opening quote stands
/// before `p`: the decoded characters up to the closing quote, and the
/// position after that quote.  `None` on an unterminated literal or an
/// unsupported escape.
pub open spec fn lex_str_rest(s: Seq<char>, p: int) -> Option<(Seq<char>, int)>
    decreases s.len() - p, 0int
        when 0 <= p <= s.len()
{
    if p >= s.len() {
        None
    } else if s[p] == '"' {
        Some((Seq::empty(), p + 1))
    } else if s[p] == '\\' {
        if p + 1 >= s.len() {
            None
        } else {
            match escape_of(s[p + 1]) {
                Some(c) => match lex_str_rest(s, p + 2) {
                    Some(r) => Some((seq![c] + r.0, r.1)),
                    None => None,
                },
                None => None,
            }
        }
    } else {
        match lex_str_rest(s, p + 1) {
            Some(r) => Some((seq![s[p]] + r.0, r.1)),
            None => None,
        }
    }
}

/// Over content free of quotes and backslashes, the string lexer
/// decodes nothing: it hands the characters back and stops after the
/// closing quote.
pub proof fn lemma_lex_str_rest_plain(s: Seq<char>, p: int, e: int)
    requires
        0 <= p <= e < s.len(),
        s[e] == '"',
        forall|i: int| p <= i < e ==> s[i] != '"' && s[i] != '\\',
    ensures
        lex_str_rest(s, p) == Some((s.subrange(p, e), e + 1)),
    decreases e - p,
{
    if p == e {
        assert(s.subrange(p, e) =~= Seq::<char>::empty());
    } else {
        lemma_lex_str_rest_plain(s, p + 1, e);
        assert(seq![s[p]] + s.subrange(p + 1, e) =~= s.subrange(p, e));
    }
}

/// A whole string literal starting at `p`: its decoded content and the
/// position after the closing quote.
pub open spec fn lex_string(s: Seq<char>, p: int) -> Option<(Seq<char>, int)> {
    if 0 <= p < s.len() && s[p] == '"' {
        lex_str_rest(s, p + 1)
    } else {
        None
    }
}

/// The end of the maximal digit run starting at `p`.
pub open spec fn digits_end(s: Seq<char>, p: int) -> int
    decreases s.len() - p, 0int
        when 0 <= p <= s.len()
{
    if p < s.len() && is_digit(s[p]) {
        digits_end(s, p + 1)
    } else {
        p
    }
}

pub proof fn lemma_digits_end_props(s: Seq<char>, p: int)
    requires
        0 <= p <= s.len(),
    ensures
        p <= digits_end(s, p) <= s.len(),
        digits_end(s, p) < s.len() ==> !is_digit(s[digits_end(s, p)]),
        forall|j: int| p <= j < digits_end(s, p) ==> is_digit(s[j]),
    decreases s.len() - p,
{
    if p < s.len() && is_digit(s[p]) {
        lemma_digits_end_props(s, p + 1);
    }
}

/// A digit run read inside a larger text stops where it stops in the
/// text alone, provided the character after the embedded region (if
/// any) is not a digit.
pub proof fn lemma_digits_end_embed(t: Seq<char>, s: Seq<char>, p: int, i: int)
    requires
        0 <= i <= t.len(),
        0 <= p,
        p + t.len() <= s.len(),
        s.subrange(p, p + t.len() as int) == t,
        p + t.len() == s.len() || !is_digit(s[p + t.len()]),
    ensures
        digits_end(s, p + i) == p + digits_end(t, i),
    decreases t.len() - i,
{
    assert forall|j: int| 0 <= j < t.len() implies s[p + j] == t[j] by {
        assert(s.subrange(p, p + t.len() as int)[j] == s[p + j]);
    }
    if i < t.len() && is_digit(t[i]) {
        lemma_digits_end_embed(t, s, p, i + 1);
    }
}

/// The optional fractional part at `p`: a `.` must be followed by at
/// least one digit.
pub open spec fn lex_frac(s: Seq<char>, p: int) -> Option<int> {
    if 0 <= p < s.len() && s[p] == '.' {
        if digits_end(s, p + 1) == p + 1 {
            None
        } else {
            Some(digits_end(s, p + 1))
        }
    } else {
        Some(p)
    }
}

/// The optional exponent at `p`: `e` or `E`, an optional sign, then at
/// least one digit.
pub open spec fn lex_exp(s: Seq<char>, p: int) -> Option<int> {
    if 0 <= p < s.len() && (s[p] == 'e' || s[p] == 'E') {
        if p + 1 < s.len() && (s[p + 1] == '+' || s[p + 1] == '-') {
            if digits_end(s, p + 2) == p + 2 {
                None
            } else {
                Some(digits_end(s, p + 2))
            }
        } else {
            if digits_end(s, p + 1) == p + 1 {
                None
            } else {
                Some(digits_end(s, p + 1))
            }
        }
    } else {
        Some(p)
    }
}

/// The end of a number starting at `p0`: an optional `-`, then either a
/// single `0` or a nonzero-led digit run, then the optional fraction
/// and exponent.  `None` when the committed scan finds no digit where
/// one is owed.
pub open spec fn lex_number(s: Seq<char>, p0: int) -> Option<int> {
    let p1 = if 0 <= p0 < s.len() && s[p0] == '-' {
        p0 + 1
    } else {
        p0
    };
    if !(0 <= p1 && p1 < s.len()) || !is_digit(s[p1]) {
        None
    } else {
        let p2 = if s[p1] == '0' {
            p1 + 1
        } else {
            digits_end(s, p1)
        };
        match lex_frac(s, p2) {
            None => None,
            Some(p3) => lex_exp(s, p3),
        }
    }
}

/// A complete number text read inside a larger text parses to the same
/// end, provided the character after the embedded region (if any)
/// could not extend the number.
pub proof fn lemma_lex_number_embed(t: Seq<char>, s: Seq<char>, p: int)
    requires
        t.len() > 0,
        lex_number(t, 0) == Some(t.len() as int),
        0 <= p,
        p + t.len() <= s.len(),
        s.subrange(p, p + t.len() as int) == t,
        p + t.len() == s.len() || (!is_digit(s[p + t.len()]) && s[p + t.len()] != '.' && s[p
            + t.len()] != 'e' && s[p + t.len()] != 'E'),
    ensures
        lex_number(s, p) == Some(p + t.len() as int),
{
    let n = t.len() as int;
    assert forall|j: int| 0 <= j < n implies s[p + j] == t[j] by {
        assert(s.subrange(p, p + n)[j] == s[p + j]);
    }
    let p1: int = if t[0] == '-' {
        1
    } else {
        0
    };
    assert(p1 < n && is_digit(t[p1]));
    let p2: int = if t[p1] == '0' {
        p1 + 1
    } else {
        digits_end(t, p1)
    };
    lemma_digits_end_props(t, p1);
    if t[p1] != '0' {
        lemma_digits_end_embed(t, s, p, p1);
        assert(digits_end(s, p + p1) == p + digits_end(t, p1));
    }
    assert(p1 <= p2 <= n);
    let p3 = lex_frac(t, p2)->Some_0;
    assert(lex_frac(t, p2) == Some(p3) && lex_exp(t, p3) == Some(n));
    if p2 < n && t[p2] == '.' {
        lemma_digits_end_props(t, p2 + 1);
        lemma_digits_end_embed(t, s, p, p2 + 1);
        assert(p3 == digits_end(t, p2 + 1) && p3 != p2 + 1);
        assert(lex_frac(s, p + p2) == Some(p + p3));
    } else {
        assert(p3 == p2);
        assert(lex_frac(s, p + p2) == Some(p + p3));
    }
    assert(p3 <= n);
    if p3 < n && (t[p3] == 'e' || t[p3] == 'E') {
        if p3 + 1 < n && (t[p3 + 1] == '+' || t[p3 + 1] == '-') {
            lemma_digits_end_props(t, p3 + 2);
            lemma_digits_end_embed(t, s, p, p3 + 2);
            assert(lex_exp(s, p + p3) == Some(p + n));
        } else {
            lemma_digits_end_props(t, p3 + 1);
            lemma_digits_end_embed(t, s, p, p3 + 1);
            assert(lex_exp(s, p + p3) == Some(p + n));
        }
    } else {
        assert(p3 == n);
        assert(lex_exp(s, p + p3) == Some(p + n));
    }
}

/// One JSON value starting at `p0`, leading white space included: the
/// textual parse tree and the position after the value.  Dispatch goes
/// by the first non-white-space character alone.
pub open spec fn spec_parse_value(s: Seq<char>, p0: int) -> Option<(SpecJson, int)>
    decreases s.len() - p0, 0int
        when 0 <= p0 <= s.len()
{
    let p = ws_end(s, p0);
    if !(p0 <= p && p <= s.len()) {
        None
    } else if p == s.len() {
        None
    } else if s[p] == '{' {
        spec_parse_object(s, p + 1)
    } else if s[p] == '[' {
        spec_parse_array(s, p + 1)
    } else if s[p] == '"' {
        match lex_string(s, p) {
            Some(r) => Some((SpecJson::Str(r.0), r.1)),
            None => None,
        }
    } else if s[p] == 't' {
        if p + 4 <= s.len() && s.subrange(p, p + 4) == "true"@ {
            Some((SpecJson::Bool(true), p + 4))
        } else {
            None
        }
    } else if s[p] == 'f' {
        if p + 5 <= s.len() && s.subrange(p, p + 5) == "false"@ {
            Some((SpecJson::Bool(false), p + 5))
        } else {
            None
        }
    } else if s[p] == 'n' {
        if p + 4 <= s.len() && s.subrange(p, p + 4) == "null"@ {
            Some((SpecJson::Null, p + 4))
        } else {
            None
        }
    } else if s[p] == '-' || is_digit(s[p]) {
        match lex_number(s, p) {
            Some(e) => Some((SpecJson::Num(s.subrange(p, e)), e)),
            None => None,
        }
    } else {
        None
    }
}

/// An object whose `{` stands just before `q`: empty on an immediate
/// `}`, else the entry list.
pub open spec fn spec_parse_object(s: Seq<char>, q: int) -> Option<(SpecJson, int)>
    decreases s.len() - q, 2int
        when 0 <= q <= s.len()
{
    let w = ws_end(s, q);
    if !(q <= w && w <= s.len()) {
        None
    } else if w < s.len() && s[w] == '}' {
        Some((SpecJson::Obj(Seq::empty()), w + 1))
    } else {
        match spec_obj_items(s, q) {
            Some(r) => Some((SpecJson::Obj(r.0), r.1)),
            None => None,
        }
    }
}

/// One or more `"key": value` entries from `q`, separated by `,` and
/// closed by `}`: the textual entries in order (repeated keys and all)
/// and the position after the `}`.  No white space may stand between
/// a key and its `:`.
pub open spec fn spec_obj_items(s: Seq<char>, q: int) -> Option<(Seq<(Seq<char>, SpecJson)>, int)>
    decreases s.len() - q, 1int
        when 0 <= q <= s.len()
{
    let k = ws_end(s, q);
    if !(q <= k && k <= s.len()) {
        None
    } else {
        match lex_string(s, k) {
            None => None,
            Some(kr) => {
                let key = kr.0;
                let ke = kr.1;
                if !(k + 1 < ke && ke <= s.len()) {
                    None
                } else if ke == s.len() || s[ke] != ':' {
                    None
                } else {
                    match spec_parse_value(s, ke + 1) {
                        None => None,
                        Some(vr) => {
                            let gv = vr.0;
                            let e = vr.1;
                            if !(ke + 1 < e && e <= s.len()) {
                                None
                            } else {
                                let w = ws_end(s, e);
                                if !(e <= w && w <= s.len()) {
                                    None
                                } else if w == s.len() {
                                    None
                                } else if s[w] == '}' {
                                    Some((seq![(key, gv)], w + 1))
                                } else if s[w] == ',' {
                                    match spec_obj_items(s, w + 1) {
                                        None => None,
                                        Some(rr) => Some((seq![(key, gv)] + rr.0, rr.1)),
                                    }
                                } else {
                                    None
                                }
                            }
                        },
                    }
                }
            },
        }
    }
}

/// An array whose `[` stands just before `q`: empty on an immediate
/// `]`, else the element list.
pub open spec fn spec_parse_array(s: Seq<char>, q: int) -> Option<(SpecJson, int)>
    decreases s.len() - q, 2int
        when 0 <= q <= s.len()
{
    let w = ws_end(s, q);
    if !(q <= w && w <= s.len()) {
        None
    } else if w < s.len() && s[w] == ']' {
        Some((SpecJson::Arr(Seq::empty()), w + 1))
    } else {
        match spec_arr_items(s, q) {
            Some(r) => Some((SpecJson::Arr(r.0), r.1)),
            None => None,
        }
    }
}

/// One or more array elements from `q`, separated by `,` and closed by
/// `]`: the elements in order and the position after the `]`.
pub open spec fn spec_arr_items(s: Seq<char>, q: int) -> Option<(Seq<SpecJson>, int)>
    decreases s.len() - q, 1int
        when 0 <= q <= s.len()
{
    match spec_parse_value(s, q) {
        None => None,
        Some(vr) => {
            let gv = vr.0;
            let e = vr.1;
            let w0 = ws_end(s, q);
            if !(q <= w0 && w0 < e && e <= s.len()) {
                None
            } else {
                let w = ws_end(s, e);
                if !(e <= w && w <= s.len()) {
                    None
                } else if w == s.len() {
                    None
                } else if s[w] == ']' {
                    Some((seq![gv], w + 1))
                } else if s[w] == ',' {
                    match spec_arr_items(s, w + 1) {
                        None => None,
                        Some(rr) => Some((seq![gv] + rr.0, rr.1)),
                    }
                } else {
                    None
                }
            }
        },
    }
}

} // verus!
