//! Library-wide laws, proved once and for all against the grammar and
//! the rendering rule.

use crate::grammar::is_digit;
use crate::grammar::is_ws_char;
use crate::grammar::lemma_lex_number_embed;
use crate::grammar::lemma_lex_str_rest_plain;
use crate::grammar::lemma_ws_end_props;
use crate::grammar::lex_number;
use crate::grammar::lex_string;
use crate::grammar::spec_arr_items;
use crate::grammar::spec_obj_items;
use crate::grammar::spec_parse_array;
use crate::grammar::spec_parse_object;
use crate::grammar::spec_parse_value;
use crate::grammar::ws_end;
use crate::render::render_entries;
use crate::render::render_items;
use crate::render::render_of;
use crate::value::entries_distinct;
use crate::value::is_last_occurrence;
use crate::value::key_in;
use crate::value::obj_reflects;
use crate::value::reflects;
use crate::value::JsonValue;
use crate::value::SpecJson;
use vstd::prelude::*;

verus! {

broadcast use vstd::std_specs::vec::group_vec_axioms;

/// Text free of quotes and backslashes: exactly the content that the
/// renderer may emit into a string literal and the parser will read
/// back unchanged.
pub open spec fn plain_text(t: Seq<char>) -> bool {
    forall|i: int| 0 <= i < t.len() ==> t[i] != '"' && t[i] != '\\'
}

/// The values whose rendered text is owed to parse back to them:
/// number texts are complete matches of the number grammar and object
/// keys are pairwise distinct, as in every tree a parse builds; string
/// content and object keys must also be plain, since rendering wraps
/// them in quotes without re-escaping.
pub open spec fn round_trippable(v: JsonValue) -> bool
    decreases v, 0int,
{
    match v {
        JsonValue::Null => true,
        JsonValue::Boolean(_) => true,
        JsonValue::Number(t) => t@.len() > 0 && lex_number(t@, 0) == Some(t@.len() as int),
        JsonValue::String(st) => plain_text(st@),
        JsonValue::Array(items) => forall|i: int|
            0 <= i < items@.len() ==> round_trippable(#[trigger] items@[i]),
        JsonValue::Object(es) => entries_distinct(es@) && forall|i: int|
            0 <= i < es@.len() ==> plain_text((#[trigger] es@[i]).0@) && round_trippable(
                es@[i].1,
            ),
    }
}

/// Rendered text is nonempty and opens with the value's dispatch
/// character, which is never white space nor a structural terminator.
proof fn lemma_render_first(v: JsonValue)
    requires
        round_trippable(v),
    ensures
        render_of(v).len() > 0,
        !is_ws_char(render_of(v)[0]),
        render_of(v)[0] != ']',
        render_of(v)[0] != '}',
        render_of(v)[0] != ',',
        render_of(v)[0] != ':',
{
    match v {
        JsonValue::Null => {
            reveal_strlit("null");
        },
        JsonValue::Boolean(b) => {
            reveal_strlit("true");
            reveal_strlit("false");
        },
        JsonValue::Number(t) => {
            assert(t@[0] == '-' || is_digit(t@[0]));
        },
        JsonValue::String(st) => {
            assert(render_of(v)[0] == '"');
        },
        JsonValue::Array(items) => {
            if items@.len() == 0 {
                reveal_strlit("[]");
            } else {
                assert(render_of(v)[0] == '[');
            }
        },
        JsonValue::Object(es) => {
            if es@.len() == 0 {
                reveal_strlit("{}");
            } else {
                assert(render_of(v)[0] == '{');
            }
        },
    }
}

/// Parsing the literal texts `null`, `true` and `false` yields exactly
/// the corresponding value, consuming the whole text.  Together with
/// the contract of `parse`, which returns a value reflecting
/// `spec_parse_value(input@, 0)`, this pins the parse of each literal.
pub proof fn lemma_literals_parse_exactly()
    ensures
        spec_parse_value("null"@, 0) == Some((SpecJson::Null, 4int)),
        spec_parse_value("true"@, 0) == Some((SpecJson::Bool(true), 4int)),
        spec_parse_value("false"@, 0) == Some((SpecJson::Bool(false), 5int)),
{
    reveal_strlit("null");
    reveal_strlit("true");
    reveal_strlit("false");
    let n = "null"@;
    assert(ws_end(n, 0) == 0);
    assert(n.subrange(0, 4) =~= n);
    let t = "true"@;
    assert(ws_end(t, 0) == 0);
    assert(t.subrange(0, 4) =~= t);
    let f = "false"@;
    assert(ws_end(f, 0) == 0);
    assert(f.subrange(0, 5) =~= f);
}

/// An entry list whose textual mirror repeats no key is its own
/// mapping: index-for-index reflection gives `obj_reflects`.
proof fn lemma_obj_reflects_identity(
    es: Seq<(String, JsonValue)>,
    gents: Seq<(Seq<char>, SpecJson)>,
)
    requires
        entries_distinct(es),
        gents.len() == es.len(),
        forall|j: int|
            0 <= j < es.len() ==> (#[trigger] gents[j]).0 == es[j].0@ && reflects(
                es[j].1,
                gents[j].1,
            ),
    ensures
        obj_reflects(es, gents),
{
    assert forall|i: int| 0 <= i < es.len() implies key_in(gents, (#[trigger] es[i]).0@) by {
        assert(gents[i].0 == es[i].0@);
    }
    assert forall|j: int| is_last_occurrence(gents, j) implies exists|i: int|
        0 <= i < es.len() && (#[trigger] es[i]).0@ == gents[j].0 && reflects(
            es[i].1,
            gents[j].1,
        ) by {
        assert(0 <= j < es.len() && (#[trigger] es[j]).0@ == gents[j].0 && reflects(
            es[j].1,
            gents[j].1,
        ));
    }
}

/// The rendered text of `v`, standing at the white-space fixpoint
/// `pstart` of position `p` and followed by a separator, a closing
/// bracket or the end of the input, parses from `p` to exactly its
/// end, to a textual tree that the value reflects.
#[verifier::rlimit(100)]
proof fn lemma_render_parses_at(v: JsonValue, s: Seq<char>, p: int, pstart: int)
    requires
        round_trippable(v),
        0 <= p <= pstart,
        ws_end(s, p) == pstart,
        pstart + render_of(v).len() <= s.len(),
        s.subrange(pstart, pstart + render_of(v).len() as int) == render_of(v),
        pstart + render_of(v).len() == s.len() || s[pstart + render_of(v).len()] == ','
            || s[pstart + render_of(v).len()] == ']' || s[pstart + render_of(v).len()] == '}',
    ensures
        spec_parse_value(s, p) matches Some(g) && g.1 == pstart + render_of(v).len()
            && reflects(v, g.0),
    decreases v, 2int,
{
    let r = render_of(v);
    let n = r.len() as int;
    lemma_render_first(v);
    lemma_ws_end_props(s, p);
    assert forall|x: int| pstart <= x < pstart + n implies s[x] == r[x - pstart] by {
        assert(s.subrange(pstart, pstart + n)[x - pstart] == s[x]);
    }
    match v {
        JsonValue::Null => {
            reveal_strlit("null");
            assert(s.subrange(pstart, pstart + 4) =~= "null"@);
                    },
        JsonValue::Boolean(b) => {
            reveal_strlit("true");
            reveal_strlit("false");
            if b {
                assert(s.subrange(pstart, pstart + 4) =~= "true"@);
            } else {
                assert(s.subrange(pstart, pstart + 5) =~= "false"@);
            }
            assert(spec_parse_value(s, p) matches Some(g) && g.1 == pstart + n && reflects(v, g.0));
        },
        JsonValue::Number(t) => {
            lemma_lex_number_embed(t@, s, pstart);
            assert(s.subrange(pstart, pstart + n) =~= t@);
            assert(spec_parse_value(s, p) matches Some(g) && g.1 == pstart + n && reflects(v, g.0));
        },
        JsonValue::String(st) => {
            let a = seq!['"'] + st@;
            assert(r == a + seq!['"']);
            let e = pstart + 1 + st@.len() as int;
            assert(r[a.len() as int] == '"');
            assert(s[e] == '"');
            assert forall|x: int| pstart + 1 <= x < e implies s[x] != '"' && s[x] != '\\' by {
                assert(s[x] == r[x - pstart]);
                assert(r[x - pstart] == a[x - pstart]);
                assert(a[x - pstart] == st@[x - pstart - 1]);
            }
            lemma_lex_str_rest_plain(s, pstart + 1, e);
            assert(s.subrange(pstart + 1, e) =~= st@);
            assert(spec_parse_value(s, p) matches Some(g) && g.1 == pstart + n && reflects(v, g.0));
        },
        JsonValue::Array(items) => {
            if items@.len() == 0 {
                reveal_strlit("[]");
                assert(s[pstart] == '[' && s[pstart + 1] == ']');
                assert(ws_end(s, pstart + 1) == pstart + 1);
                assert(reflects(v, SpecJson::Arr(Seq::empty())));
                assert(spec_parse_value(s, p) matches Some(g) && g.1 == pstart + n && reflects(v, g.0));
            } else {
                let body = render_items(items@, 0);
                let a = seq!['['] + body;
                assert(r == a + seq![']']);
                assert(r[0] == '[');
                assert(s[pstart] == '[');
                assert(round_trippable(items@[0]));
                lemma_render_first(items@[0]);
                let r0 = render_of(items@[0]);
                if items@.len() == 1 {
                    assert(body == r0);
                } else {
                    assert(body == (r0 + seq![',', ' ']) + render_items(items@, 1));
                    assert(body[0] == (r0 + seq![',', ' '])[0]);
                    assert(body[0] == r0[0]);
                }
                assert(r[1] == a[1]);
                assert(a[1] == body[0]);
                assert(s[pstart + 1] == body[0]);
                assert(ws_end(s, pstart + 1) == pstart + 1);
                assert forall|j: int| 0 <= j < body.len() implies s.subrange(
                    pstart + 1,
                    pstart + 1 + body.len() as int,
                )[j] == body[j] by {
                    assert(s.subrange(pstart + 1, pstart + 1 + body.len() as int)[j] == s[pstart
                        + 1 + j]);
                    assert(s[pstart + 1 + j] == r[j + 1]);
                    assert(r[j + 1] == a[j + 1]);
                    assert(a[j + 1] == body[j]);
                }
                assert(s.subrange(pstart + 1, pstart + 1 + body.len() as int) =~= body);
                assert(r[(1 + body.len()) as int] == ']');
                assert(s[pstart + 1 + body.len()] == ']');
                lemma_items_parse(items@, 0, s, pstart + 1, pstart + 1);
                let rr = spec_arr_items(s, pstart + 1)->Some_0;
                assert(spec_parse_array(s, pstart + 1) == Some((SpecJson::Arr(rr.0), rr.1)));
                assert(reflects(v, SpecJson::Arr(rr.0)));
                assert(n == body.len() + 2);
                assert(rr.1 == pstart + n);
                assert(spec_parse_value(s, p) == spec_parse_array(s, pstart + 1));
                assert(spec_parse_value(s, p) matches Some(g) && g.1 == pstart + n && reflects(v, g.0));
            }
        },
        JsonValue::Object(es) => {
            if es@.len() == 0 {
                reveal_strlit("{}");
                assert(s[pstart] == '{' && s[pstart + 1] == '}');
                assert(ws_end(s, pstart + 1) == pstart + 1);
                assert(obj_reflects(es@, Seq::<(Seq<char>, SpecJson)>::empty()));
                assert(reflects(v, SpecJson::Obj(Seq::empty())));
                assert(spec_parse_value(s, p) matches Some(g) && g.1 == pstart + n && reflects(v, g.0));
            } else {
                let body = render_entries(es@, 0);
                let a = seq!['{'] + body;
                assert(r == a + seq!['}']);
                assert(r[0] == '{');
                assert(s[pstart] == '{');
                assert(body[0] == '"') by {
                    lemma_render_entries_head(es@, 0);
                }
                assert(r[1] == a[1]);
                assert(a[1] == body[0]);
                assert(s[pstart + 1] == body[0]);
                assert(ws_end(s, pstart + 1) == pstart + 1);
                assert forall|j: int| 0 <= j < body.len() implies s.subrange(
                    pstart + 1,
                    pstart + 1 + body.len() as int,
                )[j] == body[j] by {
                    assert(s.subrange(pstart + 1, pstart + 1 + body.len() as int)[j] == s[pstart
                        + 1 + j]);
                    assert(s[pstart + 1 + j] == r[j + 1]);
                    assert(r[j + 1] == a[j + 1]);
                    assert(a[j + 1] == body[j]);
                }
                assert(s.subrange(pstart + 1, pstart + 1 + body.len() as int) =~= body);
                assert(r[(1 + body.len()) as int] == '}');
                assert(s[pstart + 1 + body.len()] == '}');
                lemma_entries_parse(es@, 0, s, pstart + 1, pstart + 1);
                let rr = spec_obj_items(s, pstart + 1)->Some_0;
                assert(spec_parse_object(s, pstart + 1) == Some((SpecJson::Obj(rr.0), rr.1)));
                lemma_obj_reflects_identity(es@, rr.0);
                assert(reflects(v, SpecJson::Obj(rr.0)));
                assert(spec_parse_value(s, p) matches Some(g) && g.1 == pstart + n && reflects(v, g.0));
            }
        },
    }
}

/// Rendered entries open with the quote of their first key.
proof fn lemma_render_entries_head(es: Seq<(String, JsonValue)>, i: int)
    requires
        0 <= i < es.len(),
    ensures
        render_entries(es, i).len() > 0,
        render_entries(es, i)[0] == '"',
{
    let entry = ((seq!['"'] + es[i].0@) + seq!['"', ':', ' ']) + render_of(es[i].1);
    assert(entry[0] == ((seq!['"'] + es[i].0@) + seq!['"', ':', ' '])[0]);
    assert(entry[0] == (seq!['"'] + es[i].0@)[0]);
    if i < es.len() - 1 {
        assert(render_entries(es, i) == (entry + seq![',', ' ']) + render_entries(es, i + 1));
        assert(render_entries(es, i)[0] == (entry + seq![',', ' '])[0]);
    }
}

/// The rendered elements `items[i..]`, standing at the white-space
/// fixpoint `pstart` of `p` and followed by `]`, parse from `p` as an
/// element list ending just after that bracket.
proof fn lemma_items_parse(items: Seq<JsonValue>, i: int, s: Seq<char>, p: int, pstart: int)
    requires
        0 <= i < items.len(),
        forall|j: int| 0 <= j < items.len() ==> round_trippable(#[trigger] items[j]),
        0 <= p <= pstart,
        ws_end(s, p) == pstart,
        pstart + render_items(items, i).len() < s.len(),
        s.subrange(pstart, pstart + render_items(items, i).len() as int) == render_items(
            items,
            i,
        ),
        s[pstart + render_items(items, i).len()] == ']',
    ensures
        spec_arr_items(s, p) matches Some(rr) && rr.1 == pstart + render_items(items, i).len()
            + 1 && rr.0.len() == items.len() - i && forall|j: int|
            0 <= j < rr.0.len() ==> reflects(items[i + j], #[trigger] rr.0[j]),
    decreases items, items.len() - i,
{
    let seg = render_items(items, i);
    let m = seg.len() as int;
    assert forall|x: int| pstart <= x < pstart + m implies s[x] == seg[x - pstart] by {
        assert(s.subrange(pstart, pstart + m)[x - pstart] == s[x]);
    }
    let vi = items[i];
    lemma_render_first(vi);
    let ri = render_of(vi);
    let li = ri.len() as int;
    lemma_ws_end_props(s, p);
    if i == items.len() - 1 {
        assert(seg == ri);
        assert(s.subrange(pstart, pstart + li) =~= ri);
        lemma_render_parses_at(vi, s, p, pstart);
        let g = spec_parse_value(s, p)->Some_0;
        let e = pstart + li;
        assert(ws_end(s, e) == e);
        assert(spec_arr_items(s, p) == Some((seq![g.0], e + 1)));
    } else {
        let rest = render_items(items, i + 1);
        let a = ri + seq![',', ' '];
        assert(seg == a + rest);
        assert forall|j: int| 0 <= j < li implies s.subrange(pstart, pstart + li)[j] == ri[j] by {
            assert(s.subrange(pstart, pstart + li)[j] == s[pstart + j]);
            assert(s[pstart + j] == seg[j]);
            assert(seg[j] == a[j]);
            assert(a[j] == ri[j]);
        }
        assert(s.subrange(pstart, pstart + li) =~= ri);
        assert(seg[li] == a[li] && a[li] == ',');
        assert(s[pstart + li] == ',');
        assert(seg[li + 1] == a[li + 1] && a[li + 1] == ' ');
        assert(s[pstart + li + 1] == ' ');
        lemma_render_parses_at(vi, s, p, pstart);
        let g = spec_parse_value(s, p)->Some_0;
        let e = pstart + li;
        assert(ws_end(s, e) == e);
        assert(round_trippable(items[i + 1]));
        lemma_render_first(items[i + 1]);
        let r1 = render_of(items[i + 1]);
        if i + 1 == items.len() - 1 {
            assert(rest == r1);
        } else {
            assert(rest == (r1 + seq![',', ' ']) + render_items(items, i + 2));
            assert(rest[0] == (r1 + seq![',', ' '])[0]);
            assert(rest[0] == r1[0]);
        }
        assert(seg[li + 2] == rest[0]);
        assert(s[e + 2] == rest[0]);
        assert(is_ws_char(' '));
        assert(ws_end(s, e + 2) == e + 2);
        assert(ws_end(s, e + 1) == e + 2);
        assert forall|j: int| 0 <= j < rest.len() implies s.subrange(
            e + 2,
            e + 2 + rest.len() as int,
        )[j] == rest[j] by {
            assert(s.subrange(e + 2, e + 2 + rest.len() as int)[j] == s[e + 2 + j]);
            assert(s[e + 2 + j] == seg[li + 2 + j]);
            assert(seg[li + 2 + j] == rest[j]);
        }
        assert(s.subrange(e + 2, e + 2 + rest.len() as int) =~= rest);
        lemma_items_parse(items, i + 1, s, e + 1, e + 2);
        let rr2 = spec_arr_items(s, e + 1)->Some_0;
        assert(spec_arr_items(s, p) == Some((seq![g.0] + rr2.0, rr2.1)));
        assert forall|j: int| 0 <= j < (seq![g.0] + rr2.0).len() implies reflects(
            items[i + j],
            #[trigger] (seq![g.0] + rr2.0)[j],
        ) by {
            if j > 0 {
                assert((seq![g.0] + rr2.0)[j] == rr2.0[j - 1]);
            }
        }
    }
}

/// The rendered entries `es[i..]`, standing at the white-space
/// fixpoint `pstart` of `p` and followed by `}`, parse from `p` as an
/// entry list ending just after that brace, key for key and value for
/// value.
#[verifier::rlimit(100)]
proof fn lemma_entries_parse(
    es: Seq<(String, JsonValue)>,
    i: int,
    s: Seq<char>,
    p: int,
    pstart: int,
)
    requires
        0 <= i < es.len(),
        forall|j: int|
            0 <= j < es.len() ==> plain_text((#[trigger] es[j]).0@) && round_trippable(es[j].1),
        0 <= p <= pstart,
        ws_end(s, p) == pstart,
        pstart + render_entries(es, i).len() < s.len(),
        s.subrange(pstart, pstart + render_entries(es, i).len() as int) == render_entries(es, i),
        s[pstart + render_entries(es, i).len()] == '}',
    ensures
        spec_obj_items(s, p) matches Some(rr) && rr.1 == pstart + render_entries(es, i).len() + 1
            && rr.0.len() == es.len() - i && forall|j: int|
            0 <= j < rr.0.len() ==> (#[trigger] rr.0[j]).0 == es[i + j].0@ && reflects(
                es[i + j].1,
                rr.0[j].1,
            ),
    decreases es, es.len() - i,
{
    let seg = render_entries(es, i);
    let m = seg.len() as int;
    assert forall|x: int| pstart <= x < pstart + m implies s[x] == seg[x - pstart] by {
        assert(s.subrange(pstart, pstart + m)[x - pstart] == s[x]);
    }
    let key = es[i].0@;
    let kl = key.len() as int;
    let vi = es[i].1;
    lemma_render_first(vi);
    let ri = render_of(vi);
    let li = ri.len() as int;
    let qk = seq!['"'] + key;
    let qkc = qk + seq!['"', ':', ' '];
    let entry = qkc + ri;
    assert(render_entries(es, i) == (if i == es.len() - 1 {
        entry
    } else {
        (entry + seq![',', ' ']) + render_entries(es, i + 1)
    }));
    let el = entry.len() as int;
    assert(el == kl + li + 4);
    lemma_ws_end_props(s, p);
    assert forall|j: int| 0 <= j < el implies seg[j] == entry[j] by {
        if i < es.len() - 1 {
            assert(seg[j] == (entry + seq![',', ' '])[j]);
        }
    }
    assert(entry[0] == qkc[0] && qkc[0] == qk[0] && qk[0] == '"');
    assert(s[pstart] == '"');
    let ke = pstart + kl + 2;
    assert(entry[kl + 1] == qkc[kl + 1] && qkc[kl + 1] == '"');
    assert(s[ke - 1] == '"');
    assert forall|x: int| pstart + 1 <= x < ke - 1 implies s[x] != '"' && s[x] != '\\' by {
        assert(s[x] == seg[x - pstart]);
        assert(seg[x - pstart] == entry[x - pstart]);
        assert(entry[x - pstart] == qkc[x - pstart]);
        assert(qkc[x - pstart] == qk[x - pstart]);
        assert(qk[x - pstart] == key[x - pstart - 1]);
    }
    lemma_lex_str_rest_plain(s, pstart + 1, ke - 1);
    assert forall|j: int| 0 <= j < kl implies s.subrange(pstart + 1, ke - 1)[j] == key[j] by {
        assert(s.subrange(pstart + 1, ke - 1)[j] == s[pstart + 1 + j]);
        assert(s[pstart + 1 + j] == seg[1 + j]);
        assert(seg[1 + j] == entry[1 + j]);
        assert(entry[1 + j] == qkc[1 + j] && qkc[1 + j] == qk[1 + j] && qk[1 + j] == key[j]);
    }
    assert(s.subrange(pstart + 1, ke - 1) =~= key);
    assert(lex_string(s, pstart) == Some((key, ke)));
    assert(entry[kl + 2] == qkc[kl + 2] && qkc[kl + 2] == ':');
    assert(s[ke] == ':');
    assert(entry[kl + 3] == qkc[kl + 3] && qkc[kl + 3] == ' ');
    assert(s[ke + 1] == ' ');
    assert(entry[kl + 4] == ri[0]);
    assert(s[ke + 2] == ri[0]);
    assert(is_ws_char(' '));
    assert(ws_end(s, ke + 2) == ke + 2);
    assert(ws_end(s, ke + 1) == ke + 2);
    assert forall|j: int| 0 <= j < li implies s.subrange(ke + 2, ke + 2 + li)[j] == ri[j] by {
        assert(s.subrange(ke + 2, ke + 2 + li)[j] == s[ke + 2 + j]);
        assert(s[ke + 2 + j] == seg[kl + 4 + j]);
        assert(seg[kl + 4 + j] == entry[kl + 4 + j]);
        assert(entry[kl + 4 + j] == ri[j]);
    }
    assert(s.subrange(ke + 2, ke + 2 + li) =~= ri);
    assert(round_trippable(vi));
    lemma_render_parses_at(vi, s, ke + 1, ke + 2);
    let g = spec_parse_value(s, ke + 1)->Some_0;
    let e = ke + 2 + li;
    assert(e == pstart + el);
    if i == es.len() - 1 {
        assert(ws_end(s, e) == e);
        assert(spec_obj_items(s, p) == Some((seq![(key, g.0)], e + 1)));
    } else {
        let rest = render_entries(es, i + 1);
        assert(seg == (entry + seq![',', ' ']) + rest);
        assert(seg[el] == (entry + seq![',', ' '])[el] && (entry + seq![',', ' '])[el] == ',');
        assert(s[e] == ',');
        assert(seg[el + 1] == (entry + seq![',', ' '])[el + 1] && (entry + seq![',', ' '])[el + 1]
            == ' ');
        assert(s[e + 1] == ' ');
        assert(ws_end(s, e) == e);
        lemma_render_entries_head(es, i + 1);
        assert(seg[el + 2] == rest[0]);
        assert(s[e + 2] == rest[0] && rest[0] == '"');
        assert(ws_end(s, e + 2) == e + 2);
        assert(ws_end(s, e + 1) == e + 2);
        assert forall|j: int| 0 <= j < rest.len() implies s.subrange(
            e + 2,
            e + 2 + rest.len() as int,
        )[j] == rest[j] by {
            assert(s.subrange(e + 2, e + 2 + rest.len() as int)[j] == s[e + 2 + j]);
            assert(s[e + 2 + j] == seg[el + 2 + j]);
            assert(seg[el + 2 + j] == rest[j]);
        }
        assert(s.subrange(e + 2, e + 2 + rest.len() as int) =~= rest);
        lemma_entries_parse(es, i + 1, s, e + 1, e + 2);
        let rr2 = spec_obj_items(s, e + 1)->Some_0;
        assert(spec_obj_items(s, p) == Some((seq![(key, g.0)] + rr2.0, rr2.1)));
        assert forall|j: int| 0 <= j < (seq![(key, g.0)] + rr2.0).len() implies (#[trigger] (
        seq![(key, g.0)] + rr2.0)[j]).0 == es[i + j].0@ && reflects(
            es[i + j].1,
            (seq![(key, g.0)] + rr2.0)[j].1,
        ) by {
            if j > 0 {
                assert((seq![(key, g.0)] + rr2.0)[j] == rr2.0[j - 1]);
            }
        }
    }
}

/// Re-parsing the rendered text of a round-trippable value — number
/// texts complete grammar matches, string content and keys free of
/// quotes and backslashes, keys distinct, as in every tree the parser
/// builds — succeeds, consumes the whole text, and yields a parse
/// tree that the value reflects: the happy path is idempotent.
pub proof fn lemma_render_round_trip(v: JsonValue)
    requires
        round_trippable(v),
    ensures
        spec_parse_value(render_of(v), 0) matches Some(g) && g.1 == render_of(v).len()
            && reflects(v, g.0),
{
    let s = render_of(v);
    lemma_render_first(v);
    assert(ws_end(s, 0) == 0);
    assert(s.subrange(0, s.len() as int) =~= s);
    lemma_render_parses_at(v, s, 0, 0);
}

} // verus!
