//! Rendering a value tree back to text.

use crate::value::JsonValue;
use vstd::prelude::*;
use vstd::string::StringExecFns;

verus! {

broadcast use vstd::std_specs::vec::group_vec_axioms;

/// The canonical text of a value.  String content is wrapped in quotes
/// without re-escaping (a deliberate, documented asymmetry with the
/// parser), so only strings free of quotes, backslashes and control
/// characters render to re-parseable text.
pub open spec fn render_of(v: JsonValue) -> Seq<char>
    decreases v, 0int,
{
    match v {
        JsonValue::Null => "null"@,
        JsonValue::Boolean(b) => if b {
            "true"@
        } else {
            "false"@
        },
        JsonValue::Number(t) => t@,
        JsonValue::String(st) => seq!['"'] + st@ + seq!['"'],
        JsonValue::Array(items) => if items@.len() == 0 {
            "[]"@
        } else {
            seq!['['] + render_items(items@, 0) + seq![']']
        },
        JsonValue::Object(es) => if es@.len() == 0 {
            "{}"@
        } else {
            seq!['{'] + render_entries(es@, 0) + seq!['}']
        },
    }
}

/// The rendered elements from index `i` on, comma-space separated.
pub open spec fn render_items(items: Seq<JsonValue>, i: int) -> Seq<char>
    decreases items, items.len() - i + 1,
{
    if 0 <= i < items.len() {
        if i == items.len() - 1 {
            render_of(items[i])
        } else {
            render_of(items[i]) + seq![',', ' '] + render_items(items, i + 1)
        }
    } else {
        Seq::empty()
    }
}

/// The rendered `"key": value` entries from index `i` on, comma-space
/// separated.
pub open spec fn render_entries(es: Seq<(String, JsonValue)>, i: int) -> Seq<char>
    decreases es, es.len() - i + 1,
{
    if 0 <= i < es.len() {
        let entry = seq!['"'] + es[i].0@ + seq!['"', ':', ' '] + render_of(es[i].1);
        if i == es.len() - 1 {
            entry
        } else {
            entry + seq![',', ' '] + render_entries(es, i + 1)
        }
    } else {
        Seq::empty()
    }
}

impl JsonValue {
    /// Render this value to its canonical text: `null`, `true`/`false`,
    /// the number's own decimal text, quoted strings, `[..]` and
    /// `{..}` with `, `-separated contents, `[]` and `{}` when empty.
    #[verifier::rlimit(100)]
    pub fn to_text(&self) -> (r: String)
        ensures
            r@ == render_of(*self),
        decreases *self,
    {
        match self {
            JsonValue::Null => String::from_str("null"),
            JsonValue::Boolean(b) => if *b {
                String::from_str("true")
            } else {
                String::from_str("false")
            },
            JsonValue::Number(t) => {
                let mut out = String::new();
                out.append(t.as_str());
                proof {
                    assert(Seq::<char>::empty() + t@ =~= t@);
                }
                out
            },
            JsonValue::String(st) => {
                let mut out = String::from_str("\"");
                out.append(st.as_str());
                out.append("\"");
                proof {
                    reveal_strlit("\"");
                    assert(("\""@ + st@) + "\""@ =~= seq!['"'] + st@ + seq!['"']);
                }
                out
            },
            JsonValue::Array(items) => {
                if items.len() == 0 {
                    String::from_str("[]")
                } else {
                    let ghost iv = items@;
                    let mut out = String::from_str("[");
                    let t0 = items[0].to_text();
                    out.append(t0.as_str());
                    proof {
                        reveal_strlit("[");
                        assert("["@ =~= seq!['[']);
                        if iv.len() > 1 {
                            assert(render_items(iv, 0) == (render_of(iv[0]) + seq![',', ' '])
                                + render_items(iv, 1));
                            assert(("["@ + t0@) + (seq![',', ' '] + render_items(iv, 1))
                                =~= seq!['['] + render_items(iv, 0));
                        } else {
                            assert("["@ + t0@ =~= seq!['['] + render_items(iv, 0));
                        }
                    }
                    let mut i: usize = 1;
                    #[verifier::loop_isolation(false)]
                    while i < items.len()
                        invariant
                            *self == JsonValue::Array(*items),
                            iv == items@,
                            1 <= i <= iv.len(),
                            i < iv.len() ==> out@ + (seq![',', ' '] + render_items(iv, i as int))
                                == seq!['['] + render_items(iv, 0),
                            i == iv.len() ==> out@ == seq!['['] + render_items(iv, 0),
                        decreases iv.len() - i,
                    {
                        let ghost out0 = out@;
                        out.append(", ");
                        let t = items[i].to_text();
                        out.append(t.as_str());
                        proof {
                            reveal_strlit(", ");
                            assert(", "@ =~= seq![',', ' ']);
                            let sep = seq![',', ' '];
                            if i + 1 < iv.len() {
                                assert(render_items(iv, i as int) == (render_of(iv[i as int])
                                    + sep) + render_items(iv, i as int + 1));
                                assert(((out0 + ", "@) + t@) + (sep + render_items(
                                    iv,
                                    i as int + 1,
                                )) =~= out0 + (sep + render_items(iv, i as int)));
                            } else {
                                assert(render_items(iv, i as int) == render_of(iv[i as int]));
                                assert((out0 + ", "@) + t@ =~= out0 + (sep + render_items(
                                    iv,
                                    i as int,
                                )));
                            }
                        }
                        i = i + 1;
                    }
                    out.append("]");
                    proof {
                        reveal_strlit("]");
                        assert((seq!['['] + render_items(iv, 0)) + "]"@ =~= seq!['[']
                            + render_items(iv, 0) + seq![']']);
                    }
                    out
                }
            },
            JsonValue::Object(es) => {
                if es.len() == 0 {
                    String::from_str("{}")
                } else {
                    let ghost ev = es@;
                    let mut out = String::from_str("{");
                    let mut i: usize = 0;
                    #[verifier::loop_isolation(false)]
                    while i < es.len()
                        invariant
                            *self == JsonValue::Object(*es),
                            ev == es@,
                            0 <= i <= ev.len(),
                            0 < ev.len(),
                            i == 0 ==> out@ == "{"@,
                            0 < i < ev.len() ==> out@ + (seq![',', ' '] + render_entries(
                                ev,
                                i as int,
                            )) == seq!['{'] + render_entries(ev, 0),
                            i == ev.len() && i > 0 ==> out@ == seq!['{'] + render_entries(ev, 0),
                        decreases ev.len() - i,
                    {
                        let ghost out0 = out@;
                        if i > 0 {
                            out.append(", ");
                        }
                        out.append("\"");
                        out.append(es[i].0.as_str());
                        out.append("\": ");
                        let t = es[i].1.to_text();
                        out.append(t.as_str());
                        proof {
                            reveal_strlit("{");
                            reveal_strlit(", ");
                            reveal_strlit("\"");
                            reveal_strlit("\": ");
                            assert("\""@ =~= seq!['"']);
                            assert("\": "@ =~= seq!['"', ':', ' ']);
                            assert(", "@ =~= seq![',', ' ']);
                            assert("{"@ =~= seq!['{']);
                            let sep = seq![',', ' '];
                            let entry = ((seq!['"'] + ev[i as int].0@) + seq!['"', ':', ' '])
                                + render_of(ev[i as int].1);
                            assert(render_entries(ev, i as int) == (if i as int == ev.len() - 1 {
                                entry
                            } else {
                                (entry + sep) + render_entries(ev, i as int + 1)
                            }));
                            let pre = if i == 0 {
                                out0
                            } else {
                                out0 + sep
                            };
                            assert(out@ =~= pre + entry);
                            if i + 1 < ev.len() {
                                assert(out@ + (sep + render_entries(ev, i as int + 1)) =~= pre + (
                                entry + sep) + render_entries(ev, i as int + 1));
                                assert(pre + ((entry + sep) + render_entries(ev, i as int + 1))
                                    =~= pre + render_entries(ev, i as int));
                                if i == 0 {
                                    assert(out@ + (sep + render_entries(ev, 1)) =~= seq!['{']
                                        + render_entries(ev, 0));
                                } else {
                                    assert(out0 + (sep + render_entries(ev, i as int)) == seq!['{']
                                        + render_entries(ev, 0));
                                    assert(out@ + (sep + render_entries(ev, i as int + 1))
                                        =~= out0 + (sep + render_entries(ev, i as int)));
                                }
                            } else {
                                if i == 0 {
                                    assert(out@ =~= seq!['{'] + render_entries(ev, 0));
                                } else {
                                    assert(out@ =~= out0 + (sep + render_entries(ev, i as int)));
                                }
                            }
                        }
                        i = i + 1;
                    }
                    out.append("}");
                    proof {
                        reveal_strlit("}");
                        assert((seq!['{'] + render_entries(ev, 0)) + "}"@ =~= seq!['{']
                            + render_entries(ev, 0) + seq!['}']);
                    }
                    out
                }
            },
        }
    }
}

} // verus!
