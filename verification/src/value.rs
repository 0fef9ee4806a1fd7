//! The JSON value tree, its error type, and the ghost mirror of a parse.

use vstd::prelude::*;

verus! {

/// A parsed JSON value.
///
/// A number is kept as the exact decimal text that was matched by the
/// number grammar; an object is a list of key/value entries whose keys
/// are unique (when a key repeats in the input, the last value wins).
#[derive(Debug, PartialEq)]
pub enum JsonValue {
    Null,
    Boolean(bool),
    Number(String),
    String(String),
    Array(Vec<JsonValue>),
    Object(Vec<(String, JsonValue)>),
}

/// A parse error carrying a human-readable message.
///
/// Two errors compare equal whatever their messages: the contract of
/// the parser is "fails when malformed", not "fails with this text".
#[derive(Debug, Clone)]
pub struct JsonError(String);

impl JsonError {
    pub fn new(message: String) -> (e: JsonError)
        ensures
            e@ == message@,
    {
        JsonError(message)
    }

    /// The human-readable message.
    pub fn message(&self) -> (m: &String)
        ensures
            m@ == self@,
    {
        &self.0
    }

    pub closed spec fn view(&self) -> Seq<char> {
        self.0@
    }
}

impl PartialEq for JsonError {
    fn eq(&self, _other: &JsonError) -> bool {
        true
    }
}

impl vstd::std_specs::cmp::PartialEqSpecImpl for JsonError {
    open spec fn obeys_eq_spec() -> bool {
        true
    }

    open spec fn eq_spec(&self, _other: &JsonError) -> bool {
        true
    }
}

impl Eq for JsonError {}

/// The ghost shape of one textual JSON value, exactly as it stands in
/// the input: object entries appear in textual order and may repeat.
pub enum SpecJson {
    Null,
    Bool(bool),
    Num(Seq<char>),
    Str(Seq<char>),
    Arr(Seq<SpecJson>),
    Obj(Seq<(Seq<char>, SpecJson)>),
}

/// Whether some entry of `gents` has key `k`.
pub open spec fn key_in(gents: Seq<(Seq<char>, SpecJson)>, k: Seq<char>) -> bool {
    exists|j: int| 0 <= j < gents.len() && (#[trigger] gents[j]).0 == k
}

/// Whether index `j` holds the last entry of `gents` with its key.
pub open spec fn is_last_occurrence(gents: Seq<(Seq<char>, SpecJson)>, j: int) -> bool {
    &&& 0 <= j < gents.len()
    &&& forall|j2: int| j < j2 < gents.len() ==> (#[trigger] gents[j2]).0 != gents[j].0
}

/// Whether the keys of an entry list are pairwise distinct.
pub open spec fn entries_distinct(es: Seq<(String, JsonValue)>) -> bool {
    forall|i: int, j: int|
        0 <= i < j < es.len() ==> (#[trigger] es[i]).0@ != (#[trigger] es[j]).0@
}

/// `v` is the value tree built from the textual parse `g`.
///
/// Everything is pinned structurally except the order of object
/// entries, which carries no meaning for a JSON mapping: an object
/// holds one entry per distinct textual key, carrying the value of the
/// key's last textual occurrence.
pub open spec fn reflects(v: JsonValue, g: SpecJson) -> bool
    decreases g,
{
    match g {
        SpecJson::Null => v matches JsonValue::Null,
        SpecJson::Bool(b) => v matches JsonValue::Boolean(b2) && b2 == b,
        SpecJson::Num(t) => v matches JsonValue::Number(nt) && nt@ == t,
        SpecJson::Str(t) => v matches JsonValue::String(st) && st@ == t,
        SpecJson::Arr(gs) => v matches JsonValue::Array(items) && items@.len() == gs.len()
            && forall|i: int| 0 <= i < gs.len() ==> reflects(#[trigger] items@[i], gs[i]),
        SpecJson::Obj(gents) => v matches JsonValue::Object(es) && obj_reflects(es@, gents),
    }
}

/// The entry list `es` is the mapping described by the textual entry
/// sequence `gents`: keys unique, every key present, each key bound to
/// the value of its last textual occurrence.  Entry order is free.
pub open spec fn obj_reflects(es: Seq<(String, JsonValue)>, gents: Seq<(Seq<char>, SpecJson)>) -> bool
    decreases gents,
{
    &&& entries_distinct(es)
    &&& forall|i: int| 0 <= i < es.len() ==> key_in(gents, (#[trigger] es[i]).0@)
    &&& forall|j: int|
        is_last_occurrence(gents, j) ==> exists|i: int|
            0 <= i < es.len() && (#[trigger] es[i]).0@ == (#[trigger] gents[j]).0 && reflects(
                es[i].1,
                gents[j].1,
            )
}

/// Insert `key`/`value` into an entry list with pairwise-distinct keys:
/// when the key is already present its value is overwritten (last write
/// wins); otherwise a new entry is appended.
pub fn insert_entry(entries: &mut Vec<(String, JsonValue)>, key: String, value: JsonValue)
    requires
        entries_distinct(old(entries)@),
    ensures
        entries_distinct(final(entries)@),
        exists|i: int|
            0 <= i < final(entries)@.len() && (#[trigger] final(entries)@[i]).0@ == key@
                && final(entries)@[i].1 == value,
        forall|j: int|
            0 <= j < old(entries)@.len() && (#[trigger] old(entries)@[j]).0@ != key@
                ==> exists|i: int|
                0 <= i < final(entries)@.len()
                    && #[trigger] final(entries)@[i] == old(entries)@[j],
        forall|i: int|
            0 <= i < final(entries)@.len() ==> (#[trigger] final(entries)@[i]).0@ == key@
                || exists|j: int|
                0 <= j < old(entries)@.len() && #[trigger] old(entries)@[j] == final(entries)@[i],
{
    let n = entries.len();
    let mut i: usize = 0;
    while i < n
        invariant
            entries_distinct(old(entries)@),
            n == entries.len(),
            entries@ == old(entries)@,
            i <= n,
            forall|j: int| 0 <= j < i ==> (#[trigger] entries@[j]).0@ != key@,
        decreases n - i,
    {
        if entries[i].0 == key {
            let pair = entries.remove(i);
            entries.insert(i, (pair.0, value));
            proof {
                let es0 = old(entries)@;
                let es1 = entries@;
                assert(es1 =~= es0.update(i as int, (es0[i as int].0, value)));
                assert forall|a: int, b: int| 0 <= a < b < es1.len() implies (
                #[trigger] es1[a]).0@ != (#[trigger] es1[b]).0@ by {
                    assert(es1[a].0 == es0[a].0 && es1[b].0 == es0[b].0);
                }
                assert(0 <= i < es1.len() && (#[trigger] es1[i as int]).0@ == key@ && es1[
                    i as int
                ].1 == value);
                assert forall|j: int|
                    0 <= j < es0.len() && (#[trigger] es0[j]).0@ != key@ implies exists|a: int|
                    0 <= a < es1.len() && #[trigger] es1[a] == es0[j] by {
                    assert(j != i);
                    assert(es1[j] == es0[j]);
                }
                assert forall|a: int|
                    0 <= a < es1.len() implies (#[trigger] es1[a]).0@ == key@ || exists|j: int|
                    0 <= j < es0.len() && #[trigger] es0[j] == es1[a] by {
                    if a != i {
                        assert(es0[a] == es1[a]);
                    }
                }
            }
            return ;
        }
        i = i + 1;
    }
    entries.push((key, value));
    proof {
        let es0 = old(entries)@;
        let es1 = entries@;
        let n0 = es0.len() as int;
        assert(es1 == es0.push((key, value)));
        assert forall|a: int, b: int| 0 <= a < b < es1.len() implies (#[trigger] es1[a]).0@ != (
        #[trigger] es1[b]).0@ by {
            if b == n0 {
                assert(es1[a] == es0[a]);
                assert(es0[a].0@ != key@);
            } else {
                assert(es1[a] == es0[a] && es1[b] == es0[b]);
            }
        }
        assert(0 <= n0 < es1.len() && (#[trigger] es1[n0]).0@ == key@ && es1[n0].1 == value);
        assert forall|j: int|
            0 <= j < es0.len() && (#[trigger] es0[j]).0@ != key@ implies exists|a: int|
            0 <= a < es1.len() && #[trigger] es1[a] == es0[j] by {
            assert(es1[j] == es0[j]);
        }
        assert forall|a: int|
            0 <= a < es1.len() implies (#[trigger] es1[a]).0@ == key@ || exists|j: int|
            0 <= j < es0.len() && #[trigger] es0[j] == es1[a] by {
            if a != n0 {
                assert(es0[a] == es1[a]);
            }
        }
    }
}

/// Extending the textual entries with one more entry, and the entry
/// list with the matching overwrite-or-append, keeps them related.
pub proof fn lemma_insert_reflects(
    es0: Seq<(String, JsonValue)>,
    es1: Seq<(String, JsonValue)>,
    gents: Seq<(Seq<char>, SpecJson)>,
    key: Seq<char>,
    value: JsonValue,
    gv: SpecJson,
)
    requires
        obj_reflects(es0, gents),
        reflects(value, gv),
        entries_distinct(es1),
        exists|i: int| 0 <= i < es1.len() && (#[trigger] es1[i]).0@ == key && es1[i].1 == value,
        forall|j: int|
            0 <= j < es0.len() && (#[trigger] es0[j]).0@ != key ==> exists|i: int|
                0 <= i < es1.len() && #[trigger] es1[i] == es0[j],
        forall|i: int|
            0 <= i < es1.len() ==> (#[trigger] es1[i]).0@ == key || exists|j: int|
                0 <= j < es0.len() && #[trigger] es0[j] == es1[i],
    ensures
        obj_reflects(es1, gents.push((key, gv))),
{
    let g1 = gents.push((key, gv));
    assert forall|i: int| 0 <= i < es1.len() implies key_in(g1, (#[trigger] es1[i]).0@) by {
        if es1[i].0@ == key {
            assert(g1[gents.len() as int].0 == es1[i].0@);
        } else {
            let j = choose|j: int| 0 <= j < es0.len() && #[trigger] es0[j] == es1[i];
            assert(key_in(gents, es0[j].0@));
            let j2 = choose|j2: int| 0 <= j2 < gents.len() && (#[trigger] gents[j2]).0 == es0[j].0@;
            assert(g1[j2].0 == es1[i].0@);
        }
    }
    assert forall|j: int| is_last_occurrence(g1, j) implies exists|i: int|
        0 <= i < es1.len() && (#[trigger] es1[i]).0@ == g1[j].0 && reflects(es1[i].1, g1[j].1) by {
        if j == gents.len() {
            let i = choose|i: int|
                0 <= i < es1.len() && (#[trigger] es1[i]).0@ == key && es1[i].1 == value;
            assert(es1[i].0@ == g1[j].0 && reflects(es1[i].1, g1[j].1));
        } else {
            assert(g1[gents.len() as int].0 == key);
            assert(gents[j] == g1[j]);
            assert(g1[j].0 != key);
            assert(is_last_occurrence(gents, j)) by {
                assert(forall|j2: int|
                    j < j2 < gents.len() ==> (#[trigger] gents[j2]).0 == g1[j2].0);
            }
            assert(exists|i0: int|
                0 <= i0 < es0.len() && (#[trigger] es0[i0]).0@ == gents[j].0 && reflects(
                    es0[i0].1,
                    gents[j].1,
                ));
            let i0 = choose|i0: int|
                0 <= i0 < es0.len() && (#[trigger] es0[i0]).0@ == gents[j].0 && reflects(
                    es0[i0].1,
                    gents[j].1,
                );
            assert(es0[i0].0@ != key);
            let i1 = choose|i1: int| 0 <= i1 < es1.len() && #[trigger] es1[i1] == es0[i0];
            assert(es1[i1].0@ == g1[j].0 && reflects(es1[i1].1, g1[j].1));
        }
    }
}

} // verus!
