//! Lossless JSON modelling for CNI configuration documents and plugin
//! results.
//!
//! Values are kept reproducible rather than canonicalised: a number keeps the
//! bytes of its literal, and a string keeps the bytes between its quotes with
//! escape sequences verbatim.  Serialising a parsed value therefore preserves
//! every unknown plugin-specific key and its spelling; number scanning is
//! deliberately lenient (any run of sign/digit/dot/exponent bytes), since the
//! chain logic never needs a number's value, only its bytes.

use vstd::prelude::*;

verus! {

/// A JSON value.  `Num` holds the literal bytes of the number token;
/// `Str` holds the raw bytes between the quotes, escapes kept verbatim.
pub enum JsonValue {
    Null,
    Bool(bool),
    Num(Vec<u8>),
    Str(Vec<u8>),
    Arr(Vec<JsonValue>),
    Obj(Vec<(Vec<u8>, JsonValue)>),
}

/// The mathematical mirror of [`JsonValue`], over `Seq` instead of `Vec`;
/// contracts and the specification-level parser speak in this type.
pub ghost enum JVal {
    Null,
    Bool(bool),
    Num(Seq<u8>),
    Str(Seq<u8>),
    Arr(Seq<JVal>),
    Obj(Seq<(Seq<u8>, JVal)>),
}

/// The view of a value: the same tree over sequences.
pub open spec fn jval_of(v: JsonValue) -> JVal
    decreases v, 0int,
{
    match v {
        JsonValue::Null => JVal::Null,
        JsonValue::Bool(b) => JVal::Bool(b),
        JsonValue::Num(lit) => JVal::Num(lit@),
        JsonValue::Str(content) => JVal::Str(content@),
        JsonValue::Arr(elems) => JVal::Arr(jvals_of(elems@, 0)),
        JsonValue::Obj(members) => JVal::Obj(jmembers_of(members@, 0)),
    }
}

pub open spec fn jvals_of(elems: Seq<JsonValue>, i: int) -> Seq<JVal>
    decreases elems, elems.len() - i,
{
    if i < 0 || i >= elems.len() {
        Seq::empty()
    } else {
        seq![jval_of(elems[i])] + jvals_of(elems, i + 1)
    }
}

pub open spec fn jmembers_of(members: Seq<(Vec<u8>, JsonValue)>, i: int) -> Seq<(Seq<u8>, JVal)>
    decreases members, members.len() - i,
{
    if i < 0 || i >= members.len() {
        Seq::empty()
    } else {
        seq![(members[i].0@, jval_of(members[i].1))] + jmembers_of(members, i + 1)
    }
}

impl View for JsonValue {
    type V = JVal;

    open spec fn view(&self) -> JVal {
        jval_of(*self)
    }
}

pub broadcast proof fn lemma_jvals_of(elems: Seq<JsonValue>, i: int)
    requires
        0 <= i <= elems.len(),
    ensures
        (#[trigger] jvals_of(elems, i)).len() == elems.len() - i,
        forall|k: int|
            i <= k < elems.len() ==> jvals_of(elems, i)[k - i] == jval_of(#[trigger] elems[k]),
    decreases elems.len() - i,
{
    if i < elems.len() {
        lemma_jvals_of(elems, i + 1);
    }
}

pub broadcast proof fn lemma_jmembers_of(members: Seq<(Vec<u8>, JsonValue)>, i: int)
    requires
        0 <= i <= members.len(),
    ensures
        (#[trigger] jmembers_of(members, i)).len() == members.len() - i,
        forall|k: int|
            i <= k < members.len() ==> jmembers_of(members, i)[k - i] == (
            #[trigger] members[k].0@,
            jval_of(members[k].1),
            ),
    decreases members.len() - i,
{
    if i < members.len() {
        lemma_jmembers_of(members, i + 1);
    }
}

pub const QUOTE: u8 = 0x22;
pub const BACKSLASH: u8 = 0x5c;
pub const LBRACE: u8 = 0x7b;
pub const RBRACE: u8 = 0x7d;
pub const LBRACKET: u8 = 0x5b;
pub const RBRACKET: u8 = 0x5d;
pub const COMMA: u8 = 0x2c;
pub const COLON: u8 = 0x3a;

pub open spec fn is_ws(b: u8) -> bool {
    b == 0x20 || b == 0x09 || b == 0x0a || b == 0x0d
}

pub open spec fn is_digit(b: u8) -> bool {
    0x30 <= b && b <= 0x39
}

/// Bytes that may continue a number literal.
pub open spec fn is_num_byte(b: u8) -> bool {
    is_digit(b) || b == 0x2d || b == 0x2b || b == 0x2e || b == 0x65 || b == 0x45
}

/// The single characters that may follow a backslash in a string.
pub open spec fn is_simple_escape(b: u8) -> bool {
    b == QUOTE || b == BACKSLASH || b == 0x2f || b == 0x62 || b == 0x66 || b == 0x6e || b == 0x72
        || b == 0x74
}

pub open spec fn is_hex_digit(b: u8) -> bool {
    is_digit(b) || (0x41 <= b && b <= 0x46) || (0x61 <= b && b <= 0x66)
}

/// Valid raw content of a string: no unescaped quote, no control byte, every
/// backslash starts a complete escape sequence.
pub open spec fn wf_str_content(s: Seq<u8>) -> bool
    decreases s.len(),
{
    if s.len() == 0 {
        true
    } else if s[0] == QUOTE || s[0] < 0x20 {
        false
    } else if s[0] == BACKSLASH {
        if s.len() >= 2 && is_simple_escape(s[1]) {
            wf_str_content(s.skip(2))
        } else if s.len() >= 6 && s[1] == 0x75 && is_hex_digit(s[2]) && is_hex_digit(s[3])
            && is_hex_digit(s[4]) && is_hex_digit(s[5]) {
            wf_str_content(s.skip(6))
        } else {
            false
        }
    } else {
        wf_str_content(s.skip(1))
    }
}

/// Valid number literal: nonempty, starts with a digit or a minus sign, and
/// consists of number bytes only, so that a scanner reading a maximal run of
/// number bytes recovers exactly the literal.
pub open spec fn wf_num(s: Seq<u8>) -> bool {
    &&& s.len() > 0
    &&& (is_digit(s[0]) || s[0] == 0x2d)
    &&& forall|i: int| 0 <= i < s.len() ==> is_num_byte(#[trigger] s[i])
}

/// Well-formed values serialise to valid JSON text.
pub open spec fn wf_jval(v: JVal) -> bool
    decreases v, 1int,
{
    match v {
        JVal::Null => true,
        JVal::Bool(_) => true,
        JVal::Num(lit) => wf_num(lit),
        JVal::Str(content) => wf_str_content(content),
        JVal::Arr(elems) => forall|i: int| 0 <= i < elems.len() ==> wf_jval(#[trigger] elems[i]),
        JVal::Obj(members) => forall|i: int|
            0 <= i < members.len() ==> wf_member(#[trigger] members[i]),
    }
}

/// Well-formed object member: well-formed key content and value.
pub open spec fn wf_member(m: (Seq<u8>, JVal)) -> bool
    decreases m, 0int,
{
    wf_str_content(m.0) && wf_jval(m.1)
}

pub open spec fn null_bytes() -> Seq<u8> {
    seq![0x6eu8, 0x75, 0x6c, 0x6c]
}

pub open spec fn true_bytes() -> Seq<u8> {
    seq![0x74u8, 0x72, 0x75, 0x65]
}

pub open spec fn false_bytes() -> Seq<u8> {
    seq![0x66u8, 0x61, 0x6c, 0x73, 0x65]
}

/// Serialisation of a value, with no inserted whitespace.
pub open spec fn ser(v: JVal) -> Seq<u8>
    decreases v, 0int,
{
    match v {
        JVal::Null => null_bytes(),
        JVal::Bool(b) => if b {
            true_bytes()
        } else {
            false_bytes()
        },
        JVal::Num(lit) => lit,
        JVal::Str(content) => seq![QUOTE] + content + seq![QUOTE],
        JVal::Arr(elems) => seq![LBRACKET] + ser_elems(elems, 0) + seq![RBRACKET],
        JVal::Obj(members) => seq![LBRACE] + ser_members(members, 0) + seq![RBRACE],
    }
}

/// Serialisation of the array elements from index `i` on, comma-separated.
pub open spec fn ser_elems(elems: Seq<JVal>, i: int) -> Seq<u8>
    decreases elems, elems.len() - i,
{
    if i < 0 || i >= elems.len() {
        Seq::empty()
    } else if i == elems.len() - 1 {
        ser(elems[i])
    } else {
        ser(elems[i]) + seq![COMMA] + ser_elems(elems, i + 1)
    }
}

/// Serialisation of one object member: quoted key, colon, value.
pub open spec fn ser_member(m: (Seq<u8>, JVal)) -> Seq<u8>
    decreases m, 0int,
{
    seq![QUOTE] + m.0 + seq![QUOTE] + seq![COLON] + ser(m.1)
}

/// Serialisation of the object members from index `i` on, comma-separated.
pub open spec fn ser_members(members: Seq<(Seq<u8>, JVal)>, i: int) -> Seq<u8>
    decreases members, members.len() - i,
{
    if i < 0 || i >= members.len() {
        Seq::empty()
    } else if i == members.len() - 1 {
        ser_member(members[i])
    } else {
        ser_member(members[i]) + seq![COMMA] + ser_members(members, i + 1)
    }
}

/// The value of an object's first member named `key`, if any.
pub open spec fn obj_get(members: Seq<(Seq<u8>, JVal)>, key: Seq<u8>) -> Option<JVal>
    decreases members.len(),
{
    if members.len() == 0 {
        Option::None
    } else if members[0].0 == key {
        Option::Some(members[0].1)
    } else {
        obj_get(members.drop_first(), key)
    }
}

/// Overwrites the first member named `key` in place, or appends one.
pub open spec fn obj_set(members: Seq<(Seq<u8>, JVal)>, key: Seq<u8>, val: JVal) -> Seq<
    (Seq<u8>, JVal),
>
    decreases members.len(),
{
    if members.len() == 0 {
        seq![(key, val)]
    } else if members[0].0 == key {
        seq![(key, val)] + members.drop_first()
    } else {
        seq![members[0]] + obj_set(members.drop_first(), key, val)
    }
}

/// Setting a key makes it readable.
pub proof fn lemma_obj_set_get_same(ms: Seq<(Seq<u8>, JVal)>, key: Seq<u8>, val: JVal)
    ensures
        obj_get(obj_set(ms, key, val), key) == Option::Some(val),
    decreases ms.len(),
{
    if ms.len() > 0 && ms[0].0 != key {
        lemma_obj_set_get_same(ms.drop_first(), key, val);
        assert((seq![ms[0]] + obj_set(ms.drop_first(), key, val)).drop_first() =~= obj_set(
            ms.drop_first(),
            key,
            val,
        ));
    } else if ms.len() > 0 {
        assert((seq![(key, val)] + ms.drop_first())[0] == (key, val));
    }
}

/// Setting a key leaves every other key as it was.
pub proof fn lemma_obj_set_get_other(ms: Seq<(Seq<u8>, JVal)>, key: Seq<u8>, other: Seq<u8>, val: JVal)
    requires
        key != other,
    ensures
        obj_get(obj_set(ms, key, val), other) == obj_get(ms, other),
    decreases ms.len(),
{
    reveal_with_fuel(obj_get, 3);
    if ms.len() == 0 {
        assert(seq![(key, val)][0] == (key, val));
        assert(seq![(key, val)].drop_first() =~= Seq::<(Seq<u8>, JVal)>::empty());
    } else if ms[0].0 == key {
        assert((seq![(key, val)] + ms.drop_first())[0] == (key, val));
        assert((seq![(key, val)] + ms.drop_first()).drop_first() =~= ms.drop_first());
    } else {
        lemma_obj_set_get_other(ms.drop_first(), key, other, val);
        assert((seq![ms[0]] + obj_set(ms.drop_first(), key, val))[0] == ms[0]);
        assert((seq![ms[0]] + obj_set(ms.drop_first(), key, val)).drop_first() =~= obj_set(
            ms.drop_first(),
            key,
            val,
        ));
    }
}

/// Appends the bytes of `bytes` to `out`.
pub fn push_bytes(out: &mut Vec<u8>, bytes: &Vec<u8>)
    ensures
        final(out)@ == old(out)@ + bytes@,
{
    let mut k: usize = 0;
    while k < bytes.len()
        invariant
            k <= bytes.len(),
            out@ == old(out)@ + bytes@.subrange(0, k as int),
        decreases bytes.len() - k,
    {
        out.push(bytes[k]);
        k = k + 1;
        proof {
            assert(out@ =~= old(out)@ + bytes@.subrange(0, k as int));
        }
    }
    proof {
        assert(bytes@.subrange(0, bytes@.len() as int) =~= bytes@);
    }
}

/// Copies `s[a..b]` into a fresh vector.
pub fn copy_range(s: &Vec<u8>, a: usize, b: usize) -> (out: Vec<u8>)
    requires
        a <= b <= s@.len(),
    ensures
        out@ == s@.subrange(a as int, b as int),
{
    let mut out: Vec<u8> = Vec::new();
    let mut k: usize = a;
    while k < b
        invariant
            a <= k <= b <= s@.len(),
            out@ == s@.subrange(a as int, k as int),
        decreases b - k,
    {
        out.push(s[k]);
        k = k + 1;
        proof {
            assert(out@ =~= s@.subrange(a as int, k as int));
        }
    }
    out
}

/// Byte-vector equality.
pub fn bytes_eq(a: &Vec<u8>, b: &Vec<u8>) -> (r: bool)
    ensures
        r == (a@ == b@),
{
    if a.len() != b.len() {
        proof {
            assert(a@.len() != b@.len());
        }
        return false;
    }
    let mut k: usize = 0;
    while k < a.len()
        invariant
            k <= a@.len(),
            a@.len() == b@.len(),
            forall|i: int| 0 <= i < k ==> a@[i] == b@[i],
        decreases a.len() - k,
    {
        if a[k] != b[k] {
            return false;
        }
        k = k + 1;
    }
    proof {
        assert(a@ =~= b@);
    }
    true
}

/// Compares a byte vector against a static byte string.
pub fn bytes_eq_slice(a: &Vec<u8>, b: &[u8]) -> (r: bool)
    ensures
        r == (a@ == b@),
{
    if a.len() != b.len() {
        proof {
            assert(a@.len() != b@.len());
        }
        return false;
    }
    let mut k: usize = 0;
    while k < a.len()
        invariant
            k <= a@.len(),
            a@.len() == b@.len(),
            forall|i: int| 0 <= i < k ==> a@[i] == b@[i],
        decreases a.len() - k,
    {
        if a[k] != *vstd::slice::slice_index_get(b, k) {
            return false;
        }
        k = k + 1;
    }
    proof {
        assert(a@ =~= b@);
    }
    true
}

/// Where `key` first occurs at index `k`, `obj_get` returns that member's value.
pub proof fn lemma_obj_get_at(ms: Seq<(Seq<u8>, JVal)>, k: int, key: Seq<u8>)
    requires
        0 <= k < ms.len(),
        ms[k].0 == key,
        forall|i: int| 0 <= i < k ==> (#[trigger] ms[i]).0 != key,
    ensures
        obj_get(ms, key) == Option::Some(ms[k].1),
    decreases k,
{
    if k > 0 {
        lemma_obj_get_at(ms.drop_first(), k - 1, key);
    }
}

/// Where `key` occurs nowhere, `obj_get` returns nothing.
pub proof fn lemma_obj_get_missing(ms: Seq<(Seq<u8>, JVal)>, key: Seq<u8>)
    requires
        forall|i: int| 0 <= i < ms.len() ==> (#[trigger] ms[i]).0 != key,
    ensures
        obj_get(ms, key) is None,
    decreases ms.len(),
{
    if ms.len() > 0 {
        lemma_obj_get_missing(ms.drop_first(), key);
    }
}

/// Where `key` first occurs at index `k`, `obj_set` overwrites that member in place.
pub proof fn lemma_obj_set_at(ms: Seq<(Seq<u8>, JVal)>, k: int, key: Seq<u8>, val: JVal)
    requires
        0 <= k < ms.len(),
        ms[k].0 == key,
        forall|i: int| 0 <= i < k ==> (#[trigger] ms[i]).0 != key,
    ensures
        obj_set(ms, key, val) =~= ms.update(k, (key, val)),
    decreases k,
{
    if k == 0 {
        assert(seq![(key, val)] + ms.drop_first() =~= ms.update(0, (key, val)));
    } else {
        lemma_obj_set_at(ms.drop_first(), k - 1, key, val);
        assert(seq![ms[0]] + ms.drop_first().update(k - 1, (key, val)) =~= ms.update(
            k,
            (key, val),
        ));
    }
}

/// Where `key` occurs nowhere, `obj_set` appends a member.
pub proof fn lemma_obj_set_missing(ms: Seq<(Seq<u8>, JVal)>, key: Seq<u8>, val: JVal)
    requires
        forall|i: int| 0 <= i < ms.len() ==> (#[trigger] ms[i]).0 != key,
    ensures
        obj_set(ms, key, val) =~= ms.push((key, val)),
    decreases ms.len(),
{
    if ms.len() == 0 {
        assert(seq![(key, val)] =~= ms.push((key, val)));
    } else {
        lemma_obj_set_missing(ms.drop_first(), key, val);
        assert(seq![ms[0]] + ms.drop_first().push((key, val)) =~= ms.push((key, val)));
    }
}

/// Index of the first member named `key`, scanning left to right.
fn members_index(members: &Vec<(Vec<u8>, JsonValue)>, key: &Vec<u8>) -> (r: Option<usize>)
    ensures
        match r {
            Option::Some(k) => {
                &&& k < members@.len()
                &&& members@[k as int].0@ == key@
                &&& forall|i: int| 0 <= i < k ==> (#[trigger] members@[i]).0@ != key@
            },
            Option::None => forall|i: int|
                0 <= i < members@.len() ==> (#[trigger] members@[i]).0@ != key@,
        },
{
    let mut k: usize = 0;
    while k < members.len()
        invariant
            k <= members@.len(),
            forall|i: int| 0 <= i < k ==> (#[trigger] members@[i]).0@ != key@,
        decreases members.len() - k,
    {
        if bytes_eq(&members[k].0, key) {
            return Option::Some(k);
        }
        k = k + 1;
    }
    Option::None
}

/// Looks up the first member named `key` of an object's member list.
pub fn members_find<'a>(members: &'a Vec<(Vec<u8>, JsonValue)>, key: &Vec<u8>) -> (r: Option<
    &'a JsonValue,
>)
    ensures
        match r {
            Option::Some(v) => obj_get(jmembers_of(members@, 0), key@) == Option::Some(jval_of(*v)),
            Option::None => obj_get(jmembers_of(members@, 0), key@) is None,
        },
{
    proof {
        lemma_jmembers_of(members@, 0);
    }
    let ghost pre = jmembers_of(members@, 0);
    match members_index(members, key) {
        Option::Some(k) => {
            proof {
                assert forall|i: int| 0 <= i < k implies (#[trigger] pre[i]).0 != key@ by {
                    assert(pre[i] == (members@[i].0@, jval_of(members@[i].1)));
                }
                assert(pre[k as int] == (members@[k as int].0@, jval_of(members@[k as int].1)));
                lemma_obj_get_at(pre, k as int, key@);
            }
            Option::Some(&members[k].1)
        },
        Option::None => {
            proof {
                assert forall|i: int| 0 <= i < pre.len() implies (#[trigger] pre[i]).0 != key@ by {
                    assert(pre[i] == (members@[i].0@, jval_of(members@[i].1)));
                }
                lemma_obj_get_missing(pre, key@);
            }
            Option::None
        },
    }
}

/// Overwrites the first member named `key`, or appends one, in place.
pub fn members_set(members: &mut Vec<(Vec<u8>, JsonValue)>, key: Vec<u8>, val: JsonValue)
    ensures
        jmembers_of(final(members)@, 0) =~= obj_set(
            jmembers_of(old(members)@, 0),
            key@,
            jval_of(val),
        ),
{
    proof {
        lemma_jmembers_of(members@, 0);
    }
    let ghost pre = jmembers_of(members@, 0);
    let ghost pre_members = members@;
    match members_index(members, &key) {
        Option::Some(k) => {
            proof {
                assert forall|i: int| 0 <= i < k implies (#[trigger] pre[i]).0 != key@ by {
                    assert(pre[i] == (pre_members[i].0@, jval_of(pre_members[i].1)));
                }
                assert(pre[k as int].0 == pre_members[k as int].0@);
                lemma_obj_set_at(pre, k as int, key@, jval_of(val));
            }
            members.set(k, (key, val));
            proof {
                lemma_jmembers_of(members@, 0);
                assert forall|i: int| 0 <= i < members@.len() implies jmembers_of(members@, 0)[i]
                    == pre.update(k as int, (key@, jval_of(val)))[i] by {
                    assert(jmembers_of(members@, 0)[i] == (
                        members@[i].0@,
                        jval_of(members@[i].1),
                    ));
                    if i != k {
                        assert(members@[i] == pre_members[i]);
                        assert(pre[i] == (pre_members[i].0@, jval_of(pre_members[i].1)));
                    }
                }
                assert(jmembers_of(members@, 0) =~= pre.update(k as int, (key@, jval_of(val))));
            }
        },
        Option::None => {
            proof {
                assert forall|i: int| 0 <= i < pre.len() implies (#[trigger] pre[i]).0 != key@ by {
                    assert(pre[i] == (pre_members[i].0@, jval_of(pre_members[i].1)));
                }
                lemma_obj_set_missing(pre, key@, jval_of(val));
            }
            members.push((key, val));
            proof {
                lemma_jmembers_of(members@, 0);
                assert forall|i: int| 0 <= i < members@.len() implies jmembers_of(members@, 0)[i]
                    == pre.push((key@, jval_of(val)))[i] by {
                    assert(jmembers_of(members@, 0)[i] == (
                        members@[i].0@,
                        jval_of(members@[i].1),
                    ));
                    if i < pre.len() {
                        assert(members@[i] == pre_members[i]);
                        assert(pre[i] == (pre_members[i].0@, jval_of(pre_members[i].1)));
                    }
                }
                assert(jmembers_of(members@, 0) =~= pre.push((key@, jval_of(val))));
            }
        },
    }
}

/// Appends the serialisation of `v` to `out`.
pub fn write_value(v: &JsonValue, out: &mut Vec<u8>)
    ensures
        final(out)@ == old(out)@ + ser(jval_of(*v)),
    decreases *v, 0int,
{
    match v {
        JsonValue::Null => {
            out.push(0x6e);
            out.push(0x75);
            out.push(0x6c);
            out.push(0x6c);
            proof {
                assert(out@ =~= old(out)@ + null_bytes());
            }
        },
        JsonValue::Bool(b) => {
            if *b {
                out.push(0x74);
                out.push(0x72);
                out.push(0x75);
                out.push(0x65);
                proof {
                    assert(out@ =~= old(out)@ + true_bytes());
                }
            } else {
                out.push(0x66);
                out.push(0x61);
                out.push(0x6c);
                out.push(0x73);
                out.push(0x65);
                proof {
                    assert(out@ =~= old(out)@ + false_bytes());
                }
            }
        },
        JsonValue::Num(lit) => {
            push_bytes(out, lit);
        },
        JsonValue::Str(content) => {
            out.push(QUOTE);
            push_bytes(out, content);
            out.push(QUOTE);
            proof {
                assert(out@ =~= old(out)@ + (seq![QUOTE] + content@ + seq![QUOTE]));
            }
        },
        JsonValue::Arr(elems) => {
            out.push(LBRACKET);
            write_elems(elems, 0, out);
            out.push(RBRACKET);
            proof {
                assert(out@ =~= old(out)@ + (seq![LBRACKET] + ser_elems(jvals_of(elems@, 0), 0)
                    + seq![RBRACKET]));
            }
        },
        JsonValue::Obj(members) => {
            out.push(LBRACE);
            write_members(members, 0, out);
            out.push(RBRACE);
            proof {
                assert(out@ =~= old(out)@ + (seq![LBRACE] + ser_members(jmembers_of(members@, 0), 0)
                    + seq![RBRACE]));
            }
        },
    }
}

/// Appends the serialisation of the elements of `elems` from `i` on.
pub fn write_elems(elems: &Vec<JsonValue>, i: usize, out: &mut Vec<u8>)
    ensures
        final(out)@ == old(out)@ + ser_elems(jvals_of(elems@, 0), i as int),
    decreases elems@, elems@.len() - i,
{
    proof {
        lemma_jvals_of(elems@, 0);
    }
    if i < elems.len() {
        write_value(&elems[i], out);
        proof {
            assert(jvals_of(elems@, 0)[i as int] == jval_of(elems@[i as int]));
        }
        if i + 1 < elems.len() {
            out.push(COMMA);
            write_elems(elems, i + 1, out);
            proof {
                assert(out@ =~= old(out)@ + ser_elems(jvals_of(elems@, 0), i as int));
            }
        }
    }
}

/// Appends the serialisation of the members of `members` from `i` on.
pub fn write_members(members: &Vec<(Vec<u8>, JsonValue)>, i: usize, out: &mut Vec<u8>)
    ensures
        final(out)@ == old(out)@ + ser_members(jmembers_of(members@, 0), i as int),
    decreases members@, members@.len() - i,
{
    proof {
        lemma_jmembers_of(members@, 0);
    }
    if i < members.len() {
        let member = &members[i];
        out.push(QUOTE);
        push_bytes(out, &member.0);
        out.push(QUOTE);
        out.push(COLON);
        write_value(&member.1, out);
        proof {
            assert(jmembers_of(members@, 0)[i as int] == (
                members@[i as int].0@,
                jval_of(members@[i as int].1),
            ));
            assert(out@ =~= old(out)@ + ser_member(jmembers_of(members@, 0)[i as int]));
        }
        if i + 1 < members.len() {
            out.push(COMMA);
            write_members(members, i + 1, out);
            proof {
                assert(out@ =~= old(out)@ + ser_members(jmembers_of(members@, 0), i as int));
            }
        }
    }
}

/// Serialises a value to fresh bytes.
pub fn to_bytes(v: &JsonValue) -> (out: Vec<u8>)
    ensures
        out@ == ser(jval_of(*v)),
{
    let mut out: Vec<u8> = Vec::new();
    write_value(v, &mut out);
    out
}

} // verus!
