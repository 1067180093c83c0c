//! JSON parsing: a specification-level parser over byte sequences, and an
//! executable parser proved to return exactly what the specification parser
//! describes.
//!
//! The parser accepts the documents the serialiser in [`crate::json`]
//! produces, plus arbitrary whitespace between tokens.  It is strict about
//! strings (escape sequences must be complete) and lenient about numbers
//! (any run of sign/digit/dot/exponent bytes is one number token).

use vstd::prelude::*;

use crate::json::{
    is_digit, is_hex_digit, is_num_byte, is_simple_escape, is_ws, jmembers_of, jval_of, jvals_of,
    lemma_jmembers_of, lemma_jvals_of, copy_range, JVal, JsonValue, BACKSLASH, COLON, COMMA,
    LBRACE, LBRACKET, QUOTE, RBRACE, RBRACKET,
};

verus! {

/// First index at or after `i` holding no whitespace.
pub open spec fn skip_ws(s: Seq<u8>, i: int) -> int
    decreases s.len() - i,
{
    if 0 <= i && i < s.len() && is_ws(s[i]) {
        skip_ws(s, i + 1)
    } else {
        i
    }
}

pub proof fn lemma_skip_ws(s: Seq<u8>, i: int)
    requires
        0 <= i <= s.len(),
    ensures
        i <= skip_ws(s, i) <= s.len(),
        skip_ws(s, i) < s.len() ==> !is_ws(s[skip_ws(s, i)]),
    decreases s.len() - i,
{
    if i < s.len() && is_ws(s[i]) {
        lemma_skip_ws(s, i + 1);
    }
}

/// Index of the closing quote of a string whose content starts at `i`, if
/// the content is well formed.
pub open spec fn scan_string(s: Seq<u8>, i: int) -> Option<int>
    decreases s.len() - i,
{
    if i < 0 || i >= s.len() {
        Option::None
    } else if s[i] == QUOTE {
        Option::Some(i)
    } else if s[i] < 0x20 {
        Option::None
    } else if s[i] == BACKSLASH {
        if i + 2 <= s.len() && is_simple_escape(s[i + 1]) {
            scan_string(s, i + 2)
        } else if i + 6 <= s.len() && s[i + 1] == 0x75 && is_hex_digit(s[i + 2]) && is_hex_digit(
            s[i + 3],
        ) && is_hex_digit(s[i + 4]) && is_hex_digit(s[i + 5]) {
            scan_string(s, i + 6)
        } else {
            Option::None
        }
    } else {
        scan_string(s, i + 1)
    }
}

pub proof fn lemma_scan_string(s: Seq<u8>, i: int)
    requires
        0 <= i <= s.len(),
        scan_string(s, i) is Some,
    ensures
        i <= scan_string(s, i)->Some_0 < s.len(),
        s[scan_string(s, i)->Some_0] == QUOTE,
    decreases s.len() - i,
{
    if i < s.len() && s[i] != QUOTE && s[i] >= 0x20 {
        if s[i] == BACKSLASH {
            if i + 2 <= s.len() && is_simple_escape(s[i + 1]) {
                lemma_scan_string(s, i + 2);
            } else {
                lemma_scan_string(s, i + 6);
            }
        } else {
            lemma_scan_string(s, i + 1);
        }
    }
}

/// End of a maximal run of number bytes starting at `i`.
pub open spec fn scan_num_end(s: Seq<u8>, i: int) -> int
    decreases s.len() - i,
{
    if 0 <= i && i < s.len() && is_num_byte(s[i]) {
        scan_num_end(s, i + 1)
    } else {
        i
    }
}

/// Parses one value at or after `i`, skipping leading whitespace; returns the
/// value and the index just past it.
pub open spec fn parse_value(s: Seq<u8>, i: int) -> Option<(JVal, int)>
    decreases s.len() - i, 2int,
{
    let j = skip_ws(s, i);
    if i < 0 || j < i || j >= s.len() {
        Option::None
    } else {
        let b = s[j];
        if b == LBRACE {
            let k = skip_ws(s, j + 1);
            if k < s.len() && s[k] == RBRACE {
                Option::Some((JVal::Obj(Seq::empty()), k + 1))
            } else {
                match parse_members(s, j + 1) {
                    Option::None => Option::None,
                    Option::Some((ms, m)) => Option::Some((JVal::Obj(ms), m)),
                }
            }
        } else if b == LBRACKET {
            let k = skip_ws(s, j + 1);
            if k < s.len() && s[k] == RBRACKET {
                Option::Some((JVal::Arr(Seq::empty()), k + 1))
            } else {
                match parse_elems(s, j + 1) {
                    Option::None => Option::None,
                    Option::Some((es, m)) => Option::Some((JVal::Arr(es), m)),
                }
            }
        } else if b == QUOTE {
            match scan_string(s, j + 1) {
                Option::None => Option::None,
                Option::Some(e) => Option::Some((JVal::Str(s.subrange(j + 1, e)), e + 1)),
            }
        } else if b == 0x74 {
            if s.len() - j >= 4 && s[j + 1] == 0x72 && s[j + 2] == 0x75 && s[j + 3] == 0x65 {
                Option::Some((JVal::Bool(true), j + 4))
            } else {
                Option::None
            }
        } else if b == 0x66 {
            if s.len() - j >= 5 && s[j + 1] == 0x61 && s[j + 2] == 0x6c && s[j + 3] == 0x73 && s[j
                + 4] == 0x65 {
                Option::Some((JVal::Bool(false), j + 5))
            } else {
                Option::None
            }
        } else if b == 0x6e {
            if s.len() - j >= 4 && s[j + 1] == 0x75 && s[j + 2] == 0x6c && s[j + 3] == 0x6c {
                Option::Some((JVal::Null, j + 4))
            } else {
                Option::None
            }
        } else if is_digit(b) || b == 0x2d {
            Option::Some((JVal::Num(s.subrange(j, scan_num_end(s, j + 1))), scan_num_end(s, j + 1)))
        } else {
            Option::None
        }
    }
}

/// Parses `value (, value)* ]` starting just after a `[` or a `,`.
pub open spec fn parse_elems(s: Seq<u8>, i: int) -> Option<(Seq<JVal>, int)>
    decreases s.len() - i, 3int,
{
    if i < 0 {
        Option::None
    } else {
        match parse_value(s, i) {
            Option::None => Option::None,
            Option::Some((v, j)) => {
                if j <= i || j > s.len() {
                    Option::None
                } else {
                    let k = skip_ws(s, j);
                    if k < j || k >= s.len() {
                        Option::None
                    } else if s[k] == COMMA {
                        match parse_elems(s, k + 1) {
                            Option::None => Option::None,
                            Option::Some((rest, m)) => Option::Some((seq![v] + rest, m)),
                        }
                    } else if s[k] == RBRACKET {
                        Option::Some((seq![v], k + 1))
                    } else {
                        Option::None
                    }
                }
            },
        }
    }
}

/// Parses `"key" : value (, "key" : value)* }` starting just after a `{` or a `,`.
pub open spec fn parse_members(s: Seq<u8>, i: int) -> Option<(Seq<(Seq<u8>, JVal)>, int)>
    decreases s.len() - i, 3int,
{
    let j = skip_ws(s, i);
    if i < 0 || j < i || j >= s.len() || s[j] != QUOTE {
        Option::None
    } else {
        match scan_string(s, j + 1) {
            Option::None => Option::None,
            Option::Some(e) => {
                if e < j + 1 || e >= s.len() {
                    Option::None
                } else {
                    let key = s.subrange(j + 1, e);
                    let c = skip_ws(s, e + 1);
                    if c < e + 1 || c >= s.len() || s[c] != COLON {
                        Option::None
                    } else {
                        match parse_value(s, c + 1) {
                            Option::None => Option::None,
                            Option::Some((v, m)) => {
                                if m <= c || m > s.len() {
                                    Option::None
                                } else {
                                    let k = skip_ws(s, m);
                                    if k < m || k >= s.len() {
                                        Option::None
                                    } else if s[k] == COMMA {
                                        match parse_members(s, k + 1) {
                                            Option::None => Option::None,
                                            Option::Some((rest, q)) => Option::Some(
                                                (seq![(key, v)] + rest, q),
                                            ),
                                        }
                                    } else if s[k] == RBRACE {
                                        Option::Some((seq![(key, v)], k + 1))
                                    } else {
                                        Option::None
                                    }
                                }
                            },
                        }
                    }
                }
            },
        }
    }
}

/// Parses a whole document: one value with nothing but whitespace after it.
pub open spec fn spec_parse(s: Seq<u8>) -> Option<JVal> {
    match parse_value(s, 0) {
        Option::None => Option::None,
        Option::Some((v, j)) => if 0 <= j <= s.len() && skip_ws(s, j) == s.len() {
            Option::Some(v)
        } else {
            Option::None
        },
    }
}

fn is_ws_exec(b: u8) -> (r: bool)
    ensures
        r == is_ws(b),
{
    b == 0x20 || b == 0x09 || b == 0x0a || b == 0x0d
}

fn is_num_byte_exec(b: u8) -> (r: bool)
    ensures
        r == is_num_byte(b),
{
    (0x30 <= b && b <= 0x39) || b == 0x2d || b == 0x2b || b == 0x2e || b == 0x65 || b == 0x45
}

fn is_simple_escape_exec(b: u8) -> (r: bool)
    ensures
        r == is_simple_escape(b),
{
    b == QUOTE || b == BACKSLASH || b == 0x2f || b == 0x62 || b == 0x66 || b == 0x6e || b == 0x72
        || b == 0x74
}

fn is_hex_digit_exec(b: u8) -> (r: bool)
    ensures
        r == is_hex_digit(b),
{
    (0x30 <= b && b <= 0x39) || (0x41 <= b && b <= 0x46) || (0x61 <= b && b <= 0x66)
}

fn skip_ws_exec(s: &Vec<u8>, i: usize) -> (r: usize)
    requires
        i <= s@.len(),
    ensures
        r == skip_ws(s@, i as int),
        i <= r <= s@.len(),
{
    let mut k: usize = i;
    while k < s.len() && is_ws_exec(s[k])
        invariant
            i <= k <= s@.len(),
            skip_ws(s@, i as int) == skip_ws(s@, k as int),
        decreases s@.len() - k,
    {
        k = k + 1;
    }
    k
}

fn scan_string_exec(s: &Vec<u8>, i: usize) -> (r: Option<usize>)
    requires
        i <= s@.len(),
    ensures
        match r {
            Option::Some(e) => scan_string(s@, i as int) == Option::Some(e as int) && i <= e
                < s@.len(),
            Option::None => scan_string(s@, i as int) is None,
        },
{
    let mut k: usize = i;
    loop
        invariant
            i <= k <= s@.len(),
            scan_string(s@, i as int) == scan_string(s@, k as int),
        decreases s@.len() - k,
    {
        if k >= s.len() {
            return Option::None;
        }
        let b = s[k];
        if b == QUOTE {
            return Option::Some(k);
        }
        if b < 0x20 {
            return Option::None;
        }
        if b == BACKSLASH {
            if s.len() - k >= 2 && is_simple_escape_exec(s[k + 1]) {
                k = k + 2;
            } else if s.len() - k >= 6 && s[k + 1] == 0x75 && is_hex_digit_exec(s[k + 2])
                && is_hex_digit_exec(s[k + 3]) && is_hex_digit_exec(s[k + 4]) && is_hex_digit_exec(
                s[k + 5],
            ) {
                k = k + 6;
            } else {
                return Option::None;
            }
        } else {
            k = k + 1;
        }
    }
}

fn scan_num_exec(s: &Vec<u8>, i: usize) -> (r: usize)
    requires
        i <= s@.len(),
    ensures
        r == scan_num_end(s@, i as int),
        i <= r <= s@.len(),
{
    let mut k: usize = i;
    while k < s.len() && is_num_byte_exec(s[k])
        invariant
            i <= k <= s@.len(),
            scan_num_end(s@, i as int) == scan_num_end(s@, k as int),
        decreases s@.len() - k,
    {
        k = k + 1;
    }
    k
}

/// Executable mirror of [`parse_value`].
pub fn parse_value_at(s: &Vec<u8>, i: usize) -> (r: Option<(JsonValue, usize)>)
    requires
        i <= s@.len(),
    ensures
        match r {
            Option::Some(p) => parse_value(s@, i as int) == Option::Some(
                (jval_of(p.0), p.1 as int),
            ) && i < p.1 <= s@.len(),
            Option::None => parse_value(s@, i as int) is None,
        },
    decreases s@.len() - i, 2int,
{
    let j = skip_ws_exec(s, i);
    if j >= s.len() {
        return Option::None;
    }
    let b = s[j];
    if b == LBRACE {
        let k = skip_ws_exec(s, j + 1);
        if k < s.len() && s[k] == RBRACE {
            let out = JsonValue::Obj(Vec::new());
            proof {
                assert(jval_of(out) == JVal::Obj(Seq::<(Seq<u8>, JVal)>::empty()));
            }
            return Option::Some((out, k + 1));
        }
        match parse_members_at(s, j + 1) {
            Option::None => Option::None,
            Option::Some((ms, m)) => Option::Some((JsonValue::Obj(ms), m)),
        }
    } else if b == LBRACKET {
        let k = skip_ws_exec(s, j + 1);
        if k < s.len() && s[k] == RBRACKET {
            let out = JsonValue::Arr(Vec::new());
            proof {
                assert(jval_of(out) == JVal::Arr(Seq::<JVal>::empty()));
            }
            return Option::Some((out, k + 1));
        }
        match parse_elems_at(s, j + 1) {
            Option::None => Option::None,
            Option::Some((es, m)) => Option::Some((JsonValue::Arr(es), m)),
        }
    } else if b == QUOTE {
        match scan_string_exec(s, j + 1) {
            Option::None => Option::None,
            Option::Some(e) => {
                let content = copy_range(s, j + 1, e);
                Option::Some((JsonValue::Str(content), e + 1))
            },
        }
    } else if b == 0x74 {
        if s.len() - j >= 4 && s[j + 1] == 0x72 && s[j + 2] == 0x75 && s[j + 3] == 0x65 {
            Option::Some((JsonValue::Bool(true), j + 4))
        } else {
            Option::None
        }
    } else if b == 0x66 {
        if s.len() - j >= 5 && s[j + 1] == 0x61 && s[j + 2] == 0x6c && s[j + 3] == 0x73 && s[j + 4]
            == 0x65 {
            Option::Some((JsonValue::Bool(false), j + 5))
        } else {
            Option::None
        }
    } else if b == 0x6e {
        if s.len() - j >= 4 && s[j + 1] == 0x75 && s[j + 2] == 0x6c && s[j + 3] == 0x6c {
            Option::Some((JsonValue::Null, j + 4))
        } else {
            Option::None
        }
    } else if (0x30 <= b && b <= 0x39) || b == 0x2d {
        let e = scan_num_exec(s, j + 1);
        let lit = copy_range(s, j, e);
        Option::Some((JsonValue::Num(lit), e))
    } else {
        Option::None
    }
}

/// Executable mirror of [`parse_elems`].
pub fn parse_elems_at(s: &Vec<u8>, i: usize) -> (r: Option<(Vec<JsonValue>, usize)>)
    requires
        i <= s@.len(),
    ensures
        match r {
            Option::Some(p) => parse_elems(s@, i as int) == Option::Some(
                (jvals_of(p.0@, 0), p.1 as int),
            ) && i < p.1 <= s@.len(),
            Option::None => parse_elems(s@, i as int) is None,
        },
    decreases s@.len() - i, 3int,
{
    match parse_value_at(s, i) {
        Option::None => Option::None,
        Option::Some((v, j)) => {
            let k = skip_ws_exec(s, j);
            if k >= s.len() {
                return Option::None;
            }
            if s[k] == COMMA {
                match parse_elems_at(s, k + 1) {
                    Option::None => Option::None,
                    Option::Some((mut rest, m)) => {
                        let ghost rest_view = rest@;
                        let mut out: Vec<JsonValue> = Vec::new();
                        out.push(v);
                        out.append(&mut rest);
                        proof {
                            lemma_jvals_of(out@, 0);
                            lemma_jvals_of(rest_view, 0);
                            assert forall|q: int| 0 <= q < out@.len() implies jvals_of(out@, 0)[q]
                                == (seq![jval_of(v)] + jvals_of(rest_view, 0))[q] by {
                                assert(jvals_of(out@, 0)[q] == jval_of(out@[q]));
                                if q > 0 {
                                    assert(out@[q] == rest_view[q - 1]);
                                    assert(jvals_of(rest_view, 0)[q - 1] == jval_of(
                                        rest_view[q - 1],
                                    ));
                                }
                            }
                            assert(jvals_of(out@, 0) =~= seq![jval_of(v)] + jvals_of(
                                rest_view,
                                0,
                            ));
                        }
                        Option::Some((out, m))
                    },
                }
            } else if s[k] == RBRACKET {
                let mut out: Vec<JsonValue> = Vec::new();
                out.push(v);
                proof {
                    lemma_jvals_of(out@, 0);
                    assert(jvals_of(out@, 0) =~= seq![jval_of(v)]);
                }
                Option::Some((out, k + 1))
            } else {
                Option::None
            }
        },
    }
}

/// Executable mirror of [`parse_members`].
pub fn parse_members_at(s: &Vec<u8>, i: usize) -> (r: Option<(Vec<(Vec<u8>, JsonValue)>, usize)>)
    requires
        i <= s@.len(),
    ensures
        match r {
            Option::Some(p) => parse_members(s@, i as int) == Option::Some(
                (jmembers_of(p.0@, 0), p.1 as int),
            ) && i < p.1 <= s@.len(),
            Option::None => parse_members(s@, i as int) is None,
        },
    decreases s@.len() - i, 3int,
{
    let j = skip_ws_exec(s, i);
    if j >= s.len() {
        return Option::None;
    }
    if s[j] != QUOTE {
        return Option::None;
    }
    match scan_string_exec(s, j + 1) {
        Option::None => Option::None,
        Option::Some(e) => {
            let key = copy_range(s, j + 1, e);
            let c = skip_ws_exec(s, e + 1);
            if c >= s.len() {
                return Option::None;
            }
            if s[c] != COLON {
                return Option::None;
            }
            match parse_value_at(s, c + 1) {
                Option::None => Option::None,
                Option::Some((v, m)) => {
                    let k = skip_ws_exec(s, m);
                    if k >= s.len() {
                        return Option::None;
                    }
                    if s[k] == COMMA {
                        match parse_members_at(s, k + 1) {
                            Option::None => Option::None,
                            Option::Some((mut rest, q)) => {
                                let ghost rest_view = rest@;
                                let ghost key_view = key@;
                                let ghost v_view = jval_of(v);
                                let mut out: Vec<(Vec<u8>, JsonValue)> = Vec::new();
                                out.push((key, v));
                                out.append(&mut rest);
                                proof {
                                    lemma_jmembers_of(out@, 0);
                                    lemma_jmembers_of(rest_view, 0);
                                    assert forall|t: int| 0 <= t < out@.len() implies jmembers_of(
                                        out@,
                                        0,
                                    )[t] == (seq![(key_view, v_view)] + jmembers_of(
                                        rest_view,
                                        0,
                                    ))[t] by {
                                        assert(jmembers_of(out@, 0)[t] == (
                                            out@[t].0@,
                                            jval_of(out@[t].1),
                                        ));
                                        if t > 0 {
                                            assert(out@[t] == rest_view[t - 1]);
                                            assert(jmembers_of(rest_view, 0)[t - 1] == (
                                                rest_view[t - 1].0@,
                                                jval_of(rest_view[t - 1].1),
                                            ));
                                        }
                                    }
                                    assert(jmembers_of(out@, 0) =~= seq![(key_view, v_view)]
                                        + jmembers_of(rest_view, 0));
                                }
                                Option::Some((out, q))
                            },
                        }
                    } else if s[k] == RBRACE {
                        let ghost key_view = key@;
                        let ghost v_view = jval_of(v);
                        let mut out: Vec<(Vec<u8>, JsonValue)> = Vec::new();
                        out.push((key, v));
                        proof {
                            lemma_jmembers_of(out@, 0);
                            assert(jmembers_of(out@, 0) =~= seq![(key_view, v_view)]);
                        }
                        Option::Some((out, k + 1))
                    } else {
                        Option::None
                    }
                },
            }
        },
    }
}

/// Parses a whole document; returns the value exactly when [`spec_parse`]
/// gives one, and that value's view is the one [`spec_parse`] gives.
pub fn parse_document(s: &Vec<u8>) -> (r: Option<JsonValue>)
    ensures
        match r {
            Option::Some(v) => spec_parse(s@) == Option::Some(jval_of(v)),
            Option::None => spec_parse(s@) is None,
        },
{
    match parse_value_at(s, 0) {
        Option::None => Option::None,
        Option::Some((v, j)) => {
            let k = skip_ws_exec(s, j);
            if k == s.len() {
                Option::Some(v)
            } else {
                Option::None
            }
        },
    }
}

/// A well-formed value's serialisation is nonempty, starts with one of the
/// value-opening bytes, and in particular starts with no whitespace and no
/// number byte continuation hazard for the surrounding text.
pub proof fn lemma_ser_head(v: JVal)
    requires
        crate::json::wf_jval(v),
    ensures
        crate::json::ser(v).len() > 0,
        !is_ws(crate::json::ser(v)[0]),
        ({
            let b = crate::json::ser(v)[0];
            b == LBRACE || b == LBRACKET || b == QUOTE || b == 0x74 || b == 0x66 || b == 0x6e
                || is_digit(b) || b == 0x2d
        }),
{
    match v {
        JVal::Null => {},
        JVal::Bool(_) => {},
        JVal::Num(lit) => {},
        JVal::Str(content) => {},
        JVal::Arr(elems) => {},
        JVal::Obj(members) => {},
    }
}

/// Scanning well-formed string content ends exactly at the closing quote.
pub proof fn lemma_scan_string_content(s: Seq<u8>, i: int, content: Seq<u8>)
    requires
        crate::json::wf_str_content(content),
        0 <= i,
        i + content.len() < s.len(),
        s.subrange(i, i + content.len() as int) == content,
        s[i + content.len()] == QUOTE,
    ensures
        scan_string(s, i) == Option::Some(i + content.len() as int),
    decreases content.len(),
{
    if content.len() == 0 {
        assert(s[i] == QUOTE);
    } else {
        assert(s[i] == content[0]);
        if content[0] == BACKSLASH {
            if content.len() >= 2 && is_simple_escape(content[1]) {
                assert(s[i + 1] == content[1]);
                assert(s.subrange(i + 2, i + 2 + (content.len() - 2) as int) =~= content.skip(2));
                lemma_scan_string_content(s, i + 2, content.skip(2));
            } else {
                assert(content.len() >= 6);
                assert(s[i + 1] == content[1]);
                assert(s[i + 2] == content[2]);
                assert(s[i + 3] == content[3]);
                assert(s[i + 4] == content[4]);
                assert(s[i + 5] == content[5]);
                assert(!(i + 2 <= s.len() && is_simple_escape(s[i + 1])));
                assert(s.subrange(i + 6, i + 6 + (content.len() - 6) as int) =~= content.skip(6));
                lemma_scan_string_content(s, i + 6, content.skip(6));
            }
        } else {
            assert(s.subrange(i + 1, i + 1 + (content.len() - 1) as int) =~= content.skip(1));
            lemma_scan_string_content(s, i + 1, content.skip(1));
        }
    }
}

/// Scanning a run of number bytes ends exactly where the run ends.
pub proof fn lemma_scan_num_run(s: Seq<u8>, a: int, b: int)
    requires
        0 <= a <= b <= s.len(),
        forall|t: int| a <= t < b ==> is_num_byte(#[trigger] s[t]),
        b == s.len() || !is_num_byte(s[b]),
    ensures
        scan_num_end(s, a) == b,
    decreases b - a,
{
    if a < b {
        lemma_scan_num_run(s, a + 1, b);
    }
}

/// The bytes a number scan passes over are number bytes, and the successful
/// scan of a string yields well-formed content.
pub proof fn lemma_scan_num_bytes(s: Seq<u8>, i: int)
    requires
        0 <= i <= s.len(),
    ensures
        i <= scan_num_end(s, i) <= s.len(),
        forall|t: int| i <= t < scan_num_end(s, i) ==> is_num_byte(#[trigger] s[t]),
        scan_num_end(s, i) < s.len() ==> !is_num_byte(s[scan_num_end(s, i)]),
    decreases s.len() - i,
{
    if i < s.len() && is_num_byte(s[i]) {
        lemma_scan_num_bytes(s, i + 1);
    }
}

/// The content between a scan's start and the closing quote it found is
/// well formed.
pub proof fn lemma_scan_string_wf(s: Seq<u8>, i: int)
    requires
        0 <= i <= s.len(),
        scan_string(s, i) is Some,
    ensures
        crate::json::wf_str_content(s.subrange(i, scan_string(s, i)->Some_0)),
    decreases s.len() - i,
{
    lemma_scan_string(s, i);
    let e = scan_string(s, i)->Some_0;
    if s[i] == QUOTE {
        assert(s.subrange(i, i) =~= Seq::<u8>::empty());
    } else if s[i] == BACKSLASH {
        if i + 2 <= s.len() && is_simple_escape(s[i + 1]) {
            lemma_scan_string(s, i + 2);
            lemma_scan_string_wf(s, i + 2);
            assert(s.subrange(i, e).skip(2) =~= s.subrange(i + 2, e));
            assert(s.subrange(i, e)[0] == s[i]);
            assert(s.subrange(i, e)[1] == s[i + 1]);
        } else {
            lemma_scan_string(s, i + 6);
            lemma_scan_string_wf(s, i + 6);
            assert(s.subrange(i, e).skip(6) =~= s.subrange(i + 6, e));
            assert(s.subrange(i, e)[0] == s[i]);
            assert(s.subrange(i, e)[1] == s[i + 1]);
            assert(s.subrange(i, e)[2] == s[i + 2]);
            assert(s.subrange(i, e)[3] == s[i + 3]);
            assert(s.subrange(i, e)[4] == s[i + 4]);
            assert(s.subrange(i, e)[5] == s[i + 5]);
        }
    } else {
        lemma_scan_string_wf(s, i + 1);
        assert(s.subrange(i, e).skip(1) =~= s.subrange(i + 1, e));
        assert(s.subrange(i, e)[0] == s[i]);
    }
}

/// Pointwise view of a subrange equation: every byte of `w` sits in `s` at
/// its offset from `i`.
pub proof fn lemma_window(s: Seq<u8>, i: int, w: Seq<u8>)
    requires
        0 <= i,
        i + w.len() <= s.len(),
        s.subrange(i, i + w.len() as int) == w,
    ensures
        forall|t: int| i <= t < i + w.len() ==> (#[trigger] s[t]) == w[t - i],
{
    assert forall|t: int| i <= t < i + w.len() implies (#[trigger] s[t]) == w[t - i] by {
        assert(s.subrange(i, i + w.len() as int)[t - i] == s[t]);
    }
}

/// Parsing the serialisation of a well-formed value, embedded in a larger
/// text and not followed by a number byte, yields the value back.
#[verifier::rlimit(80)]
pub proof fn lemma_parse_of_ser(v: JVal, s: Seq<u8>, i: int)
    requires
        crate::json::wf_jval(v),
        0 <= i,
        i + crate::json::ser(v).len() <= s.len(),
        s.subrange(i, i + crate::json::ser(v).len() as int) == crate::json::ser(v),
        i + crate::json::ser(v).len() < s.len() ==> !is_num_byte(s[i + crate::json::ser(v).len()]),
    ensures
        parse_value(s, i) == Option::Some((v, i + crate::json::ser(v).len() as int)),
    decreases v, 0int,
{
    let w = crate::json::ser(v);
    lemma_ser_head(v);
    lemma_window(s, i, w);
    assert(s[i] == w[0]);
    assert(skip_ws(s, i) == i);
    match v {
        JVal::Null => {},
        JVal::Bool(b) => {},
        JVal::Num(lit) => {
            assert forall|t: int| i + 1 <= t < i + lit.len() implies is_num_byte(
                #[trigger] s[t],
            ) by {
                assert(s[t] == lit[t - i]);
            }
            lemma_scan_num_run(s, i + 1, i + lit.len() as int);
            assert(s.subrange(i, i + lit.len() as int) == lit);
        },
        JVal::Str(content) => {
            assert(s.subrange(i + 1, i + 1 + content.len() as int) =~= content);
            assert(s[i + 1 + content.len()] == w[content.len() as int + 1]);
            lemma_scan_string_content(s, i + 1, content);
            assert(s.subrange(i + 1, i + 1 + content.len() as int) == content);
        },
        JVal::Arr(elems) => {
            if elems.len() == 0 {
                assert(s[i + 1] == w[1]);
                assert(skip_ws(s, i + 1) == i + 1);
                assert(elems =~= Seq::<JVal>::empty());
            } else {
                let body = crate::json::ser_elems(elems, 0);
                assert(crate::json::wf_jval(elems[0]));
                lemma_ser_head(elems[0]);
                assert(body[0] == crate::json::ser(elems[0])[0]);
                assert(s[i + 1] == w[1]);
                assert(w[1] == body[0]);
                assert(skip_ws(s, i + 1) == i + 1);
                assert(s.subrange(i + 1, i + 1 + body.len() as int) =~= body);
                assert(s[i + 1 + body.len()] == w[body.len() as int + 1]);
                lemma_parse_of_ser_elems(elems, 0, s, i + 1);
                assert(elems.skip(0) =~= elems);
            }
        },
        JVal::Obj(members) => {
            if members.len() == 0 {
                assert(s[i + 1] == w[1]);
                assert(skip_ws(s, i + 1) == i + 1);
                assert(members =~= Seq::<(Seq<u8>, JVal)>::empty());
            } else {
                let body = crate::json::ser_members(members, 0);
                assert(body[0] == crate::json::ser_member(members[0])[0]);
                assert(s[i + 1] == w[1]);
                assert(w[1] == body[0]);
                assert(skip_ws(s, i + 1) == i + 1);
                assert(s.subrange(i + 1, i + 1 + body.len() as int) =~= body);
                assert(s[i + 1 + body.len()] == w[body.len() as int + 1]);
                lemma_parse_of_ser_members(members, 0, s, i + 1);
                assert(members.skip(0) =~= members);
            }
        },
    }
}

/// Parsing the serialised elements `k..` of a well-formed array, followed by
/// the closing bracket, yields those elements back.
pub proof fn lemma_parse_of_ser_elems(elems: Seq<JVal>, k: int, s: Seq<u8>, i: int)
    requires
        0 <= k < elems.len(),
        forall|t: int| 0 <= t < elems.len() ==> crate::json::wf_jval(#[trigger] elems[t]),
        0 <= i,
        i + crate::json::ser_elems(elems, k).len() + 1 <= s.len(),
        s.subrange(i, i + crate::json::ser_elems(elems, k).len() as int) == crate::json::ser_elems(
            elems,
            k,
        ),
        s[i + crate::json::ser_elems(elems, k).len()] == RBRACKET,
    ensures
        parse_elems(s, i) == Option::Some(
            (elems.skip(k), i + crate::json::ser_elems(elems, k).len() + 1),
        ),
    decreases elems, elems.len() - k,
{
    let body = crate::json::ser_elems(elems, k);
    let e0 = elems[k];
    let w0 = crate::json::ser(e0);
    lemma_ser_head(e0);
    lemma_window(s, i, body);
    if k == elems.len() - 1 {
        assert(body == w0);
        lemma_parse_of_ser(e0, s, i);
        let j = i + w0.len() as int;
        assert(s[j] == RBRACKET);
        assert(skip_ws(s, j) == j);
        assert(seq![e0] =~= elems.skip(k));
    } else {
        assert(body =~= w0 + seq![COMMA] + crate::json::ser_elems(elems, k + 1));
        assert(s.subrange(i, i + w0.len() as int) =~= w0);
        let j = i + w0.len() as int;
        assert(s[j] == body[w0.len() as int]);
        assert(body[w0.len() as int] == COMMA);
        lemma_parse_of_ser(e0, s, i);
        assert(skip_ws(s, j) == j);
        let rest = crate::json::ser_elems(elems, k + 1);
        assert(s.subrange(j + 1, j + 1 + rest.len() as int) =~= rest);
        assert(s[j + 1 + rest.len()] == s[i + body.len()]);
        lemma_parse_of_ser_elems(elems, k + 1, s, j + 1);
        assert(seq![e0] + elems.skip(k + 1) =~= elems.skip(k));
    }
}

/// Parsing the serialised members `k..` of a well-formed object, followed by
/// the closing brace, yields those members back.
pub proof fn lemma_parse_of_ser_members(
    members: Seq<(Seq<u8>, JVal)>,
    k: int,
    s: Seq<u8>,
    i: int,
)
    requires
        0 <= k < members.len(),
        forall|t: int| 0 <= t < members.len() ==> crate::json::wf_member(#[trigger] members[t]),
        0 <= i,
        i + crate::json::ser_members(members, k).len() + 1 <= s.len(),
        s.subrange(i, i + crate::json::ser_members(members, k).len() as int)
            == crate::json::ser_members(members, k),
        s[i + crate::json::ser_members(members, k).len()] == RBRACE,
    ensures
        parse_members(s, i) == Option::Some(
            (members.skip(k), i + crate::json::ser_members(members, k).len() + 1),
        ),
    decreases members, members.len() - k,
{
    let body = crate::json::ser_members(members, k);
    let m0 = crate::json::ser_member(members[k]);
    let key = members[k].0;
    let val = members[k].1;
    let w0 = crate::json::ser(val);
    lemma_ser_head(val);
    lemma_window(s, i, body);
    assert(m0 =~= seq![QUOTE] + key + seq![QUOTE] + seq![COLON] + w0);
    if k == members.len() - 1 {
        assert(body == m0);
    } else {
        assert(body =~= m0 + seq![COMMA] + crate::json::ser_members(members, k + 1));
    }
    assert forall|t: int| i <= t < i + m0.len() implies (#[trigger] s[t]) == m0[t - i] by {
        assert(s[t] == body[t - i]);
        assert(body[t - i] == m0[t - i]);
    }
    assert(s[i] == QUOTE);
    assert(skip_ws(s, i) == i);
    assert(s.subrange(i + 1, i + 1 + key.len() as int) =~= key);
    assert(s[i + 1 + key.len()] == m0[key.len() as int + 1]);
    assert(m0[key.len() as int + 1] == QUOTE);
    lemma_scan_string_content(s, i + 1, key);
    let e = i + 1 + key.len() as int;
    assert(s[e + 1] == m0[key.len() as int + 2]);
    assert(m0[key.len() as int + 2] == COLON);
    assert(skip_ws(s, e + 1) == e + 1);
    let c = e + 1;
    assert(s.subrange(c + 1, c + 1 + w0.len() as int) =~= w0);
    let m = c + 1 + w0.len() as int;
    assert(m == i + m0.len());
    if k == members.len() - 1 {
        assert(s[m] == RBRACE);
        assert(!is_num_byte(RBRACE));
        lemma_parse_of_ser(val, s, c + 1);
        assert(skip_ws(s, m) == m);
        assert(s.subrange(i + 1, e) == key);
        assert((s.subrange(i + 1, e), val) == members[k]);
        assert(seq![members[k]] =~= members.skip(k));
    } else {
        assert(s[m] == body[m0.len() as int]);
        assert(body[m0.len() as int] == COMMA);
        assert(!is_num_byte(COMMA));
        lemma_parse_of_ser(val, s, c + 1);
        assert(skip_ws(s, m) == m);
        let rest = crate::json::ser_members(members, k + 1);
        assert(s.subrange(m + 1, m + 1 + rest.len() as int) =~= rest);
        assert(s[m + 1 + rest.len()] == s[i + body.len()]);
        lemma_parse_of_ser_members(members, k + 1, s, m + 1);
        assert(s.subrange(i + 1, e) == key);
        assert((s.subrange(i + 1, e), val) == members[k]);
        assert(seq![members[k]] + members.skip(k + 1) =~= members.skip(k));
    }
}

/// Whatever the parser accepts is well formed, and parsing advances.
pub proof fn lemma_parse_value_wf(s: Seq<u8>, i: int)
    requires
        0 <= i <= s.len(),
    ensures
        parse_value(s, i) matches Option::Some(p) ==> crate::json::wf_jval(p.0) && i < p.1
            <= s.len(),
    decreases s.len() - i, 2int,
{
    lemma_skip_ws(s, i);
    let j = skip_ws(s, i);
    if j < s.len() {
        let b = s[j];
        if b == LBRACE {
            lemma_skip_ws(s, j + 1);
            lemma_parse_members_wf(s, j + 1);
        } else if b == LBRACKET {
            lemma_skip_ws(s, j + 1);
            lemma_parse_elems_wf(s, j + 1);
        } else if b == QUOTE {
            if scan_string(s, j + 1) is Some {
                lemma_scan_string(s, j + 1);
                lemma_scan_string_wf(s, j + 1);
            }
        } else if is_digit(b) || b == 0x2d {
            lemma_scan_num_bytes(s, j + 1);
            let e = scan_num_end(s, j + 1);
            let lit = s.subrange(j, e);
            assert forall|t: int| 0 <= t < lit.len() implies is_num_byte(#[trigger] lit[t]) by {
                assert(lit[t] == s[j + t]);
            }
            assert(crate::json::wf_num(lit));
        }
    }
}

/// Whatever the element-list parser accepts is well formed, and nonempty.
pub proof fn lemma_parse_elems_wf(s: Seq<u8>, i: int)
    requires
        0 <= i <= s.len(),
    ensures
        parse_elems(s, i) matches Option::Some(p) ==> (forall|t: int|
            0 <= t < p.0.len() ==> crate::json::wf_jval(#[trigger] p.0[t])) && i < p.1 <= s.len()
            && p.0.len() > 0,
    decreases s.len() - i, 3int,
{
    lemma_parse_value_wf(s, i);
    match parse_value(s, i) {
        Option::None => {},
        Option::Some((v, j)) => {
            if i < j <= s.len() {
                lemma_skip_ws(s, j);
                let k = skip_ws(s, j);
                if k < s.len() && s[k] == COMMA {
                    lemma_parse_elems_wf(s, k + 1);
                    match parse_elems(s, k + 1) {
                        Option::None => {},
                        Option::Some((rest, m)) => {
                            assert forall|t: int| 0 <= t < (seq![v] + rest).len() implies
                                crate::json::wf_jval(#[trigger] (seq![v] + rest)[t]) by {
                                if t > 0 {
                                    assert((seq![v] + rest)[t] == rest[t - 1]);
                                }
                            }
                        },
                    }
                }
            }
        },
    }
}

/// Whatever the member-list parser accepts has well-formed keys and values.
pub proof fn lemma_parse_members_wf(s: Seq<u8>, i: int)
    requires
        0 <= i <= s.len(),
    ensures
        parse_members(s, i) matches Option::Some(p) ==> (forall|t: int|
            0 <= t < p.0.len() ==> crate::json::wf_member(#[trigger] p.0[t])) && i < p.1 <= s.len()
            && p.0.len() > 0,
    decreases s.len() - i, 3int,
{
    lemma_skip_ws(s, i);
    let j = skip_ws(s, i);
    if j < s.len() && s[j] == QUOTE {
        match scan_string(s, j + 1) {
            Option::None => {},
            Option::Some(e) => {
                lemma_scan_string(s, j + 1);
                lemma_scan_string_wf(s, j + 1);
                if j + 1 <= e < s.len() {
                    let key = s.subrange(j + 1, e);
                    lemma_skip_ws(s, e + 1);
                    let c = skip_ws(s, e + 1);
                    if c < s.len() && s[c] == COLON {
                        lemma_parse_value_wf(s, c + 1);
                        match parse_value(s, c + 1) {
                            Option::None => {},
                            Option::Some((v, m)) => {
                                if c < m <= s.len() {
                                    lemma_skip_ws(s, m);
                                    let k = skip_ws(s, m);
                                    if k < s.len() && s[k] == COMMA {
                                        lemma_parse_members_wf(s, k + 1);
                                        match parse_members(s, k + 1) {
                                            Option::None => {},
                                            Option::Some((rest, q)) => {
                                                assert forall|t: int|
                                                    0 <= t < (seq![(key, v)] + rest).len() implies
                                                    crate::json::wf_member(
                                                        #[trigger] (seq![(key, v)] + rest)[t],
                                                    ) by {
                                                    if t > 0 {
                                                        assert((seq![(key, v)] + rest)[t]
                                                            == rest[t - 1]);
                                                    } else {
                                                        assert((seq![(key, v)] + rest)[0] == (
                                                            key,
                                                            v,
                                                        ));
                                                    }
                                                }
                                            },
                                        }
                                    }
                                }
                            },
                        }
                    }
                }
            },
        }
    }
}

/// Whatever [`spec_parse`] accepts is well formed.
pub proof fn lemma_spec_parse_wf(s: Seq<u8>)
    ensures
        spec_parse(s) matches Option::Some(v) ==> crate::json::wf_jval(v),
{
    lemma_parse_value_wf(s, 0);
}

/// Round trip: parsing the serialisation of a well-formed value yields the
/// value back, exactly.
pub proof fn lemma_roundtrip(v: JVal)
    requires
        crate::json::wf_jval(v),
    ensures
        spec_parse(crate::json::ser(v)) == Option::Some(v),
{
    let s = crate::json::ser(v);
    lemma_ser_head(v);
    assert(s.subrange(0, s.len() as int) =~= s);
    lemma_parse_of_ser(v, s, 0);
    assert(skip_ws(s, s.len() as int) == s.len());
}

} // verus!
