//! Schema-agnostic JSON documents and their canonical byte form.
//!
//! A document is a tree whose numbers are carried as their literal text,
//! so nothing is lost between parsing and re-serialization and no floating
//! point enters the library. Object members are an association list in
//! insertion order; canonicalization sorts them by the byte order of their
//! UTF-8 encoded keys, recursively.

use vstd::prelude::*;
use vstd::string::StringSliceAdditionalSpecFns;

verus! {

/// A JSON document.
pub enum JsonValue {
    Null,
    Bool(bool),
    /// A number, carried as the literal text of its decimal form.
    Num(String),
    Str(String),
    Arr(Vec<JsonValue>),
    Obj(Vec<(String, JsonValue)>),
}

/// No two members of an object share a key.
pub open spec fn distinct_keys(kvs: Seq<(String, JsonValue)>) -> bool {
    forall|i: int, j: int| 0 <= i < j < kvs.len() ==> kvs[i].0@ != kvs[j].0@
}

/// Some member of `kvs` has key `k`.
pub open spec fn has_key(kvs: Seq<(String, JsonValue)>, k: Seq<char>) -> bool {
    exists|i: int| 0 <= i < kvs.len() && kvs[i].0@ == k
}

/// Well-formed: every object in the tree has distinct keys.
pub open spec fn wf(v: JsonValue) -> bool
    decreases v,
{
    match v {
        JsonValue::Arr(items) => wf_list(items@),
        JsonValue::Obj(kvs) => distinct_keys(kvs@) && wf_entries(kvs@),
        _ => true,
    }
}

pub open spec fn wf_list(items: Seq<JsonValue>) -> bool
    decreases items,
{
    if items.len() == 0 {
        true
    } else {
        wf(items[0]) && wf_list(items.drop_first())
    }
}

pub open spec fn wf_entries(kvs: Seq<(String, JsonValue)>) -> bool
    decreases kvs,
{
    if kvs.len() == 0 {
        true
    } else {
        wf(kvs[0].1) && wf_entries(kvs.drop_first())
    }
}

/// Strict lexicographic order on byte strings.
pub open spec fn lex_lt(a: Seq<u8>, b: Seq<u8>) -> bool
    decreases a.len(),
{
    if b.len() == 0 {
        false
    } else if a.len() == 0 {
        true
    } else if a[0] < b[0] {
        true
    } else if a[0] > b[0] {
        false
    } else {
        lex_lt(a.drop_first(), b.drop_first())
    }
}

/// The UTF-8 bytes of a key, the order canonicalization sorts by.
pub open spec fn key_bytes(s: Seq<char>) -> Seq<u8> {
    vstd::utf8::encode_utf8(s)
}

/// `a` and `b` are the same document up to reordering of object members.
pub open spec fn similar(a: JsonValue, b: JsonValue) -> bool
    decreases a,
{
    match a {
        JsonValue::Null => b is Null,
        JsonValue::Bool(x) => b matches JsonValue::Bool(y) && x == y,
        JsonValue::Num(x) => b matches JsonValue::Num(y) && x@ == y@,
        JsonValue::Str(x) => b matches JsonValue::Str(y) && x@ == y@,
        JsonValue::Arr(x) => b matches JsonValue::Arr(y) && similar_list(x@, y@),
        JsonValue::Obj(x) => b matches JsonValue::Obj(y) && {
            &&& distinct_keys(x@)
            &&& distinct_keys(y@)
            &&& forall|j: int| 0 <= j < y@.len() ==> has_key(x@, (#[trigger] y@[j]).0@)
            &&& forall|i: int| 0 <= i < x@.len() ==> entry_match(#[trigger] x@[i], y@)
        },
    }
}

/// Arrays match pointwise.
pub open spec fn similar_list(a: Seq<JsonValue>, b: Seq<JsonValue>) -> bool
    decreases a,
{
    if a.len() != b.len() {
        false
    } else if a.len() == 0 {
        true
    } else {
        similar(a[0], b[0]) && similar_list(a.drop_first(), b.drop_first())
    }
}

/// The member `e` has a counterpart in `kvs` with the same key and a
/// similar value.
pub open spec fn entry_match(e: (String, JsonValue), kvs: Seq<(String, JsonValue)>) -> bool
    decreases e,
{
    exists|j: int| 0 <= j < kvs.len() && (#[trigger] kvs[j]).0@ == e.0@ && similar(e.1, kvs[j].1)
}

/// Canonical: every object in the tree is strictly sorted by key bytes.
pub open spec fn is_canon(v: JsonValue) -> bool
    decreases v,
{
    match v {
        JsonValue::Arr(items) => canon_list(items@),
        JsonValue::Obj(kvs) => sorted_entries(kvs@) && canon_entries(kvs@),
        _ => true,
    }
}

pub open spec fn canon_list(items: Seq<JsonValue>) -> bool
    decreases items,
{
    if items.len() == 0 {
        true
    } else {
        is_canon(items[0]) && canon_list(items.drop_first())
    }
}

pub open spec fn canon_entries(kvs: Seq<(String, JsonValue)>) -> bool
    decreases kvs,
{
    if kvs.len() == 0 {
        true
    } else {
        is_canon(kvs[0].1) && canon_entries(kvs.drop_first())
    }
}

/// Strictly ascending member keys, compared as UTF-8 bytes.
pub open spec fn sorted_entries(kvs: Seq<(String, JsonValue)>) -> bool {
    forall|i: int, j: int|
        0 <= i < j < kvs.len() ==> lex_lt(key_bytes(kvs[i].0@), key_bytes(kvs[j].0@))
}

/// After a common prefix, lexicographic order is decided by the remainders.
pub proof fn lemma_lex_lt_skip(a: Seq<u8>, b: Seq<u8>, i: int)
    requires
        0 <= i <= a.len(),
        i <= b.len(),
        a.subrange(0, i) == b.subrange(0, i),
    ensures
        lex_lt(a, b) == lex_lt(a.skip(i), b.skip(i)),
    decreases i,
{
    if i > 0 {
        assert(a.subrange(0, i)[0] == a[0]);
        assert(b.subrange(0, i)[0] == b[0]);
        assert(a[0] == b[0]);
        assert(a.drop_first().subrange(0, i - 1) =~= a.subrange(0, i).drop_first());
        assert(b.drop_first().subrange(0, i - 1) =~= b.subrange(0, i).drop_first());
        lemma_lex_lt_skip(a.drop_first(), b.drop_first(), i - 1);
        assert(a.drop_first().skip(i - 1) =~= a.skip(i));
        assert(b.drop_first().skip(i - 1) =~= b.skip(i));
    } else {
        assert(a.skip(0) =~= a);
        assert(b.skip(0) =~= b);
    }
}

/// Lexicographic order is irreflexive and total: of two distinct byte
/// strings, exactly one precedes the other.
pub proof fn lemma_lex_lt_total(a: Seq<u8>, b: Seq<u8>)
    ensures
        a == b ==> !lex_lt(a, b),
        a != b ==> (lex_lt(a, b) <==> !lex_lt(b, a)),
    decreases a.len(),
{
    if a.len() > 0 && b.len() > 0 {
        lemma_lex_lt_total(a.drop_first(), b.drop_first());
        if a[0] == b[0] {
            if a.drop_first() == b.drop_first() {
                assert forall|i: int| 0 <= i < a.len() implies a[i] == b[i] by {
                    if i > 0 {
                        assert(a[i] == a.drop_first()[i - 1]);
                        assert(b[i] == b.drop_first()[i - 1]);
                    }
                }
                assert(a =~= b);
            }
            if a == b {
                assert(a.drop_first() =~= b.drop_first());
            }
        }
    } else {
        if a.len() == 0 && b.len() == 0 {
            assert(a =~= b);
        }
    }
}

/// Lexicographic order is transitive.
pub proof fn lemma_lex_lt_trans(a: Seq<u8>, b: Seq<u8>, c: Seq<u8>)
    requires
        lex_lt(a, b),
        lex_lt(b, c),
    ensures
        lex_lt(a, c),
    decreases a.len(),
{
    if a.len() > 0 && b.len() > 0 && c.len() > 0 {
        if a[0] == b[0] && b[0] == c[0] {
            lemma_lex_lt_trans(a.drop_first(), b.drop_first(), c.drop_first());
        }
    }
}

/// Compare two strings by the lexicographic order of their UTF-8 bytes.
pub fn str_bytes_lt(a: &str, b: &str) -> (r: bool)
    ensures
        r == lex_lt(a.spec_bytes(), b.spec_bytes()),
{
    let ab = a.as_bytes();
    let bb = b.as_bytes();
    let mut i: usize = 0;
    loop
        invariant
            i <= ab@.len(),
            i <= bb@.len(),
            ab@ == a.spec_bytes(),
            bb@ == b.spec_bytes(),
            ab@.subrange(0, i as int) == bb@.subrange(0, i as int),
        decreases ab@.len() - i,
    {
        if i >= ab.len() || i >= bb.len() {
            proof {
                lemma_lex_lt_skip(ab@, bb@, i as int);
            }
            return ab.len() < bb.len();
        }
        let x = ab[i];
        let y = bb[i];
        if x != y {
            proof {
                lemma_lex_lt_skip(ab@, bb@, i as int);
                assert(ab@.skip(i as int)[0] == x);
                assert(bb@.skip(i as int)[0] == y);
            }
            return x < y;
        }
        proof {
            assert(ab@.subrange(0, i + 1) =~= ab@.subrange(0, i as int).push(x));
            assert(bb@.subrange(0, i + 1) =~= bb@.subrange(0, i as int).push(y));
        }
        i = i + 1;
    }
}

/// One byte of string content, escaped as JSON requires: quote and
/// backslash get a backslash, the common control characters get their
/// short forms, other control bytes become `\u00XX`.
pub open spec fn esc_byte(b: u8) -> Seq<u8> {
    if b == 34 {
        seq![92u8, 34u8]
    } else if b == 92 {
        seq![92u8, 92u8]
    } else if b == 10 {
        seq![92u8, 110u8]
    } else if b == 13 {
        seq![92u8, 114u8]
    } else if b == 9 {
        seq![92u8, 116u8]
    } else if b < 32 {
        seq![92u8, 117u8, 48u8, 48u8, hex_digit((b / 16) as u8), hex_digit((b % 16) as u8)]
    } else {
        seq![b]
    }
}

/// Lower-case hexadecimal digit for a value below 16.
pub open spec fn hex_digit(n: u8) -> u8 {
    if n < 10 {
        (48 + n) as u8
    } else {
        (87 + n) as u8
    }
}

pub open spec fn esc_bytes(bs: Seq<u8>) -> Seq<u8>
    decreases bs.len(),
{
    if bs.len() == 0 {
        Seq::empty()
    } else {
        esc_byte(bs[0]) + esc_bytes(bs.drop_first())
    }
}

/// A string literal: quoted, content escaped.
pub open spec fn ser_str(s: Seq<char>) -> Seq<u8> {
    seq![34u8] + esc_bytes(key_bytes(s)) + seq![34u8]
}

/// The serialization of a document, members in stored order. The bytes
/// stored and hashed are `ser_spec` of the canonicalized document.
pub open spec fn ser_spec(v: JsonValue) -> Seq<u8>
    decreases v,
{
    match v {
        JsonValue::Null => seq![110u8, 117u8, 108u8, 108u8],
        JsonValue::Bool(x) => if x {
            seq![116u8, 114u8, 117u8, 101u8]
        } else {
            seq![102u8, 97u8, 108u8, 115u8, 101u8]
        },
        JsonValue::Num(s) => key_bytes(s@),
        JsonValue::Str(s) => ser_str(s@),
        JsonValue::Arr(items) => seq![91u8] + ser_list(items@) + seq![93u8],
        JsonValue::Obj(kvs) => seq![123u8] + ser_entries(kvs@) + seq![125u8],
    }
}

pub open spec fn ser_list(items: Seq<JsonValue>) -> Seq<u8>
    decreases items,
{
    if items.len() == 0 {
        Seq::empty()
    } else if items.len() == 1 {
        ser_spec(items[0])
    } else {
        ser_spec(items[0]) + seq![44u8] + ser_list(items.drop_first())
    }
}

pub open spec fn ser_entries(kvs: Seq<(String, JsonValue)>) -> Seq<u8>
    decreases kvs,
{
    if kvs.len() == 0 {
        Seq::empty()
    } else if kvs.len() == 1 {
        ser_str(kvs[0].0@) + seq![58u8] + ser_spec(kvs[0].1)
    } else {
        ser_str(kvs[0].0@) + seq![58u8] + ser_spec(kvs[0].1) + seq![44u8] + ser_entries(
            kvs.drop_first(),
        )
    }
}

proof fn lemma_esc_bytes_push(bs: Seq<u8>, x: u8)
    ensures
        esc_bytes(bs.push(x)) == esc_bytes(bs) + esc_byte(x),
    decreases bs.len(),
{
    if bs.len() == 0 {
        reveal_with_fuel(esc_bytes, 3);
        assert(bs.push(x).drop_first() =~= Seq::<u8>::empty());
        assert(bs.push(x)[0] == x);
        assert(esc_bytes(bs.push(x)) =~= esc_byte(x));
        assert(esc_bytes(bs) + esc_byte(x) =~= esc_byte(x));
    } else {
        assert(bs.push(x).drop_first() =~= bs.drop_first().push(x));
        lemma_esc_bytes_push(bs.drop_first(), x);
        assert(esc_bytes(bs.push(x)) =~= esc_bytes(bs) + esc_byte(x));
    }
}

fn exec_hex_digit(n: u8) -> (r: u8)
    requires
        n < 16,
    ensures
        r == hex_digit(n),
{
    if n < 10 {
        48 + n
    } else {
        87 + n
    }
}

/// Append the escaped, quoted form of `s` to `out`.
fn write_str(s: &str, out: &mut Vec<u8>)
    ensures
        final(out)@ == old(out)@ + ser_str(s@),
{
    let bs = s.as_bytes();
    out.push(34);
    let ghost base = out@;
    let mut i: usize = 0;
    while i < bs.len()
        invariant
            i <= bs@.len(),
            bs@ == s.spec_bytes(),
            out@ == base + esc_bytes(bs@.subrange(0, i as int)),
        decreases bs@.len() - i,
    {
        let b = bs[i];
        if b == 34 {
            out.push(92);
            out.push(34);
        } else if b == 92 {
            out.push(92);
            out.push(92);
        } else if b == 10 {
            out.push(92);
            out.push(110);
        } else if b == 13 {
            out.push(92);
            out.push(114);
        } else if b == 9 {
            out.push(92);
            out.push(116);
        } else if b < 32 {
            out.push(92);
            out.push(117);
            out.push(48);
            out.push(48);
            out.push(exec_hex_digit(b / 16));
            out.push(exec_hex_digit(b % 16));
        } else {
            out.push(b);
        }
        proof {
            lemma_esc_bytes_push(bs@.subrange(0, i as int), b);
            assert(bs@.subrange(0, i + 1) =~= bs@.subrange(0, i as int).push(b));
            assert(out@ =~= base + esc_bytes(bs@.subrange(0, i + 1)));
        }
        i = i + 1;
    }
    proof {
        assert(bs@.subrange(0, bs@.len() as int) =~= bs@);
    }
    out.push(34);
    proof {
        assert(out@ =~= old(out)@ + ser_str(s@));
    }
}

/// Append the serialization of `v`, members in stored order, to `out`.
pub fn write_ser(v: &JsonValue, out: &mut Vec<u8>)
    ensures
        final(out)@ == old(out)@ + ser_spec(*v),
    decreases *v,
{
    match v {
        JsonValue::Null => {
            out.push(110);
            out.push(117);
            out.push(108);
            out.push(108);
            proof {
                assert(out@ =~= old(out)@ + ser_spec(*v));
            }
        },
        JsonValue::Bool(x) => {
            if *x {
                out.push(116);
                out.push(114);
                out.push(117);
                out.push(101);
            } else {
                out.push(102);
                out.push(97);
                out.push(108);
                out.push(115);
                out.push(101);
            }
            proof {
                assert(out@ =~= old(out)@ + ser_spec(*v));
            }
        },
        JsonValue::Num(s) => {
            let bs = s.as_str().as_bytes();
            let mut i: usize = 0;
            while i < bs.len()
                invariant
                    i <= bs@.len(),
                    bs@ == key_bytes(s@),
                    out@ == old(out)@ + bs@.subrange(0, i as int),
                decreases bs@.len() - i,
            {
                out.push(bs[i]);
                proof {
                    assert(bs@.subrange(0, i + 1) =~= bs@.subrange(0, i as int).push(bs@[i as int]));
                }
                i = i + 1;
            }
            proof {
                assert(bs@.subrange(0, bs@.len() as int) =~= bs@);
            }
        },
        JsonValue::Str(s) => {
            write_str(s.as_str(), out);
        },
        JsonValue::Arr(items) => {
            out.push(91);
            proof {
                assert(items@.skip(0) =~= items@);
            }
            write_list(items, 0, out);
            out.push(93);
            proof {
                assert(out@ =~= old(out)@ + ser_spec(*v));
            }
        },
        JsonValue::Obj(kvs) => {
            out.push(123);
            proof {
                assert(kvs@.skip(0) =~= kvs@);
            }
            write_entries(kvs, 0, out);
            out.push(125);
            proof {
                assert(out@ =~= old(out)@ + ser_spec(*v));
            }
        },
    }
}

/// Append the comma-separated serializations of `items[i..]` to `out`.
fn write_list(items: &Vec<JsonValue>, i: usize, out: &mut Vec<u8>)
    requires
        i <= items@.len(),
    ensures
        final(out)@ == old(out)@ + ser_list(items@.skip(i as int)),
    decreases items@.skip(i as int),
{
    if i < items.len() {
        proof {
            assert(items@.skip(i as int)[0] == items@[i as int]);
        }
        write_ser(&items[i], out);
        if i + 1 < items.len() {
            out.push(44);
            proof {
                assert(items@.skip(i + 1) =~= items@.skip(i as int).drop_first());
            }
            write_list(items, i + 1, out);
            proof {
                assert(items@.skip(i as int)[0] == items@[i as int]);
                assert(out@ =~= old(out)@ + ser_list(items@.skip(i as int)));
            }
        } else {
            proof {
                assert(items@.skip(i as int).len() == 1);
                assert(items@.skip(i as int)[0] == items@[i as int]);
            }
        }
    }
}

/// Append the comma-separated serializations of the members `kvs[i..]`.
fn write_entries(kvs: &Vec<(String, JsonValue)>, i: usize, out: &mut Vec<u8>)
    requires
        i <= kvs@.len(),
    ensures
        final(out)@ == old(out)@ + ser_entries(kvs@.skip(i as int)),
    decreases kvs@.skip(i as int),
{
    if i < kvs.len() {
        proof {
            assert(kvs@.skip(i as int)[0] == kvs@[i as int]);
        }
        write_str(kvs[i].0.as_str(), out);
        out.push(58);
        write_ser(&kvs[i].1, out);
        if i + 1 < kvs.len() {
            out.push(44);
            proof {
                assert(kvs@.skip(i + 1) =~= kvs@.skip(i as int).drop_first());
            }
            write_entries(kvs, i + 1, out);
            proof {
                assert(kvs@.skip(i as int)[0] == kvs@[i as int]);
                assert(out@ =~= old(out)@ + ser_entries(kvs@.skip(i as int)));
            }
        } else {
            proof {
                assert(kvs@.skip(i as int).len() == 1);
                assert(kvs@.skip(i as int)[0] == kvs@[i as int]);
            }
        }
    }
}

/// The serialization of `v` as a byte vector.
pub fn serialize(v: &JsonValue) -> (r: Vec<u8>)
    ensures
        r@ == ser_spec(*v),
{
    let mut out: Vec<u8> = Vec::new();
    write_ser(v, &mut out);
    out
}

/// Keys with equal UTF-8 encodings are equal.
pub proof fn lemma_key_bytes_injective(a: Seq<char>, b: Seq<char>)
    requires
        key_bytes(a) == key_bytes(b),
    ensures
        a == b,
{
    vstd::utf8::encode_utf8_decode_utf8(a);
    vstd::utf8::encode_utf8_decode_utf8(b);
}

/// `canon_entries` unrolled to a statement about every member.
pub proof fn lemma_canon_entries_iff(kvs: Seq<(String, JsonValue)>)
    ensures
        canon_entries(kvs) <==> (forall|i: int|
            0 <= i < kvs.len() ==> is_canon(#[trigger] kvs[i].1)),
    decreases kvs.len(),
{
    if kvs.len() > 0 {
        lemma_canon_entries_iff(kvs.drop_first());
        assert(forall|i: int|
            1 <= i < kvs.len() ==> #[trigger] kvs[i] == kvs.drop_first()[i - 1]);
    }
}

/// `wf_entries` unrolled to a statement about every member.
pub proof fn lemma_wf_entries_iff(kvs: Seq<(String, JsonValue)>)
    ensures
        wf_entries(kvs) <==> (forall|i: int| 0 <= i < kvs.len() ==> wf(#[trigger] kvs[i].1)),
    decreases kvs.len(),
{
    if kvs.len() > 0 {
        lemma_wf_entries_iff(kvs.drop_first());
        assert(forall|i: int|
            1 <= i < kvs.len() ==> #[trigger] kvs[i] == kvs.drop_first()[i - 1]);
    }
}

/// `wf_list` unrolled to a statement about every element.
pub proof fn lemma_wf_list_iff(items: Seq<JsonValue>)
    ensures
        wf_list(items) <==> (forall|i: int| 0 <= i < items.len() ==> wf(#[trigger] items[i])),
    decreases items.len(),
{
    if items.len() > 0 {
        lemma_wf_list_iff(items.drop_first());
        assert(forall|i: int|
            1 <= i < items.len() ==> #[trigger] items[i] == items.drop_first()[i - 1]);
    }
}

/// `canon_list` unrolled to a statement about every element.
pub proof fn lemma_canon_list_iff(items: Seq<JsonValue>)
    ensures
        canon_list(items) <==> (forall|i: int|
            0 <= i < items.len() ==> is_canon(#[trigger] items[i])),
    decreases items.len(),
{
    if items.len() > 0 {
        lemma_canon_list_iff(items.drop_first());
        assert(forall|i: int|
            1 <= i < items.len() ==> #[trigger] items[i] == items.drop_first()[i - 1]);
    }
}

/// `similar_list` unrolled to a pointwise statement.
pub proof fn lemma_similar_list_iff(a: Seq<JsonValue>, b: Seq<JsonValue>)
    ensures
        similar_list(a, b) <==> (a.len() == b.len() && (forall|i: int|
            0 <= i < a.len() ==> similar(#[trigger] a[i], b[i]))),
    decreases a.len(),
{
    if a.len() == b.len() && a.len() > 0 {
        lemma_similar_list_iff(a.drop_first(), b.drop_first());
        assert(forall|i: int| 1 <= i < a.len() ==> #[trigger] a[i] == a.drop_first()[i - 1]);
        assert(forall|i: int| 1 <= i < b.len() ==> #[trigger] b[i] == b.drop_first()[i - 1]);
    }
}

/// Insert one member into a run of members sorted by key, keeping the run
/// sorted. The new key must not already occur.
fn insert_sorted(out: &mut Vec<(String, JsonValue)>, e: (String, JsonValue))
    requires
        sorted_entries(old(out)@),
        forall|i: int| 0 <= i < old(out)@.len() ==> (#[trigger] old(out)@[i]).0@ != e.0@,
    ensures
        sorted_entries(final(out)@),
        exists|p: int| 0 <= p <= old(out)@.len() && final(out)@ == old(out)@.insert(p, e),
{
    let ghost orig = out@;
    let mut p: usize = 0;
    loop
        invariant
            p <= out@.len(),
            out@ == orig,
            forall|i: int| 0 <= i < orig.len() ==> (#[trigger] orig[i]).0@ != e.0@,
            forall|k: int| 0 <= k < p ==> lex_lt(key_bytes((#[trigger] out@[k]).0@), key_bytes(e.0@)),
        ensures
            p <= out@.len(),
            out@ == orig,
            forall|k: int| 0 <= k < p ==> lex_lt(key_bytes((#[trigger] out@[k]).0@), key_bytes(e.0@)),
            p < out@.len() ==> lex_lt(key_bytes(e.0@), key_bytes(out@[p as int].0@)),
        decreases out@.len() - p,
    {
        if p >= out.len() {
            break;
        }
        if str_bytes_lt(e.0.as_str(), out[p].0.as_str()) {
            break;
        }
        proof {
            assert(orig[p as int].0@ != e.0@);
            if key_bytes(out@[p as int].0@) == key_bytes(e.0@) {
                lemma_key_bytes_injective(out@[p as int].0@, e.0@);
            }
            lemma_lex_lt_total(key_bytes(out@[p as int].0@), key_bytes(e.0@));
        }
        p = p + 1;
    }
    out.insert(p, e);
    proof {
        let s = orig.insert(p as int, e);
        assert forall|i: int, j: int| 0 <= i < j < s.len() implies lex_lt(
            key_bytes(s[i].0@),
            key_bytes(s[j].0@),
        ) by {
            if i < p && j < p {
                assert(s[i] == orig[i]);
                assert(s[j] == orig[j]);
            } else if i < p && j == p {
                assert(s[i] == orig[i]);
            } else if i < p && j > p {
                assert(s[i] == orig[i]);
                assert(s[j] == orig[j - 1]);
            } else if i == p && j > p {
                assert(s[j] == orig[j - 1]);
                assert(lex_lt(key_bytes(e.0@), key_bytes(orig[p as int].0@)));
                if p < j - 1 {
                    lemma_lex_lt_trans(
                        key_bytes(e.0@),
                        key_bytes(orig[p as int].0@),
                        key_bytes(orig[j - 1].0@),
                    );
                }
            } else {
                assert(i > p || i == p && j == p);
                assert(s[i] == orig[i - 1]);
                assert(s[j] == orig[j - 1]);
            }
        }
    }
}

/// Some index of `s` holds exactly `x`.
pub open spec fn in_entries(x: (String, JsonValue), s: Seq<(String, JsonValue)>) -> bool {
    exists|j: int| 0 <= j < s.len() && s[j] == x
}

/// After inserting the next member of `orig` into a rearrangement of the
/// consumed prefix of `orig`, the result is a rearrangement of the one
/// longer prefix.
proof fn lemma_insert_keeps_correspondence(
    before: Seq<(String, JsonValue)>,
    after: Seq<(String, JsonValue)>,
    orig: Seq<(String, JsonValue)>,
    e: (String, JsonValue),
    p: int,
)
    requires
        0 <= p <= before.len(),
        after == before.insert(p, e),
        before.len() < orig.len(),
        e == orig[before.len() as int],
        forall|i: int| 0 <= i < before.len() ==> in_entries(
            #[trigger] before[i],
            orig.take(before.len() as int),
        ),
        forall|j: int| 0 <= j < before.len() ==> in_entries(#[trigger] orig[j], before),
    ensures
        forall|i: int| 0 <= i < after.len() ==> in_entries(
            #[trigger] after[i],
            orig.take(before.len() as int + 1),
        ),
        forall|j: int| 0 <= j < before.len() + 1 ==> in_entries(#[trigger] orig[j], after),
{
    let consumed = before.len() as int;
    let prefix = orig.take(consumed + 1);
    assert(after.len() == consumed + 1);
    assert forall|i: int| 0 <= i < after.len() implies in_entries(
        #[trigger] after[i],
        prefix,
    ) by {
        if i < p {
            assert(after[i] == before[i]);
            let j = choose|j: int| 0 <= j < consumed && orig.take(consumed)[j] == before[i];
            assert(prefix[j] == after[i]);
        } else if i == p {
            assert(after[i] == orig[consumed]);
            assert(prefix[consumed] == after[i]);
        } else {
            assert(after[i] == before[i - 1]);
            let j = choose|j: int| 0 <= j < consumed && orig.take(consumed)[j] == before[i - 1];
            assert(prefix[j] == after[i]);
        }
    }
    assert forall|j: int| 0 <= j < consumed + 1 implies in_entries(
        #[trigger] orig[j],
        after,
    ) by {
        if j < consumed {
            let i0 = choose|i0: int| 0 <= i0 < before.len() && before[i0] == orig[j];
            if i0 < p {
                assert(after[i0] == orig[j]);
            } else {
                assert(after[i0 + 1] == orig[j]);
            }
        } else {
            assert(after[p] == orig[j]);
        }
    }
}

/// The key of the next member to consume does not occur in the consumed,
/// rearranged prefix.
proof fn lemma_next_key_fresh(
    out: Seq<(String, JsonValue)>,
    orig: Seq<(String, JsonValue)>,
    consumed: int,
)
    requires
        distinct_keys(orig),
        0 <= consumed < orig.len(),
        out.len() == consumed,
        forall|i: int| 0 <= i < out.len() ==> in_entries(#[trigger] out[i], orig.take(consumed)),
    ensures
        forall|i: int| 0 <= i < out.len() ==> (#[trigger] out[i]).0@ != orig[consumed].0@,
{
    assert forall|i: int| 0 <= i < out.len() implies (#[trigger] out[i]).0@
        != orig[consumed].0@ by {
        let j = choose|j: int| 0 <= j < consumed && orig.take(consumed)[j] == out[i];
        assert(orig[j] == out[i]);
        assert(orig[j].0@ != orig[consumed].0@);
    }
}

/// Sort the members of an object by the byte order of their keys.
fn sort_entries(kvs: Vec<(String, JsonValue)>) -> (r: Vec<(String, JsonValue)>)
    requires
        distinct_keys(kvs@),
    ensures
        sorted_entries(r@),
        r@.len() == kvs@.len(),
        forall|i: int| 0 <= i < r@.len() ==> in_entries(#[trigger] r@[i], kvs@),
        forall|j: int| 0 <= j < kvs@.len() ==> in_entries(#[trigger] kvs@[j], r@),
{
    let ghost orig = kvs@;
    let mut rest = kvs;
    let mut out: Vec<(String, JsonValue)> = Vec::new();
    loop
        invariant
            distinct_keys(orig),
            out@.len() + rest@.len() == orig.len(),
            rest@ == orig.skip(out@.len() as int),
            sorted_entries(out@),
            forall|i: int| 0 <= i < out@.len() ==> in_entries(
                #[trigger] out@[i],
                orig.take(out@.len() as int),
            ),
            forall|j: int| 0 <= j < out@.len() ==> in_entries(#[trigger] orig[j], out@),
        ensures
            out@.len() == orig.len(),
            sorted_entries(out@),
            forall|i: int| 0 <= i < out@.len() ==> in_entries(
                #[trigger] out@[i],
                orig.take(out@.len() as int),
            ),
            forall|j: int| 0 <= j < out@.len() ==> in_entries(#[trigger] orig[j], out@),
        decreases rest@.len(),
    {
        if rest.len() == 0 {
            break;
        }
        let ghost consumed = out@.len() as int;
        let e = rest.remove(0);
        proof {
            assert(e == orig.skip(consumed)[0]);
            assert(e == orig[consumed]);
            assert(rest@ =~= orig.skip(consumed + 1));
            lemma_next_key_fresh(out@, orig, consumed);
        }
        let ghost before = out@;
        let ghost ge = e;
        insert_sorted(&mut out, e);
        proof {
            let p = choose|p: int| 0 <= p <= before.len() && out@ == before.insert(p, ge);
            lemma_insert_keeps_correspondence(before, out@, orig, ge, p);
        }
    }
    proof {
        assert(orig.take(orig.len() as int) =~= orig);
    }
    out
}

/// The canonical form of a document: the same content with every object's
/// members sorted by key, recursively.
pub fn canonicalize(v: JsonValue) -> (r: JsonValue)
    requires
        wf(v),
    ensures
        is_canon(r),
        similar(r, v),
    decreases v,
{
    let ghost gv = v;
    match v {
        JsonValue::Null => JsonValue::Null,
        JsonValue::Bool(b) => JsonValue::Bool(b),
        JsonValue::Num(s) => JsonValue::Num(s),
        JsonValue::Str(s) => JsonValue::Str(s),
        JsonValue::Arr(items) => {
            let ghost oitems = items@;
            let r = canonicalize_list(items);
            proof {
                lemma_canon_list_iff(r@);
                lemma_similar_list_iff(r@, oitems);
            }
            JsonValue::Arr(r)
        },
        JsonValue::Obj(kvs) => {
            let ghost okvs = kvs@;
            let entries = canonicalize_entries(kvs);
            let ghost ekvs = entries@;
            proof {
                assert forall|i: int, j: int| 0 <= i < j < ekvs.len() implies ekvs[i].0@
                    != ekvs[j].0@ by {
                    assert(ekvs[i].0 == okvs[i].0);
                    assert(ekvs[j].0 == okvs[j].0);
                }
            }
            let sorted = sort_entries(entries);
            proof {
                lemma_canon_entries_iff(sorted@);
                assert forall|i: int| 0 <= i < sorted@.len() implies is_canon(
                    (#[trigger] sorted@[i]).1,
                ) by {
                    let j = choose|j: int| 0 <= j < ekvs.len() && ekvs[j] == sorted@[i];
                }
                assert forall|i: int, j: int| 0 <= i < j < sorted@.len() implies sorted@[i].0@
                    != sorted@[j].0@ by {
                    lemma_lex_lt_total(key_bytes(sorted@[i].0@), key_bytes(sorted@[j].0@));
                }
                assert forall|j: int| 0 <= j < okvs.len() implies has_key(
                    sorted@,
                    (#[trigger] okvs[j]).0@,
                ) by {
                    let i = choose|i: int| 0 <= i < sorted@.len() && sorted@[i] == ekvs[j];
                    assert(sorted@[i].0@ == okvs[j].0@);
                }
                assert forall|i: int| 0 <= i < sorted@.len() implies entry_match(
                    #[trigger] sorted@[i],
                    okvs,
                ) by {
                    let j = choose|j: int| 0 <= j < ekvs.len() && ekvs[j] == sorted@[i];
                    assert(okvs[j].0@ == sorted@[i].0@ && similar(sorted@[i].1, okvs[j].1));
                    assert(entry_match(sorted@[i], okvs));
                }
            }
            JsonValue::Obj(sorted)
        },
    }
}

/// Similarity is symmetric.

pub proof fn lemma_similar_sym(a: JsonValue, b: JsonValue)
    requires
        similar(a, b),
    ensures
        similar(b, a),
    decreases a,
{
    match a {
        JsonValue::Arr(x) => {
            let y = b->Arr_0;
            lemma_similar_list_iff(x@, y@);
            assert forall|i: int| 0 <= i < y@.len() implies similar(#[trigger] y@[i], x@[i]) by {
                lemma_similar_sym(x@[i], y@[i]);
            }
            lemma_similar_list_iff(y@, x@);
            assert(similar(b, a));
        },
        JsonValue::Obj(x) => {
            let y = b->Obj_0;
            assert forall|j: int| 0 <= j < x@.len() implies has_key(y@, (#[trigger] x@[j]).0@) by {
                assert(entry_match(x@[j], y@));
                let jy = choose|jy: int|
                    0 <= jy < y@.len() && (#[trigger] y@[jy]).0@ == x@[j].0@ && similar(
                        x@[j].1,
                        y@[jy].1,
                    );
                assert(0 <= jy < y@.len() && y@[jy].0@ == x@[j].0@);
            }
            assert forall|j: int| 0 <= j < y@.len() implies entry_match(#[trigger] y@[j], x@) by {
                let i = choose|i: int| 0 <= i < x@.len() && x@[i].0@ == y@[j].0@;
                assert(entry_match(x@[i], y@));
                let j2 = choose|j2: int|
                    0 <= j2 < y@.len() && (#[trigger] y@[j2]).0@ == x@[i].0@ && similar(
                        x@[i].1,
                        y@[j2].1,
                    );
                if j2 != j {
                    assert(y@[j2].0@ == y@[j].0@);
                    assert(false);
                }
                lemma_similar_sym(x@[i].1, y@[j].1);
                assert(x@[i].0@ == y@[j].0@ && similar(y@[j].1, x@[i].1));
                assert(entry_match(y@[j], x@));
            }
            assert(similar(b, a));
        },
        _ => {},
    }
}

/// Similarity is transitive.
pub proof fn lemma_similar_trans(a: JsonValue, b: JsonValue, c: JsonValue)
    requires
        similar(a, b),
        similar(b, c),
    ensures
        similar(a, c),
    decreases a,
{
    match a {
        JsonValue::Arr(x) => {
            let y = b->Arr_0;
            if let JsonValue::Arr(z) = c {
                lemma_similar_list_iff(x@, y@);
                lemma_similar_list_iff(y@, z@);
                assert forall|i: int| 0 <= i < x@.len() implies similar(
                    #[trigger] x@[i],
                    z@[i],
                ) by {
                    lemma_similar_trans(x@[i], y@[i], z@[i]);
                }
                lemma_similar_list_iff(x@, z@);
            }
        },
        JsonValue::Obj(x) => {
            let y = b->Obj_0;
            if let JsonValue::Obj(z) = c {
                assert forall|j: int| 0 <= j < z@.len() implies has_key(
                    x@,
                    (#[trigger] z@[j]).0@,
                ) by {
                    let iy = choose|iy: int| 0 <= iy < y@.len() && y@[iy].0@ == z@[j].0@;
                    let ix = choose|ix: int| 0 <= ix < x@.len() && x@[ix].0@ == y@[iy].0@;
                    assert(0 <= ix < x@.len() && x@[ix].0@ == z@[j].0@);
                }
                assert forall|i: int| 0 <= i < x@.len() implies entry_match(
                    #[trigger] x@[i],
                    z@,
                ) by {
                    assert(entry_match(x@[i], y@));
                    let j = choose|j: int|
                        0 <= j < y@.len() && (#[trigger] y@[j]).0@ == x@[i].0@ && similar(
                            x@[i].1,
                            y@[j].1,
                        );
                    assert(entry_match(y@[j], z@));
                    let k = choose|k: int|
                        0 <= k < z@.len() && (#[trigger] z@[k]).0@ == y@[j].0@ && similar(
                            y@[j].1,
                            z@[k].1,
                        );
                    lemma_similar_trans(x@[i].1, y@[j].1, z@[k].1);
                    assert(z@[k].0@ == x@[i].0@ && similar(x@[i].1, z@[k].1));
                    assert(entry_match(x@[i], z@));
                }
                assert(similar(a, c));
            }
        },
        _ => {},
    }
}

proof fn lemma_ser_list_pointwise(x: Seq<JsonValue>, y: Seq<JsonValue>)
    requires
        x.len() == y.len(),
        forall|i: int| 0 <= i < x.len() ==> ser_spec(#[trigger] x[i]) == ser_spec(y[i]),
    ensures
        ser_list(x) == ser_list(y),
    decreases x.len(),
{
    if x.len() > 0 {
        assert(forall|i: int|
            1 <= i < x.len() ==> #[trigger] x[i] == x.drop_first()[i - 1]);
        assert(forall|i: int|
            1 <= i < y.len() ==> #[trigger] y[i] == y.drop_first()[i - 1]);
        assert forall|i: int| 0 <= i < x.drop_first().len() implies ser_spec(
            #[trigger] x.drop_first()[i],
        ) == ser_spec(y.drop_first()[i]) by {
            assert(x.drop_first()[i] == x[i + 1]);
            assert(y.drop_first()[i] == y[i + 1]);
        }
        lemma_ser_list_pointwise(x.drop_first(), y.drop_first());
    }
}

/// Two canonical, similar runs of members serialize identically.
proof fn lemma_canon_ser_entries_align(x: Seq<(String, JsonValue)>, y: Seq<(String, JsonValue)>)
    requires
        sorted_entries(x),
        sorted_entries(y),
        canon_entries(x),
        canon_entries(y),
        distinct_keys(x),
        distinct_keys(y),
        forall|j: int| 0 <= j < y.len() ==> has_key(x, (#[trigger] y[j]).0@),
        forall|i: int| 0 <= i < x.len() ==> entry_match(#[trigger] x[i], y),
    ensures
        ser_entries(x) == ser_entries(y),
    decreases x,
{
    if x.len() == 0 {
        if y.len() > 0 {
            assert(has_key(x, y[0].0@));
            assert(false);
        }
    } else {
        assert(entry_match(x[0], y));
        let jx = choose|jx: int|
            0 <= jx < y.len() && (#[trigger] y[jx]).0@ == x[0].0@ && similar(x[0].1, y[jx].1);
        let iy = choose|iy: int| 0 <= iy < x.len() && x[iy].0@ == y[0].0@;
        if iy > 0 && jx > 0 {
            assert(lex_lt(key_bytes(x[0].0@), key_bytes(x[iy].0@)));
            assert(lex_lt(key_bytes(y[0].0@), key_bytes(y[jx].0@)));
            lemma_lex_lt_trans(
                key_bytes(x[0].0@),
                key_bytes(x[iy].0@),
                key_bytes(y[jx].0@),
            );
            lemma_lex_lt_total(key_bytes(x[0].0@), key_bytes(y[jx].0@));
            assert(false);
        }
        assert(x[0].0@ == y[0].0@);
        if jx != 0 {
            assert(y[jx].0@ == y[0].0@);
            assert(false);
        }
        assert(similar(x[0].1, y[0].1));
        lemma_canon_ser_unique(x[0].1, y[0].1);
        let xt = x.drop_first();
        let yt = y.drop_first();
        assert(forall|i: int| 1 <= i < x.len() ==> #[trigger] x[i] == xt[i - 1]);
        assert(forall|i: int| 1 <= i < y.len() ==> #[trigger] y[i] == yt[i - 1]);
        assert forall|j: int| 0 <= j < yt.len() implies has_key(xt, (#[trigger] yt[j]).0@) by {
            assert(yt[j] == y[j + 1]);
            let i = choose|i: int| 0 <= i < x.len() && x[i].0@ == y[j + 1].0@;
            if i == 0 {
                assert(y[0].0@ == y[j + 1].0@);
                assert(false);
            }
            assert(xt[i - 1].0@ == yt[j].0@);
        }
        assert forall|i: int| 0 <= i < xt.len() implies entry_match(#[trigger] xt[i], yt) by {
            assert(xt[i] == x[i + 1]);
            assert(entry_match(x[i + 1], y));
            let j = choose|j: int|
                0 <= j < y.len() && (#[trigger] y[j]).0@ == x[i + 1].0@ && similar(
                    x[i + 1].1,
                    y[j].1,
                );
            if j == 0 {
                assert(x[i + 1].0@ == x[0].0@);
                assert(false);
            }
            assert(0 <= j - 1 < yt.len() && yt[j - 1].0@ == xt[i].0@ && similar(
                xt[i].1,
                yt[j - 1].1,
            ));
            assert(entry_match(xt[i], yt));
        }
        lemma_canon_ser_entries_align(xt, yt);
        if xt.len() == 0 {
            if yt.len() > 0 {
                assert(ser_entries(yt).len() >= 2);
                assert(false);
            }
        } else {
            assert(yt.len() > 0) by {
                if yt.len() == 0 {
                    assert(ser_entries(xt).len() >= 2);
                }
            }
        }
    }
}

/// Canonical forms of similar documents serialize to the same bytes: the
/// canonical byte form of a document is unique up to member order.
pub proof fn lemma_canon_ser_unique(a: JsonValue, b: JsonValue)
    requires
        is_canon(a),
        is_canon(b),
        similar(a, b),
    ensures
        ser_spec(a) == ser_spec(b),
    decreases a,
{
    match a {
        JsonValue::Arr(x) => {
            let y = b->Arr_0;
            lemma_similar_list_iff(x@, y@);
            lemma_canon_list_iff(x@);
            lemma_canon_list_iff(y@);
            assert forall|i: int| 0 <= i < x@.len() implies ser_spec(#[trigger] x@[i])
                == ser_spec(y@[i]) by {
                lemma_canon_ser_unique(x@[i], y@[i]);
            }
            lemma_ser_list_pointwise(x@, y@);
        },
        JsonValue::Obj(x) => {
            let y = b->Obj_0;
            lemma_canon_entries_iff(x@);
            lemma_canon_entries_iff(y@);
            lemma_canon_ser_entries_align(x@, y@);
        },
        _ => {},
    }
}

/// Content-address determinism: any two canonical forms of documents that
/// are equal up to reordering of object members serialize to the same
/// bytes, so their content hashes agree.
pub proof fn lemma_content_address_determinism(
    j1: JsonValue,
    j2: JsonValue,
    c1: JsonValue,
    c2: JsonValue,
)
    requires
        similar(j1, j2),
        is_canon(c1),
        similar(c1, j1),
        is_canon(c2),
        similar(c2, j2),
    ensures
        ser_spec(c1) == ser_spec(c2),
{
    lemma_similar_trans(c1, j1, j2);
    lemma_similar_sym(c2, j2);
    lemma_similar_trans(c1, j2, c2);
    lemma_canon_ser_unique(c1, c2);
}

/// Canonicalize every element of a list, order kept.
fn canonicalize_list(mut items: Vec<JsonValue>) -> (r: Vec<JsonValue>)
    requires
        wf_list(items@),
    ensures
        r@.len() == items@.len(),
        forall|k: int| 0 <= k < r@.len() ==> is_canon(#[trigger] r@[k]) && similar(
            r@[k],
            items@[k],
        ),
    decreases items@,
{
    let ghost orig = items@;
    if items.len() == 0 {
        items
    } else {
        let first = items.remove(0);
        proof {
            assert(first == orig[0]);
            assert(items@ =~= orig.drop_first());
        }
        let cf = canonicalize(first);
        let mut rest = canonicalize_list(items);
        rest.insert(0, cf);
        proof {
            assert forall|k: int| 0 <= k < rest@.len() implies is_canon(#[trigger] rest@[k])
                && similar(rest@[k], orig[k]) by {
                if k > 0 {
                    assert(rest@[k] == rest@.drop_first()[k - 1]);
                    assert(orig[k] == orig.drop_first()[k - 1]);
                }
            }
        }
        rest
    }
}

/// Canonicalize the value of every member of an object, keys and order kept.
fn canonicalize_entries(mut kvs: Vec<(String, JsonValue)>) -> (r: Vec<(String, JsonValue)>)
    requires
        wf_entries(kvs@),
    ensures
        r@.len() == kvs@.len(),
        forall|k: int| 0 <= k < r@.len() ==> (#[trigger] r@[k]).0 == kvs@[k].0,
        forall|k: int| 0 <= k < r@.len() ==> is_canon((#[trigger] r@[k]).1) && similar(
            r@[k].1,
            kvs@[k].1,
        ),
    decreases kvs@,
{
    let ghost orig = kvs@;
    if kvs.len() == 0 {
        kvs
    } else {
        let kv = kvs.remove(0);
        proof {
            assert(kv == orig[0]);
            assert(kvs@ =~= orig.drop_first());
        }
        let (k0, x) = kv;
        let cx = canonicalize(x);
        let mut rest = canonicalize_entries(kvs);
        rest.insert(0, (k0, cx));
        proof {
            assert forall|k: int| 0 <= k < rest@.len() implies (#[trigger] rest@[k]).0 == orig[k].0
                && is_canon(rest@[k].1) && similar(rest@[k].1, orig[k].1) by {
                if k > 0 {
                    assert(rest@[k] == rest@.drop_first()[k - 1]);
                    assert(orig[k] == orig.drop_first()[k - 1]);
                }
            }
        }
        rest
    }
}

/// Are two strings the same characters? Decided by comparing their UTF-8
/// bytes, which encode characters uniquely.
pub fn str_eq(a: &str, b: &str) -> (r: bool)
    ensures
        r == (a@ == b@),
{
    let ab = a.as_bytes();
    let bb = b.as_bytes();
    if ab.len() != bb.len() {
        proof {
            if a@ == b@ {
                assert(a.spec_bytes() == b.spec_bytes());
            }
        }
        return false;
    }
    let mut i: usize = 0;
    loop
        invariant
            i <= ab@.len(),
            ab@.len() == bb@.len(),
            ab@ == a.spec_bytes(),
            bb@ == b.spec_bytes(),
            forall|k: int| 0 <= k < i ==> ab@[k] == bb@[k],
        ensures
            (i < ab@.len() && ab@[i as int] != bb@[i as int]) || (i == ab@.len() && forall|k: int|
                0 <= k < i ==> ab@[k] == bb@[k]),
        decreases ab@.len() - i,
    {
        if i >= ab.len() {
            break;
        }
        if ab[i] != bb[i] {
            break;
        }
        i = i + 1;
    }
    if i < ab.len() {
        proof {
            if a@ == b@ {
                assert(a.spec_bytes() == b.spec_bytes());
            }
        }
        false
    } else {
        proof {
            assert(a.spec_bytes() =~= b.spec_bytes());
            lemma_key_bytes_injective(a@, b@);
        }
        true
    }
}

} // verus!
