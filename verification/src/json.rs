//! The structured values that cross the interpreter boundary, and the wire
//! format they travel in.
//!
//! [`Json`] is the executable value type; [`JsonV`] is its mathematical
//! model. [`json_bytes`] defines, byte for byte, the text a value is encoded
//! as, and [`to_bytes`] produces exactly that text. The parser in
//! [`crate::parse`] reads the same format back.
//!
//! The format is the JSON subset this library defines for its wire protocol:
//! numbers are signed 64-bit integers, strings are byte sequences (UTF-8 is
//! expected but not enforced; quotes, backslashes and control characters
//! are escaped), objects are ordered lists of key/value pairs.

use vstd::prelude::*;

verus! {

/// A structured value: the parameters handed to a script, or the value its
/// body returned.
#[derive(Debug, PartialEq)]
pub enum Json {
    Null,
    Bool(bool),
    Int(i64),
    /// String content as raw bytes.
    Str(Vec<u8>),
    Arr(Vec<Json>),
    /// Key/value pairs in order; keys are string content as raw bytes.
    Obj(Vec<(Vec<u8>, Json)>),
}

/// The mathematical model of a [`Json`] value.
#[verifier::ext_equal]
pub enum JsonV {
    Null,
    Bool(bool),
    Int(int),
    Str(Seq<u8>),
    Arr(Seq<JsonV>),
    Obj(Seq<(Seq<u8>, JsonV)>),
}

/// The model of an executable value: integers widen to `int`, vectors to
/// sequences.
pub open spec fn view_json(j: Json) -> JsonV
    decreases j, 0int,
{
    match j {
        Json::Null => JsonV::Null,
        Json::Bool(b) => JsonV::Bool(b),
        Json::Int(n) => JsonV::Int(n as int),
        Json::Str(s) => JsonV::Str(s@),
        Json::Arr(v) => JsonV::Arr(view_list(v@)),
        Json::Obj(v) => JsonV::Obj(view_members(v@)),
    }
}

/// The models of a sequence of values, in order.
pub open spec fn view_list(v: Seq<Json>) -> Seq<JsonV>
    decreases v, 1int,
{
    if v.len() == 0 {
        Seq::empty()
    } else {
        view_list(v.drop_last()).push(view_json(v[v.len() - 1]))
    }
}

/// The models of a sequence of key/value pairs, in order.
pub open spec fn view_members(v: Seq<(Vec<u8>, Json)>) -> Seq<(Seq<u8>, JsonV)>
    decreases v, 1int,
{
    if v.len() == 0 {
        Seq::empty()
    } else {
        view_members(v.drop_last()).push((v[v.len() - 1].0@, view_json(v[v.len() - 1].1)))
    }
}

impl View for Json {
    type V = JsonV;

    open spec fn view(&self) -> JsonV {
        view_json(*self)
    }
}

/// A model value that an executable [`Json`] value can hold: every integer
/// in it fits in a signed 64-bit machine word.
pub open spec fn wf_value(v: JsonV) -> bool
    decreases v,
{
    match v {
        JsonV::Int(n) => i64::MIN <= n <= i64::MAX,
        JsonV::Arr(items) => forall|k: int|
            0 <= k < items.len() ==> wf_value(#[trigger] items[k]),
        JsonV::Obj(members) => forall|k: int|
            0 <= k < members.len() ==> wf_value(#[trigger] members[k].1),
        _ => true,
    }
}

/// The model of a value list is the list of the values' models, index by
/// index.
pub proof fn lemma_view_list_index(v: Seq<Json>)
    ensures
        view_list(v).len() == v.len(),
        forall|k: int| 0 <= k < v.len() ==> view_list(v)[k] == view_json(v[k]),
    decreases v,
{
    if v.len() > 0 {
        lemma_view_list_index(v.drop_last());
    }
}

/// The model of a member list is the list of the members' models, index by
/// index.
pub proof fn lemma_view_members_index(v: Seq<(Vec<u8>, Json)>)
    ensures
        view_members(v).len() == v.len(),
        forall|k: int|
            0 <= k < v.len() ==> view_members(v)[k] == (v[k].0@, view_json(v[k].1)),
    decreases v,
{
    if v.len() > 0 {
        lemma_view_members_index(v.drop_last());
    }
}

/// The model of every executable value is well formed.
pub proof fn lemma_view_wf(j: Json)
    ensures
        wf_value(j@),
    decreases j, 2int,
{
    match j {
        Json::Arr(v) => {
            lemma_view_list_index(v@);
            assert forall|k: int| 0 <= k < view_list(v@).len() implies wf_value(
                #[trigger] view_list(v@)[k],
            ) by {
                lemma_view_wf(v@[k]);
            }
        }
        Json::Obj(v) => {
            lemma_view_members_index(v@);
            assert forall|k: int| 0 <= k < view_members(v@).len() implies wf_value(
                #[trigger] view_members(v@)[k].1,
            ) by {
                lemma_view_wf(v@[k].1);
            }
        }
        _ => {}
    }
}

/// First value bound to `key` in a member list, if any.
pub open spec fn lookup(members: Seq<(Seq<u8>, JsonV)>, key: Seq<u8>) -> Option<JsonV>
    decreases members.len(),
{
    if members.len() == 0 {
        None
    } else if members[0].0 == key {
        Some(members[0].1)
    } else {
        lookup(members.drop_first(), key)
    }
}

/// Byte-sequence equality, decided.
fn bytes_eq(a: &[u8], b: &[u8]) -> (r: bool)
    ensures
        r == (a@ == b@),
{
    if a.len() != b.len() {
        assert(a@.len() != b@.len());
        return false;
    }
    let mut i: usize = 0;
    while i < a.len()
        invariant
            0 <= i <= a@.len(),
            a@.len() == b@.len(),
            forall|k: int| 0 <= k < i ==> a@[k] == b@[k],
        decreases a@.len() - i,
    {
        if a[i] != b[i] {
            return false;
        }
        i += 1;
    }
    assert(a@ =~= b@);
    true
}

impl Json {
    /// The integer a value holds, or nothing when the value is not an
    /// integer: one check a caller makes when it expects a number shape.
    pub fn as_int(&self) -> (r: Option<i64>)
        ensures
            match self@ {
                JsonV::Int(n) => r matches Some(v) && v as int == n,
                _ => r is None,
            },
    {
        match self {
            Json::Int(n) => Some(*n),
            _ => None,
        }
    }

    /// The first value bound to `key` when this value is an object, or
    /// nothing when it is not an object or has no such member: exactly
    /// [`lookup`] on the model.
    #[verifier::loop_isolation(false)]
    pub fn get<'a>(&'a self, key: &[u8]) -> (r: Option<&'a Json>)
        ensures
            match self@ {
                JsonV::Obj(ms) => match lookup(ms, key@) {
                    Some(v) => r matches Some(j) && j@ == v,
                    None => r is None,
                },
                _ => r is None,
            },
    {
        match self {
            Json::Obj(members) => {
                proof {
                    lemma_view_members_index(members@);
                }
                let ghost ms = view_members(members@);
                proof {
                    assert(ms.skip(0) =~= ms);
                }
                let mut i: usize = 0;
                while i < members.len()
                    invariant
                        0 <= i <= members@.len(),
                        ms == view_members(members@),
                        ms.len() == members@.len(),
                        forall|k: int|
                            0 <= k < members@.len() ==> ms[k] == (
                            members@[k].0@,
                            view_json(members@[k].1),
                            ),
                        lookup(ms, key@) == lookup(ms.skip(i as int), key@),
                    decreases members@.len() - i,
                {
                    proof {
                        assert(ms.skip(i as int)[0] == ms[i as int]);
                        assert(ms.skip(i as int).drop_first() =~= ms.skip(i as int + 1));
                    }
                    if bytes_eq(members[i].0.as_slice(), key) {
                        proof {
                            assert(ms[i as int].0 == key@);
                            assert(lookup(ms.skip(i as int), key@) == Some(ms[i as int].1));
                        }
                        return Some(&members[i].1);
                    }
                    i += 1;
                }
                proof {
                    assert(ms.skip(i as int) =~= Seq::<(Seq<u8>, JsonV)>::empty());
                }
                None
            },
            _ => None,
        }
    }
}

/// The lower-case hexadecimal digit for a value below sixteen.
pub open spec fn hex_digit(d: u8) -> u8 {
    if d < 10 {
        (48 + d) as u8
    } else {
        (87 + d) as u8
    }
}

/// How one string-content byte is escaped on the wire: quote and backslash
/// get a backslash escape, the common control characters get their short
/// escapes, the remaining control characters get a `\u00XX` escape, every
/// other byte stands for itself.
pub open spec fn esc_byte(c: u8) -> Seq<u8> {
    if c == 34 {
        seq![92u8, 34u8]
    } else if c == 92 {
        seq![92u8, 92u8]
    } else if c == 8 {
        seq![92u8, 98u8]
    } else if c == 9 {
        seq![92u8, 116u8]
    } else if c == 10 {
        seq![92u8, 110u8]
    } else if c == 12 {
        seq![92u8, 102u8]
    } else if c == 13 {
        seq![92u8, 114u8]
    } else if c < 32 {
        seq![92u8, 117u8, 48u8, 48u8, hex_digit(c / 16), hex_digit(c % 16)]
    } else {
        seq![c]
    }
}

/// Escaped string content: each byte expanded by [`esc_byte`], in order.
pub open spec fn esc(s: Seq<u8>) -> Seq<u8>
    decreases s.len(),
{
    if s.len() == 0 {
        Seq::empty()
    } else {
        esc_byte(s[0]) + esc(s.drop_first())
    }
}

/// The decimal digits of `n`, most significant first, no sign, no leading
/// zero (a single `0` for zero itself).
pub open spec fn dec_digits(n: nat) -> Seq<u8>
    decreases n,
{
    if n < 10 {
        seq![(48 + n) as u8]
    } else {
        dec_digits(n / 10) + seq![(48 + n % 10) as u8]
    }
}

/// An integer on the wire: an optional minus sign, then decimal digits.
pub open spec fn int_bytes(n: int) -> Seq<u8> {
    if n < 0 {
        seq![45u8] + dec_digits((-n) as nat)
    } else {
        dec_digits(n as nat)
    }
}

/// A string on the wire: escaped content between double quotes.
pub open spec fn str_bytes(s: Seq<u8>) -> Seq<u8> {
    seq![34u8] + esc(s) + seq![34u8]
}

/// The wire encoding of a value: the exact byte sequence [`to_bytes`]
/// produces and the parser reads back.
pub open spec fn json_bytes(v: JsonV) -> Seq<u8>
    decreases v, 0int,
{
    match v {
        JsonV::Null => seq![110u8, 117u8, 108u8, 108u8],
        JsonV::Bool(b) => if b {
            seq![116u8, 114u8, 117u8, 101u8]
        } else {
            seq![102u8, 97u8, 108u8, 115u8, 101u8]
        },
        JsonV::Int(n) => int_bytes(n),
        JsonV::Str(s) => str_bytes(s),
        JsonV::Arr(items) => if items.len() == 0 {
            seq![91u8, 93u8]
        } else {
            seq![91u8] + items_bytes(items) + seq![93u8]
        },
        JsonV::Obj(members) => if members.len() == 0 {
            seq![123u8, 125u8]
        } else {
            seq![123u8] + members_bytes(members) + seq![125u8]
        },
    }
}

/// Comma-separated encodings of a non-empty value list, without the
/// surrounding brackets.
pub open spec fn items_bytes(items: Seq<JsonV>) -> Seq<u8>
    decreases items, 1int,
{
    if items.len() == 0 {
        Seq::empty()
    } else if items.len() == 1 {
        json_bytes(items[0])
    } else {
        json_bytes(items[0]) + seq![44u8] + items_bytes(items.drop_first())
    }
}

/// Comma-separated `"key":value` encodings of a non-empty member list,
/// without the surrounding braces.
pub open spec fn members_bytes(members: Seq<(Seq<u8>, JsonV)>) -> Seq<u8>
    decreases members, 1int,
{
    if members.len() == 0 {
        Seq::empty()
    } else if members.len() == 1 {
        str_bytes(members[0].0) + seq![58u8] + json_bytes(members[0].1)
    } else {
        str_bytes(members[0].0) + seq![58u8] + json_bytes(members[0].1) + seq![44u8]
            + members_bytes(members.drop_first())
    }
}

/// The decimal digits of `m`, exactly as [`dec_digits`] lays them out.
fn dec_to_bytes(m: u64) -> (r: Vec<u8>)
    ensures
        r@ == dec_digits(m as nat),
    decreases m,
{
    if m < 10 {
        let mut r: Vec<u8> = Vec::new();
        r.push(48 + m as u8);
        assert(r@ =~= dec_digits(m as nat));
        r
    } else {
        let mut r = dec_to_bytes(m / 10);
        r.push(48 + (m % 10) as u8);
        assert(r@ =~= dec_digits(m as nat));
        r
    }
}

/// A signed integer, exactly as [`int_bytes`] lays it out.
fn int_to_bytes(n: i64) -> (r: Vec<u8>)
    ensures
        r@ == int_bytes(n as int),
{
    if n >= 0 {
        dec_to_bytes(n as u64)
    } else {
        let mut out: Vec<u8> = Vec::new();
        out.push(45);
        let m: u64 = (-(n as i128)) as u64;
        assert(m as nat == (-(n as int)) as nat);
        let mut d = dec_to_bytes(m);
        out.append(&mut d);
        assert(out@ =~= int_bytes(n as int));
        out
    }
}

/// Escaped content of `s` from position `i` on, exactly as [`esc`] lays it
/// out.
fn esc_bytes(s: &[u8], i: usize) -> (r: Vec<u8>)
    requires
        i <= s@.len(),
    ensures
        r@ == esc(s@.skip(i as int)),
    decreases s@.len() - i,
{
    if i == s.len() {
        let r: Vec<u8> = Vec::new();
        assert(s@.skip(i as int) =~= Seq::<u8>::empty());
        r
    } else {
        let c = s[i];
        let mut head: Vec<u8> = Vec::new();
        if c == 34 {
            head.push(92);
            head.push(34);
        } else if c == 92 {
            head.push(92);
            head.push(92);
        } else if c == 8 {
            head.push(92);
            head.push(98);
        } else if c == 9 {
            head.push(92);
            head.push(116);
        } else if c == 10 {
            head.push(92);
            head.push(110);
        } else if c == 12 {
            head.push(92);
            head.push(102);
        } else if c == 13 {
            head.push(92);
            head.push(114);
        } else if c < 32 {
            head.push(92);
            head.push(117);
            head.push(48);
            head.push(48);
            let hi = c / 16;
            let lo = c % 16;
            head.push(if hi < 10 { 48 + hi } else { 87 + hi });
            head.push(if lo < 10 { 48 + lo } else { 87 + lo });
        } else {
            head.push(c);
        }
        assert(head@ =~= esc_byte(c));
        let mut tail = esc_bytes(s, i + 1);
        head.append(&mut tail);
        proof {
            assert(s@.skip(i as int)[0] == c);
            assert(s@.skip(i as int).drop_first() =~= s@.skip(i as int + 1));
            assert(head@ =~= esc(s@.skip(i as int)));
        }
        head
    }
}

/// A string with quotes and escaping, exactly as [`str_bytes`] lays it out.
fn str_to_bytes(s: &[u8]) -> (r: Vec<u8>)
    ensures
        r@ == str_bytes(s@),
{
    let mut out: Vec<u8> = Vec::new();
    out.push(34);
    let mut content = esc_bytes(s, 0);
    out.append(&mut content);
    out.push(34);
    proof {
        assert(s@.skip(0) =~= s@);
        assert(out@ =~= str_bytes(s@));
    }
    out
}

/// Encode a value for the wire.
///
/// The result is exactly [`json_bytes`] of the value's model: this is the
/// serialization both of script parameters and of script results.
pub fn to_bytes(j: &Json) -> (r: Vec<u8>)
    ensures
        r@ == json_bytes(j@),
    decreases *j, 0int,
{
    match j {
        Json::Null => {
            let mut out: Vec<u8> = Vec::new();
            out.push(110);
            out.push(117);
            out.push(108);
            out.push(108);
            assert(out@ =~= json_bytes(view_json(*j)));
            out
        }
        Json::Bool(b) => {
            let mut out: Vec<u8> = Vec::new();
            if *b {
                out.push(116);
                out.push(114);
                out.push(117);
                out.push(101);
            } else {
                out.push(102);
                out.push(97);
                out.push(108);
                out.push(115);
                out.push(101);
            }
            assert(out@ =~= json_bytes(view_json(*j)));
            out
        }
        Json::Int(n) => int_to_bytes(*n),
        Json::Str(s) => str_to_bytes(s.as_slice()),
        Json::Arr(v) => {
            let mut out: Vec<u8> = Vec::new();
            out.push(91);
            if v.len() > 0 {
                proof {
                    lemma_view_list_index(v@);
                    assert(view_list(v@).skip(0) =~= view_list(v@));
                    assert(decreases_to!(*j => *v));
                    assert(decreases_to!(*v => v@));
                    assert(v@.skip(0) =~= v@);
                }
                let mut inner = items_to_bytes(v, 0);
                out.append(&mut inner);
            }
            out.push(93);
            proof {
                lemma_view_list_index(v@);
                assert(out@ =~= json_bytes(view_json(*j)));
            }
            out
        }
        Json::Obj(v) => {
            let mut out: Vec<u8> = Vec::new();
            out.push(123);
            if v.len() > 0 {
                proof {
                    lemma_view_members_index(v@);
                    assert(view_members(v@).skip(0) =~= view_members(v@));
                    assert(decreases_to!(*j => *v));
                    assert(decreases_to!(*v => v@));
                    assert(v@.skip(0) =~= v@);
                }
                let mut inner = members_to_bytes(v, 0);
                out.append(&mut inner);
            }
            out.push(125);
            proof {
                lemma_view_members_index(v@);
                assert(out@ =~= json_bytes(view_json(*j)));
            }
            out
        }
    }
}

/// Encoded items of `v` from index `i` on, commas between them.
fn items_to_bytes(v: &Vec<Json>, i: usize) -> (r: Vec<u8>)
    requires
        i < v@.len(),
    ensures
        r@ == items_bytes(view_list(v@).skip(i as int)),
    decreases v@.skip(i as int), 1int,
{
    proof {
        assert(decreases_to!(v@.skip(i as int) => v@.skip(i as int)[0]));
        assert(v@.skip(i as int)[0] == v@[i as int]);
    }
    let mut out = to_bytes(&v[i]);
    proof {
        lemma_view_list_index(v@);
        assert(view_list(v@).skip(i as int)[0] == view_list(v@)[i as int]);
    }
    if i < v.len() - 1 {
        out.push(44);
        proof {
            assert(v@.skip(i as int + 1) =~= v@.skip(i as int).subrange(
                1,
                v@.skip(i as int).len() as int,
            ));
        }
        let mut rest = items_to_bytes(v, i + 1);
        out.append(&mut rest);
        proof {
            assert(view_list(v@).skip(i as int).drop_first() =~= view_list(v@).skip(
                i as int + 1,
            ));
            assert(out@ =~= items_bytes(view_list(v@).skip(i as int)));
        }
    } else {
        proof {
            assert(view_list(v@).skip(i as int).len() == 1);
            assert(out@ =~= items_bytes(view_list(v@).skip(i as int)));
        }
    }
    out
}

/// Encoded members of `v` from index `i` on, commas between them.
fn members_to_bytes(v: &Vec<(Vec<u8>, Json)>, i: usize) -> (r: Vec<u8>)
    requires
        i < v@.len(),
    ensures
        r@ == members_bytes(view_members(v@).skip(i as int)),
    decreases v@.skip(i as int), 1int,
{
    proof {
        assert(decreases_to!(v@.skip(i as int) => v@.skip(i as int)[0]));
        assert(v@.skip(i as int)[0] == v@[i as int]);
    }
    let mut out = str_to_bytes(v[i].0.as_slice());
    out.push(58);
    let mut val = to_bytes(&v[i].1);
    out.append(&mut val);
    proof {
        lemma_view_members_index(v@);
        assert(view_members(v@).skip(i as int)[0] == view_members(v@)[i as int]);
    }
    if i < v.len() - 1 {
        out.push(44);
        proof {
            assert(v@.skip(i as int + 1) =~= v@.skip(i as int).subrange(
                1,
                v@.skip(i as int).len() as int,
            ));
        }
        let mut rest = members_to_bytes(v, i + 1);
        out.append(&mut rest);
        proof {
            assert(view_members(v@).skip(i as int).drop_first() =~= view_members(v@).skip(
                i as int + 1,
            ));
            assert(out@ =~= members_bytes(view_members(v@).skip(i as int)));
        }
    } else {
        proof {
            assert(view_members(v@).skip(i as int).len() == 1);
            assert(out@ =~= members_bytes(view_members(v@).skip(i as int)));
        }
    }
    out
}

} // verus!
