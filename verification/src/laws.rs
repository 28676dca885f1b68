//! The round-trip law of the wire format: every well-formed value, encoded
//! by [`crate::json::json_bytes`], is parsed back to itself by the grammar
//! of [`crate::parse`]. Together with the contracts of
//! [`crate::json::to_bytes`] and [`crate::script::decode`], this says that a
//! script whose standard output is the encoding of a value decodes to
//! exactly that value.

use vstd::prelude::*;

use crate::json::{
    dec_digits, esc, esc_byte, hex_digit, int_bytes, items_bytes, json_bytes, lemma_view_wf,
    members_bytes, str_bytes, wf_value, Json, JsonV,
};
use crate::parse::{
    hex4, hex_val, is_digit, is_ws, run_end, run_val, scalar_utf8, sp_doc, sp_items, sp_members,
    sp_number, sp_string, sp_value, ws_end,
};

verus! {

/// Bridge from a subrange equation to index equations.
proof fn lemma_piece_index(b: Seq<u8>, i: int, p: Seq<u8>)
    requires
        0 <= i,
        i + p.len() <= b.len(),
        b.subrange(i, i + p.len()) == p,
    ensures
        forall|k: int| 0 <= k < p.len() ==> b[i + k] == #[trigger] p[k],
{
    assert forall|k: int| 0 <= k < p.len() implies b[i + k] == #[trigger] p[k] by {
        assert(p[k] == b.subrange(i, i + p.len())[k]);
    }
}

/// Bridge from index equations to a subrange equation.
proof fn lemma_index_piece(b: Seq<u8>, i: int, p: Seq<u8>)
    requires
        0 <= i,
        i + p.len() <= b.len(),
        forall|k: int| 0 <= k < p.len() ==> b[i + k] == #[trigger] p[k],
    ensures
        b.subrange(i, i + p.len()) == p,
{
    assert(b.subrange(i, i + p.len()) =~= p);
}

/// Decimal digit sequences hold only digits, start with a nonzero digit
/// when they are longer than one, and are never empty.
proof fn lemma_dec_digits_shape(n: nat)
    ensures
        dec_digits(n).len() >= 1,
        forall|k: int| 0 <= k < dec_digits(n).len() ==> is_digit(#[trigger] dec_digits(n)[k]),
        n >= 10 ==> dec_digits(n)[0] != 48,
        n < 10 ==> dec_digits(n).len() == 1,
        n >= 10 ==> dec_digits(n).len() >= 2,
    decreases n,
{
    if n >= 10 {
        lemma_dec_digits_shape(n / 10);
    }
}

/// A digit run that is laid out in `b` and stops at a non-digit (or at the
/// end) is exactly what [`run_end`] finds.
proof fn lemma_run_end_of(b: Seq<u8>, s: int, e: int)
    requires
        0 <= s <= e <= b.len(),
        forall|k: int| s <= k < e ==> is_digit(#[trigger] b[k]),
        e == b.len() || !is_digit(b[e]),
    ensures
        run_end(b, s) == e,
    decreases e - s,
{
    if s < e {
        lemma_run_end_of(b, s + 1, e);
    }
}

/// The value [`run_val`] reads from the digits of `n` laid out in `b` is
/// `n` itself.
proof fn lemma_run_val_of(n: nat, b: Seq<u8>, s: int)
    requires
        0 <= s,
        s + dec_digits(n).len() <= b.len(),
        forall|k: int|
            0 <= k < dec_digits(n).len() ==> b[s + k] == #[trigger] dec_digits(n)[k],
    ensures
        run_val(b, s, s + dec_digits(n).len()) == n,
    decreases n,
{
    lemma_dec_digits_shape(n);
    if n < 10 {
        assert(b[s] == dec_digits(n)[0]);
        assert(run_val(b, s, s) == 0);
        assert(run_val(b, s, s + 1) == run_val(b, s, s) * 10 + (b[s] - 48) as nat);
    } else {
        let pre = dec_digits(n / 10);
        let e = s + dec_digits(n).len();
        assert(dec_digits(n) == pre + seq![(48 + n % 10) as u8]);
        assert forall|k: int| 0 <= k < pre.len() implies b[s + k] == #[trigger] pre[k] by {
            assert(dec_digits(n)[k] == pre[k]);
        }
        lemma_run_val_of(n / 10, b, s);
        assert(b[e - 1] == dec_digits(n)[dec_digits(n).len() - 1]);
        assert(b[e - 1] == (48 + n % 10) as u8);
        assert(run_val(b, s, e) == run_val(b, s, e - 1) * 10 + (b[e - 1] - 48) as nat);
        assert(run_val(b, s, e) == (n / 10) * 10 + n % 10);
    }
}

/// A number laid out in `b` and followed by a non-digit (or the end) parses
/// back to itself.
proof fn lemma_rt_number(n: int, b: Seq<u8>, i: int)
    requires
        i64::MIN <= n <= i64::MAX,
        0 <= i,
        i + int_bytes(n).len() <= b.len(),
        b.subrange(i, i + int_bytes(n).len()) == int_bytes(n),
        i + int_bytes(n).len() == b.len() || !is_digit(b[i + int_bytes(n).len()]),
    ensures
        sp_number(b, i) == Some((JsonV::Int(n), i + int_bytes(n).len())),
{
    let jb = int_bytes(n);
    let e = i + jb.len();
    lemma_piece_index(b, i, jb);
    if n < 0 {
        let m = (-n) as nat;
        lemma_dec_digits_shape(m);
        assert(jb == seq![45u8] + dec_digits(m));
        assert(jb[0] == 45);
        assert(b[i + 0] == jb[0]);
        assert(b[i] == 45);
        let s = i + 1;
        assert forall|k: int| 0 <= k < dec_digits(m).len() implies b[s + k] == #[trigger]
            dec_digits(m)[k] by {
            assert(dec_digits(m)[k] == jb[k + 1]);
            assert(b[i + (k + 1)] == jb[k + 1]);
        }
        assert forall|k: int| s <= k < e implies is_digit(#[trigger] b[k]) by {
            assert(b[s + (k - s)] == dec_digits(m)[k - s]);
        }
        lemma_run_end_of(b, s, e);
        lemma_run_val_of(m, b, s);
        assert(m <= 0x8000000000000000);
        if dec_digits(m).len() > 1 {
            assert(b[s] == dec_digits(m)[0]);
            assert(b[s] != 48);
        }
        assert(sp_number(b, i) == Some((JsonV::Int(-(m as int)), e)));
        assert(-(m as int) == n);
    } else {
        let m = n as nat;
        lemma_dec_digits_shape(m);
        assert(jb == dec_digits(m));
        assert(b[i + 0] == jb[0]);
        assert(b[i] == dec_digits(m)[0]);
        assert(is_digit(b[i]));
        assert(b[i] != 45);
        assert forall|k: int| i <= k < e implies is_digit(#[trigger] b[k]) by {
            assert(b[i + (k - i)] == jb[k - i]);
        }
        lemma_run_end_of(b, i, e);
        lemma_run_val_of(m, b, i);
        assert(m <= 0x7fffffffffffffff);
        if dec_digits(m).len() > 1 {
            assert(b[i] != 48);
        }
        assert(sp_number(b, i) == Some((JsonV::Int(m as int), e)));
    }
}

/// Escaped string content laid out in `b`, followed by the closing quote,
/// parses back to the original content.
#[verifier::rlimit(30)]
proof fn lemma_rt_string(s: Seq<u8>, b: Seq<u8>, i: int)
    requires
        0 <= i,
        i + esc(s).len() + 1 <= b.len(),
        b.subrange(i, i + esc(s).len() + 1) == esc(s) + seq![34u8],
    ensures
        sp_string(b, i) == Some((s, i + esc(s).len() + 1)),
    decreases s.len(),
{
    let piece = esc(s) + seq![34u8];
    lemma_piece_index(b, i, piece);
    if s.len() == 0 {
        assert(piece[0] == 34);
        assert(b[i + 0] == piece[0]);
        assert(b[i] == 34);
        assert(sp_string(b, i) == Some((Seq::<u8>::empty(), i + 1)));
        assert(Seq::<u8>::empty() =~= s);
    } else {
        let c = s[0];
        let rest = s.drop_first();
        let head = esc_byte(c);
        assert(esc(s) == head + esc(rest));
        assert forall|k: int| 0 <= k < head.len() implies b[i + k] == #[trigger] head[k] by {
            assert(head[k] == piece[k]);
            assert(b[i + k] == piece[k]);
        }
        let j = i + head.len();
        let tailp = esc(rest) + seq![34u8];
        assert forall|k: int| 0 <= k < tailp.len() implies b[j + k] == #[trigger] tailp[k] by {
            assert(tailp[k] == piece[head.len() + k]);
            assert(b[i + (head.len() + k)] == piece[head.len() + k]);
        }
        lemma_index_piece(b, j, tailp);
        lemma_rt_string(rest, b, j);
        assert(seq![c] + rest =~= s);
        if head.len() == 1 {
            assert(b[i + 0] == head[0]);
            assert(b[i] == c);
            assert(c != 34 && c != 92);
        } else if head.len() == 2 {
            assert(b[i + 0] == head[0]);
            assert(b[i + 1] == head[1]);
            assert(b[i] == 92);
        } else {
            // the `\u00XX` escape of a control byte
            assert(c < 32);
            assert(b[i + 0] == head[0]);
            assert(b[i + 1] == head[1]);
            assert(b[i + 2] == head[2]);
            assert(b[i + 3] == head[3]);
            assert(b[i + 4] == head[4]);
            assert(b[i + 5] == head[5]);
            assert(b[i] == 92 && b[i + 1] == 117);
            assert(hex_val(48) == Some(0nat));
            assert(hex_val(hex_digit(c / 16)) == Some((c / 16) as nat));
            assert(hex_val(hex_digit(c % 16)) == Some((c % 16) as nat));
            assert(hex4(b, i + 2) == Some(
                0nat * 4096 + 0nat * 256 + (c / 16) as nat * 16 + (c % 16) as nat,
            ));
            assert((c / 16) as nat * 16 + (c % 16) as nat == c as nat);
            assert(hex4(b, i + 2) == Some(c as nat));
            assert(scalar_utf8(c as nat) =~= seq![c]);
            assert(sp_string(b, i) == Some((s, i + esc(s).len() + 1)));
        }
    }
}

/// Every encoded value is non-empty, and its first byte is never
/// whitespace, a separator, or a closing bracket.
proof fn lemma_json_bytes_first(v: JsonV)
    ensures
        json_bytes(v).len() >= 1,
        !is_ws(json_bytes(v)[0]),
        json_bytes(v)[0] != 44,
        json_bytes(v)[0] != 58,
        json_bytes(v)[0] != 93,
        json_bytes(v)[0] != 125,
{
    match v {
        JsonV::Int(n) => {
            if n < 0 {
                lemma_dec_digits_shape((-n) as nat);
                assert(json_bytes(v)[0] == 45);
            } else {
                lemma_dec_digits_shape(n as nat);
                assert(json_bytes(v)[0] == dec_digits(n as nat)[0]);
                assert(is_digit(json_bytes(v)[0]));
            }
        }
        JsonV::Str(s) => {
            assert(json_bytes(v)[0] == 34);
        }
        JsonV::Arr(items) => {
            if items.len() > 0 {
                assert(json_bytes(v)[0] == 91);
            }
        }
        JsonV::Obj(members) => {
            if members.len() > 0 {
                assert(json_bytes(v)[0] == 123);
            }
        }
        _ => {}
    }
}

/// A value laid out in `b` and not followed by a digit parses back to
/// itself, consuming exactly its encoding.
#[verifier::rlimit(80)]
pub proof fn lemma_rt_value(v: JsonV, b: Seq<u8>, i: int)
    requires
        wf_value(v),
        0 <= i,
        i + json_bytes(v).len() <= b.len(),
        b.subrange(i, i + json_bytes(v).len()) == json_bytes(v),
        i + json_bytes(v).len() == b.len() || !is_digit(b[i + json_bytes(v).len()]),
    ensures
        sp_value(b, i) == Some((v, i + json_bytes(v).len())),
    decreases v, 0int,
{
    let jb = json_bytes(v);
    let e = i + jb.len();
    lemma_piece_index(b, i, jb);
    match v {
        JsonV::Null => {
            assert(b[i + 0] == jb[0]);
            assert(b[i + 1] == jb[1]);
            assert(b[i + 2] == jb[2]);
            assert(b[i + 3] == jb[3]);
            assert(sp_value(b, i) == Some((JsonV::Null, i + 4)));
        }
        JsonV::Bool(t) => {
            if t {
                assert(b[i + 0] == jb[0]);
                assert(b[i + 1] == jb[1]);
                assert(b[i + 2] == jb[2]);
                assert(b[i + 3] == jb[3]);
                assert(sp_value(b, i) == Some((JsonV::Bool(true), i + 4)));
            } else {
                assert(b[i + 0] == jb[0]);
                assert(b[i + 1] == jb[1]);
                assert(b[i + 2] == jb[2]);
                assert(b[i + 3] == jb[3]);
                assert(b[i + 4] == jb[4]);
                assert(sp_value(b, i) == Some((JsonV::Bool(false), i + 5)));
            }
        }
        JsonV::Int(n) => {
            lemma_rt_number(n, b, i);
            assert(b[i + 0] == jb[0]);
            lemma_json_bytes_first(v);
            if n < 0 {
                assert(b[i] == 45);
            } else {
                lemma_dec_digits_shape(n as nat);
                assert(b[i] == dec_digits(n as nat)[0]);
                assert(is_digit(b[i]));
            }
        }
        JsonV::Str(s) => {
            assert(jb == seq![34u8] + esc(s) + seq![34u8]);
            assert(b[i + 0] == jb[0]);
            assert(b[i] == 34);
            let tailp = esc(s) + seq![34u8];
            assert forall|k: int| 0 <= k < tailp.len() implies b[i + 1 + k] == #[trigger]
                tailp[k] by {
                assert(tailp[k] == jb[k + 1]);
                assert(b[i + (k + 1)] == jb[k + 1]);
            }
            lemma_index_piece(b, i + 1, tailp);
            lemma_rt_string(s, b, i + 1);
            assert(sp_value(b, i) == Some((JsonV::Str(s), e)));
        }
        JsonV::Arr(items) => {
            assert(b[i + 0] == jb[0]);
            if items.len() == 0 {
                assert(b[i + 1] == jb[1]);
                assert(b[i] == 91 && b[i + 1] == 93);
                assert(sp_value(b, i) == Some((JsonV::Arr(Seq::<JsonV>::empty()), i + 2)));
                assert(Seq::<JsonV>::empty() =~= items);
                assert(JsonV::Arr(Seq::<JsonV>::empty()) =~= v);
            } else {
                assert(b[i] == 91);
                let ib = items_bytes(items);
                assert(jb == seq![91u8] + ib + seq![93u8]);
                lemma_json_bytes_first(items[0]);
                assert(ib[0] == json_bytes(items[0])[0]);
                assert(b[i + 1] == jb[1]);
                assert(jb[1] == ib[0]);
                assert(b[i + 1] != 93);
                let tailp = ib + seq![93u8];
                assert forall|k: int| 0 <= k < tailp.len() implies b[i + 1 + k] == #[trigger]
                    tailp[k] by {
                    assert(tailp[k] == jb[k + 1]);
                    assert(b[i + (k + 1)] == jb[k + 1]);
                }
                lemma_index_piece(b, i + 1, tailp);
                assert(decreases_to!(v => items));
                lemma_rt_items(items, b, i + 1);
                assert(sp_value(b, i) == Some((JsonV::Arr(items), e)));
            }
        }
        JsonV::Obj(members) => {
            assert(b[i + 0] == jb[0]);
            if members.len() == 0 {
                assert(b[i + 1] == jb[1]);
                assert(b[i] == 123 && b[i + 1] == 125);
                assert(sp_value(b, i) == Some((
                    JsonV::Obj(Seq::<(Seq<u8>, JsonV)>::empty()),
                    i + 2,
                )));
                assert(Seq::<(Seq<u8>, JsonV)>::empty() =~= members);
                assert(JsonV::Obj(Seq::<(Seq<u8>, JsonV)>::empty()) =~= v);
            } else {
                assert(b[i] == 123);
                let mb = members_bytes(members);
                assert(jb == seq![123u8] + mb + seq![125u8]);
                assert(mb[0] == str_bytes(members[0].0)[0]);
                assert(mb[0] == 34);
                assert(b[i + 1] == jb[1]);
                assert(jb[1] == mb[0]);
                assert(b[i + 1] != 125);
                let tailp = mb + seq![125u8];
                assert forall|k: int| 0 <= k < tailp.len() implies b[i + 1 + k] == #[trigger]
                    tailp[k] by {
                    assert(tailp[k] == jb[k + 1]);
                    assert(b[i + (k + 1)] == jb[k + 1]);
                }
                lemma_index_piece(b, i + 1, tailp);
                assert(decreases_to!(v => members));
                lemma_rt_members(members, b, i + 1);
                assert(sp_value(b, i) == Some((JsonV::Obj(members), e)));
            }
        }
    }
}

/// A non-empty item list laid out in `b`, followed by the closing bracket,
/// parses back to itself.
#[verifier::rlimit(30)]
proof fn lemma_rt_items(items: Seq<JsonV>, b: Seq<u8>, i: int)
    requires
        items.len() >= 1,
        forall|k: int| 0 <= k < items.len() ==> wf_value(#[trigger] items[k]),
        0 <= i,
        i + items_bytes(items).len() + 1 <= b.len(),
        b.subrange(i, i + items_bytes(items).len() + 1) == items_bytes(items) + seq![93u8],
    ensures
        sp_items(b, i) == Some((items, i + items_bytes(items).len() + 1)),
    decreases items, 1int,
{
    let ib = items_bytes(items);
    let piece = ib + seq![93u8];
    lemma_piece_index(b, i, piece);
    let v0 = items[0];
    let jb0 = json_bytes(v0);
    lemma_json_bytes_first(v0);
    assert(decreases_to!(items => items[0]));
    if items.len() == 1 {
        assert(ib == jb0);
        assert forall|k: int| 0 <= k < jb0.len() implies b[i + k] == #[trigger] jb0[k] by {
            assert(jb0[k] == piece[k]);
            assert(b[i + k] == piece[k]);
        }
        lemma_index_piece(b, i, jb0);
        let j = i + jb0.len();
        assert(b[i + jb0.len() as int] == piece[jb0.len() as int]);
        assert(b[j] == 93);
        lemma_rt_value(v0, b, i);
        assert(sp_items(b, i) == Some((seq![v0], j + 1)));
        assert(seq![v0] =~= items);
    } else {
        let rest = items.drop_first();
        assert(ib == jb0 + seq![44u8] + items_bytes(rest));
        assert forall|k: int| 0 <= k < jb0.len() implies b[i + k] == #[trigger] jb0[k] by {
            assert(jb0[k] == piece[k]);
            assert(b[i + k] == piece[k]);
        }
        lemma_index_piece(b, i, jb0);
        let j = i + jb0.len();
        assert(b[i + jb0.len() as int] == piece[jb0.len() as int]);
        assert(b[j] == 44);
        lemma_rt_value(v0, b, i);
        let restp = items_bytes(rest) + seq![93u8];
        assert forall|k: int| 0 <= k < restp.len() implies b[j + 1 + k] == #[trigger]
            restp[k] by {
            assert(restp[k] == piece[jb0.len() + 1 + k]);
            assert(b[i + (jb0.len() + 1 + k)] == piece[jb0.len() + 1 + k]);
        }
        lemma_index_piece(b, j + 1, restp);
        assert(forall|k: int| 0 <= k < rest.len() ==> wf_value(#[trigger] rest[k])) by {
            assert(forall|k: int| 0 <= k < rest.len() ==> rest[k] == items[k + 1]);
        }
        lemma_rt_items(rest, b, j + 1);
        assert(sp_items(b, i) == Some((
            seq![v0] + rest,
            j + 1 + items_bytes(rest).len() + 1,
        )));
        assert(seq![v0] + rest =~= items);
    }
}

/// A non-empty member list laid out in `b`, followed by the closing brace,
/// parses back to itself.
#[verifier::rlimit(30)]
proof fn lemma_rt_members(members: Seq<(Seq<u8>, JsonV)>, b: Seq<u8>, i: int)
    requires
        members.len() >= 1,
        forall|k: int| 0 <= k < members.len() ==> wf_value(#[trigger] members[k].1),
        0 <= i,
        i + members_bytes(members).len() + 1 <= b.len(),
        b.subrange(i, i + members_bytes(members).len() + 1) == members_bytes(members)
            + seq![125u8],
    ensures
        sp_members(b, i) == Some((members, i + members_bytes(members).len() + 1)),
    decreases members, 1int,
{
    let mb = members_bytes(members);
    let piece = mb + seq![125u8];
    lemma_piece_index(b, i, piece);
    let key = members[0].0;
    let val = members[0].1;
    let kb = str_bytes(key);
    let vb = json_bytes(val);
    lemma_json_bytes_first(val);
    let m0b = kb + seq![58u8] + vb;
    if members.len() == 1 {
        assert(mb == m0b);
    } else {
        assert(mb == m0b + seq![44u8] + members_bytes(members.drop_first()));
    }
    assert forall|k: int| 0 <= k < m0b.len() implies b[i + k] == #[trigger] m0b[k] by {
        assert(m0b[k] == piece[k]);
        assert(b[i + k] == piece[k]);
    }
    assert(b[i + 0] == m0b[0]);
    assert(m0b[0] == kb[0]);
    assert(b[i] == 34);
    let keyp = esc(key) + seq![34u8];
    assert forall|k: int| 0 <= k < keyp.len() implies b[i + 1 + k] == #[trigger] keyp[k] by {
        assert(keyp[k] == kb[k + 1]);
        assert(m0b[k + 1] == kb[k + 1]);
        assert(b[i + (k + 1)] == m0b[k + 1]);
    }
    lemma_index_piece(b, i + 1, keyp);
    lemma_rt_string(key, b, i + 1);
    let j = i + kb.len();
    assert(sp_string(b, i + 1) == Some((key, j)));
    assert(b[i + kb.len() as int] == m0b[kb.len() as int]);
    assert(m0b[kb.len() as int] == 58);
    assert(b[j] == 58);
    assert forall|k: int| 0 <= k < vb.len() implies b[j + 1 + k] == #[trigger] vb[k] by {
        assert(m0b[kb.len() + 1 + k] == vb[k]);
        assert(b[i + (kb.len() + 1 + k)] == m0b[kb.len() + 1 + k]);
    }
    lemma_index_piece(b, j + 1, vb);
    let k2 = j + 1 + vb.len();
    assert(b[i + m0b.len() as int] == piece[m0b.len() as int]);
    assert(decreases_to!(members => members[0]));
    assert(decreases_to!(members[0] => members[0].1));
    if members.len() == 1 {
        assert(b[k2] == 125);
        lemma_rt_value(val, b, j + 1);
        assert(sp_members(b, i) == Some((seq![(key, val)], k2 + 1)));
        assert((key, val) == members[0]);
        assert(seq![(key, val)] =~= members);
    } else {
        assert(b[k2] == 44);
        lemma_rt_value(val, b, j + 1);
        let rest = members.drop_first();
        let restp = members_bytes(rest) + seq![125u8];
        assert forall|k: int| 0 <= k < restp.len() implies b[k2 + 1 + k] == #[trigger]
            restp[k] by {
            assert(restp[k] == piece[m0b.len() + 1 + k]);
            assert(b[i + (m0b.len() + 1 + k)] == piece[m0b.len() + 1 + k]);
        }
        lemma_index_piece(b, k2 + 1, restp);
        assert(forall|k: int| 0 <= k < rest.len() ==> wf_value(#[trigger] rest[k].1)) by {
            assert(forall|k: int| 0 <= k < rest.len() ==> rest[k] == members[k + 1]);
        }
        lemma_rt_members(rest, b, k2 + 1);
        assert(sp_members(b, i) == Some((
            seq![(key, val)] + rest,
            k2 + 1 + members_bytes(rest).len() + 1,
        )));
        assert((key, val) == members[0]);
        assert(seq![(key, val)] + rest =~= members);
    }
}

/// The round-trip law of the wire format: every well-formed value, once
/// encoded, parses back to exactly itself as a whole document.
pub proof fn lemma_round_trip(v: JsonV)
    requires
        wf_value(v),
    ensures
        sp_doc(json_bytes(v)) == Some(v),
{
    let b = json_bytes(v);
    lemma_json_bytes_first(v);
    assert(ws_end(b, 0) == 0);
    assert(b.subrange(0, b.len() as int) =~= b);
    lemma_rt_value(v, b, 0);
    assert(ws_end(b, b.len() as int) == b.len());
}

/// The round-trip law over the executable value type: the model of any
/// [`Json`] value is well formed and its encoding decodes back to the same
/// model, so a script run whose standard output is `to_bytes(j)` decodes,
/// through [`crate::script::decode`], to a value equal to `j`.
pub proof fn lemma_encode_then_decode(j: Json)
    ensures
        sp_doc(json_bytes(j@)) == Some(j@),
{
    lemma_view_wf(j);
    lemma_round_trip(j@);
}

} // verus!
