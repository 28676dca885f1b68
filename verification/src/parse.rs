//! Reading the wire format back into values.
//!
//! The grammar is given by spec functions (`sp_value` and its helpers): a
//! single structured value, with optional leading and trailing ASCII
//! whitespace around it and nothing else. The executable parser returns
//! exactly what the spec functions denote, and [`crate::laws`] proves that
//! every encoded value parses back to itself.

use vstd::prelude::*;

use crate::json::{Json, JsonV};

verus! {

/// ASCII decimal digit.
pub open spec fn is_digit(c: u8) -> bool {
    48 <= c <= 57
}

/// ASCII whitespace as the wire format allows it around the value.
pub open spec fn is_ws(c: u8) -> bool {
    c == 32 || c == 9 || c == 10 || c == 13
}

/// First position at or after `i` that does not hold whitespace.
pub open spec fn ws_end(b: Seq<u8>, i: int) -> int
    decreases b.len() - i,
{
    if 0 <= i < b.len() && is_ws(b[i]) {
        ws_end(b, i + 1)
    } else {
        i
    }
}

/// First position at or after `i` that does not hold a digit.
pub open spec fn run_end(b: Seq<u8>, i: int) -> int
    decreases b.len() - i,
{
    if 0 <= i < b.len() && is_digit(b[i]) {
        run_end(b, i + 1)
    } else {
        i
    }
}

/// Value of the digit run `b[i..j]`, most significant digit first.
pub open spec fn run_val(b: Seq<u8>, i: int, j: int) -> nat
    decreases j - i,
{
    if i >= j {
        0
    } else {
        run_val(b, i, j - 1) * 10 + (b[j - 1] - 48) as nat
    }
}

/// Value of one hexadecimal digit, either case.
pub open spec fn hex_val(c: u8) -> Option<nat> {
    if 48 <= c <= 57 {
        Some((c - 48) as nat)
    } else if 97 <= c <= 102 {
        Some((c - 87) as nat)
    } else if 65 <= c <= 70 {
        Some((c - 55) as nat)
    } else {
        None
    }
}

/// Value of the four hexadecimal digits at `i`, if they are there.
pub open spec fn hex4(b: Seq<u8>, i: int) -> Option<nat> {
    if i < 0 || i + 4 > b.len() {
        None
    } else {
        match (hex_val(b[i]), hex_val(b[i + 1]), hex_val(b[i + 2]), hex_val(b[i + 3])) {
            (Some(d0), Some(d1), Some(d2), Some(d3)) => Some(
                d0 * 4096 + d1 * 256 + d2 * 16 + d3,
            ),
            _ => None,
        }
    }
}

/// The UTF-8 bytes of a scalar value (one to four bytes by range).
pub open spec fn scalar_utf8(cp: nat) -> Seq<u8> {
    if cp < 0x80 {
        seq![cp as u8]
    } else if cp < 0x800 {
        seq![(192 + cp / 64) as u8, (128 + cp % 64) as u8]
    } else if cp < 0x10000 {
        seq![(224 + cp / 4096) as u8, (128 + (cp / 64) % 64) as u8, (128 + cp % 64) as u8]
    } else {
        seq![
            (240 + cp / 262144) as u8,
            (128 + (cp / 4096) % 64) as u8,
            (128 + (cp / 64) % 64) as u8,
            (128 + cp % 64) as u8,
        ]
    }
}

/// Parse string content starting at `i` (just past the opening quote), up
/// to and including the closing quote. Returns the unescaped content and
/// the position just past the closing quote. A `\uXXXX` escape denotes a
/// scalar value carried as its UTF-8 bytes; a surrogate pair denotes one
/// supplementary scalar; a lone surrogate is rejected.
pub open spec fn sp_string(b: Seq<u8>, i: int) -> Option<(Seq<u8>, int)>
    decreases b.len() - i,
{
    if i < 0 || i >= b.len() {
        None
    } else if b[i] == 34 {
        Some((Seq::empty(), i + 1))
    } else if b[i] == 92 {
        if i + 1 >= b.len() {
            None
        } else {
            let e = b[i + 1];
            if e == 34 || e == 92 || e == 47 || e == 98 || e == 102 || e == 110 || e == 114
                || e == 116 {
                let c: u8 = if e == 98 {
                    8
                } else if e == 116 {
                    9
                } else if e == 110 {
                    10
                } else if e == 102 {
                    12
                } else if e == 114 {
                    13
                } else {
                    e
                };
                match sp_string(b, i + 2) {
                    None => None,
                    Some((s, k)) => Some((seq![c] + s, k)),
                }
            } else if e == 117 {  // 'u'
                match hex4(b, i + 2) {
                    None => None,
                    Some(v) => {
                        if 0xD800 <= v < 0xDC00 {
                            if i + 12 > b.len() || b[i + 6] != 92 || b[i + 7] != 117 {
                                None
                            } else {
                                match hex4(b, i + 8) {
                                    None => None,
                                    Some(w) => {
                                        if !(0xDC00 <= w < 0xE000) {
                                            None
                                        } else {
                                            let cp = 0x10000 + (v - 0xD800) * 0x400 + (w
                                                - 0xDC00);
                                            match sp_string(b, i + 12) {
                                                None => None,
                                                Some((s, k)) => Some((
                                                    scalar_utf8(cp as nat) + s,
                                                    k,
                                                )),
                                            }
                                        }
                                    },
                                }
                            }
                        } else if 0xDC00 <= v < 0xE000 {
                            None
                        } else {
                            match sp_string(b, i + 6) {
                                None => None,
                                Some((s, k)) => Some((scalar_utf8(v) + s, k)),
                            }
                        }
                    },
                }
            } else {
                None
            }
        }
    } else {
        match sp_string(b, i + 1) {
            None => None,
            Some((s, k)) => Some((seq![b[i]] + s, k)),
        }
    }
}

/// Parse a number starting at `i`: an optional minus sign, then a digit run
/// with no leading zero, whose value must fit in a signed 64-bit word.
pub open spec fn sp_number(b: Seq<u8>, i: int) -> Option<(JsonV, int)> {
    let neg = 0 <= i < b.len() && b[i] == 45;
    let s = if neg {
        i + 1
    } else {
        i
    };
    if !(0 <= s < b.len()) {
        None
    } else {
        let e = run_end(b, s);
        if e == s {
            None
        } else if b[s] == 48 && e > s + 1 {
            None
        } else {
            let m = run_val(b, s, e);
            if neg {
                if m > 0x8000000000000000 {
                    None
                } else {
                    Some((JsonV::Int(-(m as int)), e))
                }
            } else {
                if m > 0x7fffffffffffffff {
                    None
                } else {
                    Some((JsonV::Int(m as int), e))
                }
            }
        }
    }
}

/// Parse one value starting at `i`. Returns its model and the position just
/// past it.
pub open spec fn sp_value(b: Seq<u8>, i: int) -> Option<(JsonV, int)>
    decreases b.len() - i, 0int,
{
    if i < 0 || i >= b.len() {
        None
    } else {
        let c = b[i];
        if c == 110 {  // 'n'
            if i + 4 <= b.len() && b[i + 1] == 117 && b[i + 2] == 108 && b[i + 3] == 108 {
                Some((JsonV::Null, i + 4))
            } else {
                None
            }
        } else if c == 116 {  // 't'
            if i + 4 <= b.len() && b[i + 1] == 114 && b[i + 2] == 117 && b[i + 3] == 101 {
                Some((JsonV::Bool(true), i + 4))
            } else {
                None
            }
        } else if c == 102 {  // 'f'
            if i + 5 <= b.len() && b[i + 1] == 97 && b[i + 2] == 108 && b[i + 3] == 115 && b[i
                + 4] == 101 {
                Some((JsonV::Bool(false), i + 5))
            } else {
                None
            }
        } else if c == 45 || is_digit(c) {
            sp_number(b, i)
        } else if c == 34 {  // '"'
            match sp_string(b, i + 1) {
                None => None,
                Some((s, k)) => Some((JsonV::Str(s), k)),
            }
        } else if c == 91 {  // '['
            if i + 1 < b.len() && b[i + 1] == 93 {
                Some((JsonV::Arr(Seq::empty()), i + 2))
            } else {
                match sp_items(b, i + 1) {
                    None => None,
                    Some((vs, k)) => Some((JsonV::Arr(vs), k)),
                }
            }
        } else if c == 123 {  // '{'
            if i + 1 < b.len() && b[i + 1] == 125 {
                Some((JsonV::Obj(Seq::empty()), i + 2))
            } else {
                match sp_members(b, i + 1) {
                    None => None,
                    Some((ms, k)) => Some((JsonV::Obj(ms), k)),
                }
            }
        } else {
            None
        }
    }
}

/// Parse the items of a non-empty array starting at `i` (just past the
/// opening bracket), up to and including the closing bracket.
pub open spec fn sp_items(b: Seq<u8>, i: int) -> Option<(Seq<JsonV>, int)>
    decreases b.len() - i, 1int,
{
    match sp_value(b, i) {
        None => None,
        Some((v, j)) => {
            if j <= i || j >= b.len() {
                None
            } else if b[j] == 44 {  // ','
                match sp_items(b, j + 1) {
                    None => None,
                    Some((rest, k)) => Some((seq![v] + rest, k)),
                }
            } else if b[j] == 93 {  // ']'
                Some((seq![v], j + 1))
            } else {
                None
            }
        },
    }
}

/// Parse the members of a non-empty object starting at `i` (just past the
/// opening brace), up to and including the closing brace.
pub open spec fn sp_members(b: Seq<u8>, i: int) -> Option<(Seq<(Seq<u8>, JsonV)>, int)>
    decreases b.len() - i, 1int,
{
    if !(0 <= i < b.len() && b[i] == 34) {
        None
    } else {
        match sp_string(b, i + 1) {
            None => None,
            Some((key, j)) => {
                if j <= i || j >= b.len() || b[j] != 58 {  // ':'
                    None
                } else {
                    match sp_value(b, j + 1) {
                        None => None,
                        Some((v, k)) => {
                            if k <= i || k >= b.len() {
                                None
                            } else if b[k] == 44 {  // ','
                                match sp_members(b, k + 1) {
                                    None => None,
                                    Some((rest, l)) => Some((seq![(key, v)] + rest, l)),
                                }
                            } else if b[k] == 125 {  // '}'
                                Some((seq![(key, v)], k + 1))
                            } else {
                                None
                            }
                        },
                    }
                }
            },
        }
    }
}

/// Every position in a digit run up to [`run_end`] holds a digit, and the
/// run stops at the end of the input or at a non-digit.
pub proof fn lemma_run_end_props(b: Seq<u8>, i: int)
    requires
        0 <= i <= b.len(),
    ensures
        i <= run_end(b, i) <= b.len(),
        forall|k: int| i <= k < run_end(b, i) ==> is_digit(b[k]),
        run_end(b, i) == b.len() || !is_digit(b[run_end(b, i)]),
    decreases b.len() - i,
{
    if i < b.len() && is_digit(b[i]) {
        lemma_run_end_props(b, i + 1);
    }
}

/// A digit run's value never shrinks as the run grows.
pub proof fn lemma_run_val_mono(b: Seq<u8>, i: int, j1: int, j2: int)
    requires
        i <= j1 <= j2,
    ensures
        run_val(b, i, j1) <= run_val(b, i, j2),
    decreases j2 - j1,
{
    if j1 < j2 {
        lemma_run_val_mono(b, i, j1, j2 - 1);
    }
}

/// Parse a whole standard-output document: exactly one value, optionally
/// surrounded by whitespace.
pub open spec fn sp_doc(b: Seq<u8>) -> Option<JsonV> {
    match sp_value(b, ws_end(b, 0)) {
        None => None,
        Some((v, k)) => {
            if ws_end(b, k) == b.len() {
                Some(v)
            } else {
                None
            }
        },
    }
}

/// Executable counterpart of [`hex_val`].
fn hex_digit_val(c: u8) -> (r: Option<u8>)
    ensures
        match hex_val(c) {
            None => r is None,
            Some(v) => r matches Some(x) && x as nat == v,
        },
{
    if 48 <= c && c <= 57 {
        Some(c - 48)
    } else if 97 <= c && c <= 102 {
        Some(c - 87)
    } else if 65 <= c && c <= 70 {
        Some(c - 55)
    } else {
        None
    }
}

/// Executable counterpart of [`hex4`].
fn p_hex4(b: &[u8], i: usize) -> (r: Option<u32>)
    ensures
        match hex4(b@, i as int) {
            None => r is None,
            Some(v) => r matches Some(x) && x as nat == v && x < 0x10000,
        },
{
    if i >= b.len() || b.len() - i < 4 {
        return None;
    }
    let d0 = match hex_digit_val(b[i]) {
        Some(d) => d,
        None => {
            return None;
        },
    };
    let d1 = match hex_digit_val(b[i + 1]) {
        Some(d) => d,
        None => {
            return None;
        },
    };
    let d2 = match hex_digit_val(b[i + 2]) {
        Some(d) => d,
        None => {
            return None;
        },
    };
    let d3 = match hex_digit_val(b[i + 3]) {
        Some(d) => d,
        None => {
            return None;
        },
    };
    Some((d0 as u32) * 4096 + (d1 as u32) * 256 + (d2 as u32) * 16 + (d3 as u32))
}

/// The UTF-8 bytes of a scalar value, exactly as [`scalar_utf8`] lays them
/// out.
fn scalar_bytes(cp: u32) -> (r: Vec<u8>)
    requires
        cp <= 0x10FFFF,
    ensures
        r@ == scalar_utf8(cp as nat),
{
    let mut out: Vec<u8> = Vec::new();
    if cp < 0x80 {
        out.push(cp as u8);
    } else if cp < 0x800 {
        out.push(192 + (cp / 64) as u8);
        out.push(128 + (cp % 64) as u8);
    } else if cp < 0x10000 {
        out.push(224 + (cp / 4096) as u8);
        out.push(128 + ((cp / 64) % 64) as u8);
        out.push(128 + (cp % 64) as u8);
    } else {
        out.push(240 + (cp / 262144) as u8);
        out.push(128 + ((cp / 4096) % 64) as u8);
        out.push(128 + ((cp / 64) % 64) as u8);
        out.push(128 + (cp % 64) as u8);
    }
    assert(out@ =~= scalar_utf8(cp as nat));
    out
}

/// Executable counterpart of [`sp_string`].
fn p_string(b: &[u8], i: usize) -> (r: Option<(Vec<u8>, usize)>)
    ensures
        match sp_string(b@, i as int) {
            None => r is None,
            Some(sk) => r matches Some(p) && p.0@ == sk.0 && p.1 as int == sk.1 && p.1
                <= b@.len(),
        },
    decreases b@.len() - i,
{
    if i >= b.len() {
        return None;
    }
    let c = b[i];
    if c == 34 {
        Some((Vec::new(), i + 1))
    } else if c == 92 {
        if i + 1 >= b.len() {
            return None;
        }
        let e = b[i + 1];
        if e == 34 || e == 92 || e == 47 || e == 98 || e == 102 || e == 110 || e == 114 || e
            == 116 {
            let c2: u8 = if e == 98 {
                8
            } else if e == 116 {
                9
            } else if e == 110 {
                10
            } else if e == 102 {
                12
            } else if e == 114 {
                13
            } else {
                e
            };
            match p_string(b, i + 2) {
                None => None,
                Some((mut s, k)) => {
                    s.insert(0, c2);
                    proof {
                        let sk = sp_string(b@, i as int).unwrap();
                        assert(s@ =~= sk.0);
                    }
                    Some((s, k))
                },
            }
        } else if e == 117 {
            let v = match p_hex4(b, i + 2) {
                Some(v) => v,
                None => {
                    return None;
                },
            };
            if 0xD800 <= v && v < 0xDC00 {
                if b.len() - i < 12 || b[i + 6] != 92 || b[i + 7] != 117 {
                    return None;
                }
                let w = match p_hex4(b, i + 8) {
                    Some(w) => w,
                    None => {
                        return None;
                    },
                };
                if !(0xDC00 <= w && w < 0xE000) {
                    return None;
                }
                let cp: u32 = 0x10000 + (v - 0xD800) * 0x400 + (w - 0xDC00);
                match p_string(b, i + 12) {
                    None => None,
                    Some((mut s, k)) => {
                        let mut out = scalar_bytes(cp);
                        out.append(&mut s);
                        proof {
                            let sk = sp_string(b@, i as int).unwrap();
                            assert(out@ =~= sk.0);
                        }
                        Some((out, k))
                    },
                }
            } else if 0xDC00 <= v && v < 0xE000 {
                None
            } else {
                match p_string(b, i + 6) {
                    None => None,
                    Some((mut s, k)) => {
                        let mut out = scalar_bytes(v);
                        out.append(&mut s);
                        proof {
                            let sk = sp_string(b@, i as int).unwrap();
                            assert(out@ =~= sk.0);
                        }
                        Some((out, k))
                    },
                }
            }
        } else {
            None
        }
    } else {
        match p_string(b, i + 1) {
            None => None,
            Some((mut s, k)) => {
                s.insert(0, c);
                proof {
                    let sk = sp_string(b@, i as int).unwrap();
                    assert(s@ =~= sk.0);
                }
                Some((s, k))
            },
        }
    }
}

/// Executable counterpart of [`sp_number`].
#[verifier::loop_isolation(false)]
fn p_number(b: &[u8], i: usize) -> (r: Option<(Json, usize)>)
    ensures
        match sp_number(b@, i as int) {
            None => r is None,
            Some(vk) => r matches Some(p) && p.0@ == vk.0 && p.1 as int == vk.1 && p.1
                <= b@.len(),
        },
{
    let neg = i < b.len() && b[i] == 45;
    let s = if neg {
        i + 1
    } else {
        i
    };
    if s >= b.len() {
        return None;
    }
    proof {
        lemma_run_end_props(b@, s as int);
    }
    let mut e = s;
    while e < b.len() && 48 <= b[e] && b[e] <= 57
        invariant
            s <= e <= b@.len(),
            run_end(b@, s as int) == run_end(b@, e as int),
        decreases b@.len() - e,
    {
        e += 1;
    }
    assert(run_end(b@, s as int) == e as int);
    if e == s {
        return None;
    }
    if b[s] == 48 && e > s + 1 {
        return None;
    }
    let mut acc: u64 = 0;
    let mut k = s;
    while k < e
        invariant
            s <= k <= e <= b@.len(),
            e as int == run_end(b@, s as int),
            forall|t: int| s <= t < e ==> is_digit(b@[t]),
            acc as nat == run_val(b@, s as int, k as int),
            acc <= 0x8000000000000000,
        decreases e - k,
    {
        let d = b[k] - 48;
        let next: u128 = (acc as u128) * 10 + (d as u128);
        if next > 0x8000000000000000u128 {
            proof {
                assert(run_val(b@, s as int, k as int + 1) == run_val(b@, s as int, k as int)
                    * 10 + (b@[k as int] - 48) as nat);
                lemma_run_val_mono(b@, s as int, k as int + 1, e as int);
            }
            return None;
        }
        acc = next as u64;
        k += 1;
    }
    if neg {
        let v: i64 = (-(acc as i128)) as i64;
        Some((Json::Int(v), e))
    } else {
        if acc > 0x7fffffffffffffff {
            return None;
        }
        Some((Json::Int(acc as i64), e))
    }
}

/// Executable counterpart of [`sp_value`].
fn p_value(b: &[u8], i: usize) -> (r: Option<(Json, usize)>)
    ensures
        match sp_value(b@, i as int) {
            None => r is None,
            Some(vk) => r matches Some(p) && p.0@ == vk.0 && p.1 as int == vk.1 && p.1
                <= b@.len(),
        },
    decreases b@.len() - i, 0int,
{
    if i >= b.len() {
        return None;
    }
    let c = b[i];
    if c == 110 {
        if b.len() - i >= 4 && b[i + 1] == 117 && b[i + 2] == 108 && b[i + 3] == 108 {
            Some((Json::Null, i + 4))
        } else {
            None
        }
    } else if c == 116 {
        if b.len() - i >= 4 && b[i + 1] == 114 && b[i + 2] == 117 && b[i + 3] == 101 {
            Some((Json::Bool(true), i + 4))
        } else {
            None
        }
    } else if c == 102 {
        if b.len() - i >= 5 && b[i + 1] == 97 && b[i + 2] == 108 && b[i + 3] == 115 && b[i + 4]
            == 101 {
            Some((Json::Bool(false), i + 5))
        } else {
            None
        }
    } else if c == 45 || (48 <= c && c <= 57) {
        p_number(b, i)
    } else if c == 34 {
        match p_string(b, i + 1) {
            None => None,
            Some((s, k)) => Some((Json::Str(s), k)),
        }
    } else if c == 91 {
        if i + 1 < b.len() && b[i + 1] == 93 {
            let empty: Vec<Json> = Vec::new();
            proof {
                assert(crate::json::view_list(empty@) =~= Seq::<JsonV>::empty());
            }
            Some((Json::Arr(empty), i + 2))
        } else {
            match p_items(b, i + 1) {
                None => None,
                Some((vs, k)) => Some((Json::Arr(vs), k)),
            }
        }
    } else if c == 123 {
        if i + 1 < b.len() && b[i + 1] == 125 {
            let empty: Vec<(Vec<u8>, Json)> = Vec::new();
            proof {
                assert(crate::json::view_members(empty@) =~= Seq::<(Seq<u8>, JsonV)>::empty());
            }
            Some((Json::Obj(empty), i + 2))
        } else {
            match p_members(b, i + 1) {
                None => None,
                Some((ms, k)) => Some((Json::Obj(ms), k)),
            }
        }
    } else {
        None
    }
}

/// Executable counterpart of [`sp_items`].
fn p_items(b: &[u8], i: usize) -> (r: Option<(Vec<Json>, usize)>)
    ensures
        match sp_items(b@, i as int) {
            None => r is None,
            Some(vk) => r matches Some(p) && crate::json::view_list(p.0@) == vk.0 && p.1 as int
                == vk.1 && p.1 <= b@.len(),
        },
    decreases b@.len() - i, 1int,
{
    match p_value(b, i) {
        None => None,
        Some((v, j)) => {
            if j <= i || j >= b.len() {
                return None;
            }
            if b[j] == 44 {
                match p_items(b, j + 1) {
                    None => None,
                    Some((mut vs, k)) => {
                        let ghost pre = vs@;
                        let ghost spv = sp_value(b@, i as int)->Some_0.0;
                        let ghost rest = sp_items(b@, j as int + 1)->Some_0.0;
                        vs.insert(0, v);
                        proof {
                            assert(vs@ =~= seq![v] + pre);
                            crate::json::lemma_view_list_index(vs@);
                            crate::json::lemma_view_list_index(pre);
                            assert(crate::json::view_list(vs@) =~= seq![spv] + rest);
                        }
                        Some((vs, k))
                    },
                }
            } else if b[j] == 93 {
                let mut vs: Vec<Json> = Vec::new();
                vs.push(v);
                proof {
                    let spv = sp_value(b@, i as int)->Some_0.0;
                    crate::json::lemma_view_list_index(vs@);
                    assert(crate::json::view_list(vs@) =~= seq![spv]);
                }
                Some((vs, j + 1))
            } else {
                None
            }
        },
    }
}

/// Executable counterpart of [`sp_members`].
fn p_members(b: &[u8], i: usize) -> (r: Option<(Vec<(Vec<u8>, Json)>, usize)>)
    ensures
        match sp_members(b@, i as int) {
            None => r is None,
            Some(vk) => r matches Some(p) && crate::json::view_members(p.0@) == vk.0 && p.1
                as int == vk.1 && p.1 <= b@.len(),
        },
    decreases b@.len() - i, 1int,
{
    if !(i < b.len() && b[i] == 34) {
        return None;
    }
    match p_string(b, i + 1) {
        None => None,
        Some((key, j)) => {
            if j <= i || j >= b.len() {
                return None;
            }
            if b[j] != 58 {
                return None;
            }
            match p_value(b, j + 1) {
                None => None,
                Some((v, k)) => {
                    if k <= i || k >= b.len() {
                        return None;
                    }
                    if b[k] == 44 {
                        match p_members(b, k + 1) {
                            None => None,
                            Some((mut ms, l)) => {
                                let ghost pre = ms@;
                                let ghost spk = sp_string(b@, i as int + 1)->Some_0.0;
                                let ghost spv = sp_value(b@, j as int + 1)->Some_0.0;
                                let ghost rest = sp_members(b@, k as int + 1)->Some_0.0;
                                ms.insert(0, (key, v));
                                proof {
                                    assert(ms@ =~= seq![(key, v)] + pre);
                                    crate::json::lemma_view_members_index(ms@);
                                    crate::json::lemma_view_members_index(pre);
                                    assert(crate::json::view_members(ms@) =~= seq![(spk, spv)]
                                        + rest);
                                }
                                Some((ms, l))
                            },
                        }
                    } else if b[k] == 125 {
                        let ghost spk = sp_string(b@, i as int + 1)->Some_0.0;
                        let ghost spv = sp_value(b@, j as int + 1)->Some_0.0;
                        let mut ms: Vec<(Vec<u8>, Json)> = Vec::new();
                        ms.push((key, v));
                        proof {
                            crate::json::lemma_view_members_index(ms@);
                            assert(crate::json::view_members(ms@) =~= seq![(spk, spv)]);
                        }
                        Some((ms, k + 1))
                    } else {
                        None
                    }
                },
            }
        },
    }
}

/// Parse one whole document of the wire format: exactly the values that
/// [`sp_doc`] accepts, and exactly their models.
pub fn parse_bytes(b: &[u8]) -> (r: Option<Json>)
    ensures
        match sp_doc(b@) {
            None => r is None,
            Some(v) => r matches Some(j) && j@ == v,
        },
{
    let mut i: usize = 0;
    while i < b.len() && (b[i] == 32 || b[i] == 9 || b[i] == 10 || b[i] == 13)
        invariant
            0 <= i <= b@.len(),
            ws_end(b@, 0) == ws_end(b@, i as int),
        decreases b@.len() - i,
    {
        i += 1;
    }
    assert(ws_end(b@, 0) == i as int);
    match p_value(b, i) {
        None => None,
        Some((j, k)) => {
            let mut l = k;
            proof {
                let vk = sp_value(b@, ws_end(b@, 0))->Some_0;
                assert(l as int == vk.1);
            }
            while l < b.len() && (b[l] == 32 || b[l] == 9 || b[l] == 10 || b[l] == 13)
                invariant
                    0 <= l <= b@.len(),
                    ws_end(b@, sp_value(b@, ws_end(b@, 0))->Some_0.1) == ws_end(b@, l as int),
                decreases b@.len() - l,
            {
                l += 1;
            }
            if l == b.len() {
                Some(j)
            } else {
                None
            }
        },
    }
}

} // verus!
