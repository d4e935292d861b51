//! The recursive length-prefixed wire grammar.
//!
//! Every wire value is a byte string or a list. A single byte below `0x80`
//! stands for itself; a short string carries a one-byte `0x80 + len` prefix;
//! a long string carries `0xb7 + len_of_len` followed by the minimal
//! big-endian length; lists use the same scheme at `0xc0` and `0xf7`.
//! Integers are minimal big-endian byte strings (the empty string is zero);
//! the canonical booleans are `0x01` for true and the empty string for
//! false.
//!
//! The grammar is stated twice: specification functions (`enc_*`) give the
//! unique canonical encoding of each value, and specification parsers
//! (`sp_parse_*`) give the unique parse of a byte sequence, rejecting every
//! non-canonical form. The lemmas prove the two inverse to each other; the
//! executable functions implement them exactly.

use vstd::prelude::*;

use crate::types::DecodeError;

verus! {

/// 256 to the `k`-th power: the number of byte strings of length `k`.
pub open spec fn pow256(k: nat) -> nat
    decreases k,
{
    if k == 0 {
        1
    } else {
        256 * pow256((k - 1) as nat)
    }
}

/// Minimal big-endian byte representation of `n`; empty for zero.
pub open spec fn be_bytes(n: nat) -> Seq<u8>
    decreases n,
{
    if n == 0 {
        Seq::<u8>::empty()
    } else {
        be_bytes(n / 256).push((n % 256) as u8)
    }
}

/// The value a big-endian byte sequence stands for.
pub open spec fn be_val(s: Seq<u8>) -> nat
    decreases s.len(),
{
    if s.len() == 0 {
        0
    } else {
        (be_val(s.drop_last()) * 256 + s.last()) as nat
    }
}

pub proof fn lemma_be_bytes_first_nonzero(n: nat)
    requires
        n > 0,
    ensures
        be_bytes(n).len() > 0,
        be_bytes(n)[0] != 0,
    decreases n,
{
    if n < 256 {
        assert(n / 256 == 0);
        assert(be_bytes(0) =~= Seq::<u8>::empty());
        assert(be_bytes(n) =~= Seq::<u8>::empty().push((n % 256) as u8));
    } else {
        lemma_be_bytes_first_nonzero(n / 256);
        assert(be_bytes(n)[0] == be_bytes(n / 256)[0]);
    }
}

pub proof fn lemma_be_bytes_len(n: nat, k: nat)
    requires
        n < pow256(k),
    ensures
        be_bytes(n).len() <= k,
    decreases k,
{
    if n == 0 {
    } else {
        if k == 0 {
        } else {
            lemma_be_bytes_len(n / 256, (k - 1) as nat);
        }
    }
}

pub proof fn lemma_be_val_of_bytes(n: nat)
    ensures
        be_val(be_bytes(n)) == n,
    decreases n,
{
    if n == 0 {
    } else {
        lemma_be_val_of_bytes(n / 256);
        let s = be_bytes(n);
        assert(s.drop_last() =~= be_bytes(n / 256));
        assert(s.last() == (n % 256) as u8);
    }
}

pub proof fn lemma_be_val_pos(s: Seq<u8>)
    requires
        s.len() > 0,
        s[0] != 0,
    ensures
        be_val(s) > 0,
    decreases s.len(),
{
    if s.len() == 1 {
    } else {
        assert(s.drop_last()[0] == s[0]);
        lemma_be_val_pos(s.drop_last());
    }
}

pub proof fn lemma_be_bytes_of_val(s: Seq<u8>)
    requires
        s.len() == 0 || s[0] != 0,
    ensures
        be_bytes(be_val(s)) == s,
    decreases s.len(),
{
    if s.len() == 0 {
        assert(be_bytes(0) =~= s);
    } else if s.len() == 1 {
        let v = be_val(s);
        assert(s.drop_last().len() == 0);
        assert(be_val(s.drop_last()) == 0);
        assert(s.last() == s[0]);
        assert(v == s[0]);
        assert(be_bytes(v) =~= be_bytes(0).push((v % 256) as u8));
        assert(be_bytes(v) =~= s);
    } else {
        let d = s.drop_last();
        assert(d[0] == s[0]);
        lemma_be_bytes_of_val(d);
        lemma_be_val_pos(d);
        let v = be_val(s);
        assert(v == be_val(d) * 256 + s.last());
        assert(v / 256 == be_val(d) && v % 256 == s.last()) by (nonlinear_arith)
            requires
                v == be_val(d) * 256 + s.last(),
                s.last() < 256,
        ;
        assert(v > 0);
        assert(be_bytes(v) =~= be_bytes(be_val(d)).push(s.last()));
        assert(be_bytes(v) =~= s);
    }
}

pub proof fn lemma_be_val_bound(s: Seq<u8>)
    ensures
        be_val(s) < pow256(s.len()),
    decreases s.len(),
{
    if s.len() == 0 {
    } else {
        lemma_be_val_bound(s.drop_last());
        let d = s.drop_last();
        assert(be_val(s) == be_val(d) * 256 + s.last());
        assert(be_val(d) * 256 + s.last() < 256 * pow256(d.len())) by (nonlinear_arith)
            requires
                be_val(d) < pow256(d.len()),
                s.last() < 256,
        ;
    }
}

/// `pow256(8)` written out: one more than the largest `u64`.
pub proof fn lemma_pow256_8()
    ensures
        pow256(8) == 0x1_0000_0000_0000_0000,
{
    assert(pow256(0) == 1);
    assert(pow256(1) == 256);
    assert(pow256(2) == 0x1_0000);
    assert(pow256(3) == 0x100_0000);
    assert(pow256(4) == 0x1_0000_0000);
    assert(pow256(5) == 0x100_0000_0000);
    assert(pow256(6) == 0x1_0000_0000_0000);
    assert(pow256(7) == 0x100_0000_0000_0000);
    assert(pow256(8) == 0x1_0000_0000_0000_0000);
}

/// Header bytes of a string whose payload has length `l` (not used for the
/// single-byte form).
pub open spec fn str_header(l: nat) -> Seq<u8> {
    if l <= 55 {
        seq![(0x80 + l) as u8]
    } else {
        seq![(0xb7 + be_bytes(l).len()) as u8] + be_bytes(l)
    }
}

/// Canonical encoding of a byte-string payload.
pub open spec fn enc_str(p: Seq<u8>) -> Seq<u8> {
    if p.len() == 1 && p[0] < 0x80 {
        p
    } else {
        str_header(p.len()) + p
    }
}

/// Canonical encoding of an unsigned integer.
pub open spec fn enc_uint(n: nat) -> Seq<u8> {
    enc_str(be_bytes(n))
}

/// The one canonical boolean encoding this protocol speaks: `0x01` for
/// true, the empty string for false.
pub open spec fn enc_bool(b: bool) -> Seq<u8> {
    if b {
        seq![0x01u8]
    } else {
        seq![0x80u8]
    }
}

/// Header bytes of a list whose payload has length `l`.
pub open spec fn list_header(l: nat) -> Seq<u8> {
    if l <= 55 {
        seq![(0xc0 + l) as u8]
    } else {
        seq![(0xf7 + be_bytes(l).len()) as u8] + be_bytes(l)
    }
}

/// Canonical encoding of a list with the given payload bytes.
pub open spec fn enc_list(p: Seq<u8>) -> Seq<u8> {
    list_header(p.len()) + p
}

pub proof fn lemma_pow256_mono(a: nat, b: nat)
    requires
        a <= b,
    ensures
        pow256(a) <= pow256(b),
    decreases b,
{
    if a < b {
        lemma_pow256_mono(a, (b - 1) as nat);
        assert(pow256(b) == 256 * pow256((b - 1) as nat));
    }
}

/// The unique parse of a byte-string item at offset `i`: the payload and
/// the offset just past the item. Every non-canonical form parses to
/// `None`.
pub open spec fn sp_parse_str(data: Seq<u8>, i: int) -> Option<(Seq<u8>, int)> {
    if i < 0 || i >= data.len() {
        None
    } else {
        let b = data[i];
        if b < 0x80 {
            Some((seq![b], i + 1))
        } else if b <= 0xb7 {
            let l: int = b - 0x80;
            if i + 1 + l > data.len() {
                None
            } else if l == 1 && data[i + 1] < 0x80 {
                None
            } else {
                Some((data.subrange(i + 1, i + 1 + l), i + 1 + l))
            }
        } else if b <= 0xbf {
            let ll: int = b - 0xb7;
            if i + 1 + ll > data.len() {
                None
            } else if data[i + 1] == 0 {
                None
            } else {
                let l: int = be_val(data.subrange(i + 1, i + 1 + ll)) as int;
                if l <= 55 {
                    None
                } else if i + 1 + ll + l > data.len() {
                    None
                } else {
                    Some((data.subrange(i + 1 + ll, i + 1 + ll + l), i + 1 + ll + l))
                }
            }
        } else {
            None
        }
    }
}

/// The unique parse of a list header at offset `i`: the payload length and
/// the offset where the payload starts, with the payload in bounds.
pub open spec fn sp_parse_list_header(data: Seq<u8>, i: int) -> Option<(int, int)> {
    if i < 0 || i >= data.len() {
        None
    } else {
        let b = data[i];
        if b < 0xc0 {
            None
        } else if b <= 0xf7 {
            let l: int = b - 0xc0;
            if i + 1 + l > data.len() {
                None
            } else {
                Some((l, i + 1))
            }
        } else {
            let ll: int = b - 0xf7;
            if i + 1 + ll > data.len() {
                None
            } else if data[i + 1] == 0 {
                None
            } else {
                let l: int = be_val(data.subrange(i + 1, i + 1 + ll)) as int;
                if l <= 55 {
                    None
                } else if i + 1 + ll + l > data.len() {
                    None
                } else {
                    Some((l, i + 1 + ll))
                }
            }
        }
    }
}

/// The unique parse of a canonical unsigned integer at offset `i`.
pub open spec fn sp_parse_uint(data: Seq<u8>, i: int) -> Option<(u64, int)> {
    match sp_parse_str(data, i) {
        Option::None => Option::None,
        Option::Some((s, j)) => if s.len() > 8 || (s.len() > 0 && s[0] == 0) {
            Option::None
        } else {
            Option::Some((be_val(s) as u64, j))
        },
    }
}

/// The unique parse of a canonical boolean at offset `i`.
pub open spec fn sp_parse_bool(data: Seq<u8>, i: int) -> Option<(bool, int)> {
    match sp_parse_str(data, i) {
        Option::None => Option::None,
        Option::Some((s, j)) => if s.len() == 0 {
            Option::Some((false, j))
        } else if s.len() == 1 && s[0] == 1 {
            Option::Some((true, j))
        } else {
            Option::None
        },
    }
}

/// The unique parse of one whole item (string or list) at offset `i`: its
/// raw bytes, header included, and the offset just past it.
pub open spec fn sp_parse_item(data: Seq<u8>, i: int) -> Option<(Seq<u8>, int)> {
    if i < 0 || i >= data.len() {
        None
    } else if data[i] < 0xc0 {
        match sp_parse_str(data, i) {
            Option::None => Option::None,
            Option::Some((s, j)) => Option::Some((data.subrange(i, j), j)),
        }
    } else {
        match sp_parse_list_header(data, i) {
            Option::None => Option::None,
            Option::Some((l, j)) => Option::Some((data.subrange(i, j + l), j + l)),
        }
    }
}

/// `s` is exactly one complete, canonically encoded item.
pub open spec fn is_item(s: Seq<u8>) -> bool {
    sp_parse_item(s, 0) == Option::Some((s, s.len() as int))
}

/// What a successful string parse means: the consumed bytes are exactly
/// the canonical encoding of the payload.
pub proof fn lemma_parse_str_sound(data: Seq<u8>, i: int)
    requires
        sp_parse_str(data, i) is Some,
    ensures
        sp_parse_str(data, i) matches Some((s, j)) ==> {
            &&& 0 <= i < j <= data.len()
            &&& j - i == enc_str(s).len()
            &&& data.subrange(i, j) == enc_str(s)
            &&& s.len() < pow256(8)
        },
{
    let (s, j) = sp_parse_str(data, i)->Some_0;
    let b = data[i];
    lemma_pow256_8();
    if b < 0x80 {
        assert(data.subrange(i, j) =~= seq![b]);
        assert(enc_str(s) =~= seq![b]);
    } else if b <= 0xb7 {
        let l: int = b - 0x80;
        assert(s =~= data.subrange(i + 1, i + 1 + l));
        if l == 1 {
            assert(s[0] >= 0x80);
            assert(enc_str(s) == str_header(s.len()) + s);
        }
        assert(enc_str(s) =~= seq![b] + s);
        assert(data.subrange(i, j) =~= seq![b] + s);
        assert(pow256(8) > 55) by {
            lemma_pow256_8();
        }
    } else if b <= 0xbf {
        let ll: int = b - 0xb7;
        let lbytes = data.subrange(i + 1, i + 1 + ll);
        let l: int = be_val(lbytes) as int;
        assert(lbytes[0] == data[i + 1]);
        lemma_be_bytes_of_val(lbytes);
        assert(be_bytes(l as nat) == lbytes);
        assert(s =~= data.subrange(i + 1 + ll, i + 1 + ll + l));
        assert(s.len() == l > 55);
        assert(str_header(s.len()) =~= seq![b] + lbytes);
        assert(enc_str(s) =~= seq![b] + lbytes + s);
        assert(data.subrange(i, j) =~= seq![b] + lbytes + s);
        lemma_be_val_bound(lbytes);
        lemma_pow256_mono(lbytes.len(), 8);
    }
}

/// Wherever the canonical encoding of `s` sits in `data`, the parse at its
/// start succeeds and yields `s`.
pub proof fn lemma_parse_str_complete(data: Seq<u8>, i: int, s: Seq<u8>)
    requires
        0 <= i,
        s.len() < pow256(8),
        i + enc_str(s).len() <= data.len(),
        data.subrange(i, i + enc_str(s).len()) == enc_str(s),
    ensures
        sp_parse_str(data, i) == Some((s, i + enc_str(s).len())),
{
    let e = enc_str(s);
    let j = i + e.len();
    lemma_pow256_8();
    if s.len() == 1 && s[0] < 0x80 {
        assert(data[i] == e[0] == s[0]);
        assert(sp_parse_str(data, i) == Some((seq![data[i]], i + 1)));
        assert(seq![data[i]] =~= s);
    } else if s.len() <= 55 {
        let l: int = s.len() as int;
        assert(e =~= seq![(0x80 + l) as u8] + s);
        assert(data[i] == data.subrange(i, i + e.len())[0]);
        assert(data[i] == (0x80 + l) as u8);
        assert(0x80 <= data[i] <= 0xb7);
        assert(data[i] - 0x80 == l);
        assert forall|k: int| 0 <= k < l implies data.subrange(i + 1, i + 1 + l)[k] == s[k] by {
            assert(data.subrange(i, i + e.len())[k + 1] == data[i + 1 + k]);
            assert(e[k + 1] == s[k]);
        }
        assert(data.subrange(i + 1, i + 1 + l) =~= s);
        if l == 1 {
            assert(s[0] >= 0x80);
            assert(data[i + 1] == s[0]);
        }
        assert(sp_parse_str(data, i) == Some((data.subrange(i + 1, i + 1 + l), i + 1 + l)));
    } else {
        let l: int = s.len() as int;
        let lb = be_bytes(l as nat);
        let ll: int = lb.len() as int;
        lemma_be_bytes_first_nonzero(l as nat);
        lemma_be_bytes_len(l as nat, 8);
        lemma_be_val_of_bytes(l as nat);
        assert(str_header(s.len()) =~= seq![(0xb7 + ll) as u8] + lb);
        assert(e =~= seq![(0xb7 + ll) as u8] + lb + s);
        assert(data[i] == data.subrange(i, i + e.len())[0]);
        assert(data[i] == (0xb7 + ll) as u8);
        assert(0xb7 < data[i] <= 0xbf);
        assert(data[i] - 0xb7 == ll);
        assert forall|k: int| 0 <= k < ll implies data.subrange(i + 1, i + 1 + ll)[k] == lb[k] by {
            assert(data.subrange(i, i + e.len())[k + 1] == data[i + 1 + k]);
            assert(e[k + 1] == lb[k]);
        }
        assert(data.subrange(i + 1, i + 1 + ll) =~= lb);
        assert(data[i + 1] == lb[0]);
        assert(data[i + 1] != 0);
        assert(be_val(data.subrange(i + 1, i + 1 + ll)) == l);
        assert forall|k: int| 0 <= k < l implies data.subrange(i + 1 + ll, i + 1 + ll + l)[k] == s[k]
            by {
            assert(data.subrange(i, i + e.len())[k + 1 + ll] == data[i + 1 + ll + k]);
            assert(e[k + 1 + ll] == s[k]);
        }
        assert(data.subrange(i + 1 + ll, i + 1 + ll + l) =~= s);
        assert(sp_parse_str(data, i) == Some((s, i + 1 + ll + l)));
        assert(j == i + 1 + ll + l);
    }
}

/// What a successful list-header parse means.
pub proof fn lemma_parse_list_header_sound(data: Seq<u8>, i: int)
    requires
        sp_parse_list_header(data, i) is Some,
    ensures
        sp_parse_list_header(data, i) matches Some((l, j)) ==> {
            &&& 0 <= i < j
            &&& j + l <= data.len()
            &&& 0 <= l < pow256(8)
            &&& j - i == list_header(l as nat).len()
            &&& data.subrange(i, j) == list_header(l as nat)
        },
{
    let (l, j) = sp_parse_list_header(data, i)->Some_0;
    let b = data[i];
    if b <= 0xf7 {
        assert(data.subrange(i, j) =~= seq![b]);
        assert(list_header(l as nat) =~= seq![b]);
        assert(pow256(8) > 55) by {
            lemma_pow256_8();
        }
    } else {
        let ll: int = b - 0xf7;
        let lbytes = data.subrange(i + 1, i + 1 + ll);
        assert(lbytes[0] == data[i + 1]);
        lemma_be_bytes_of_val(lbytes);
        assert(be_bytes(l as nat) == lbytes);
        assert(list_header(l as nat) =~= seq![b] + lbytes);
        assert(data.subrange(i, j) =~= seq![b] + lbytes);
        lemma_be_val_bound(lbytes);
        lemma_pow256_mono(lbytes.len(), 8);
    }
}

/// Wherever a canonical list header for payload length `l` sits in `data`
/// with `l` payload bytes after it, the parse at its start succeeds.
pub proof fn lemma_parse_list_header_complete(data: Seq<u8>, i: int, l: nat)
    requires
        0 <= i,
        l < pow256(8),
        i + list_header(l).len() + l <= data.len(),
        data.subrange(i, i + list_header(l).len()) == list_header(l),
    ensures
        sp_parse_list_header(data, i) == Some((l as int, i + list_header(l).len())),
{
    let e = list_header(l);
    lemma_pow256_8();
    if l <= 55 {
        assert(data[i] == data.subrange(i, i + e.len())[0]);
        assert(data[i] == (0xc0 + l) as u8);
        assert(0xc0 <= data[i] <= 0xf7);
        assert(data[i] - 0xc0 == l);
    } else {
        let lb = be_bytes(l);
        let ll: int = lb.len() as int;
        lemma_be_bytes_first_nonzero(l);
        lemma_be_bytes_len(l, 8);
        lemma_be_val_of_bytes(l);
        assert(e =~= seq![(0xf7 + ll) as u8] + lb);
        assert(data[i] == data.subrange(i, i + e.len())[0]);
        assert(data[i] == (0xf7 + ll) as u8);
        assert(0xf7 < data[i]);
        assert(data[i] - 0xf7 == ll);
        assert forall|k: int| 0 <= k < ll implies data.subrange(i + 1, i + 1 + ll)[k] == lb[k] by {
            assert(data.subrange(i, i + e.len())[k + 1] == data[i + 1 + k]);
            assert(e[k + 1] == lb[k]);
        }
        assert(data.subrange(i + 1, i + 1 + ll) =~= lb);
        assert(data[i + 1] == lb[0]);
        assert(be_val(data.subrange(i + 1, i + 1 + ll)) == l);
    }
}

/// What a successful integer parse means.
pub proof fn lemma_parse_uint_sound(data: Seq<u8>, i: int)
    requires
        sp_parse_uint(data, i) is Some,
    ensures
        sp_parse_uint(data, i) matches Some((v, j)) ==> {
            &&& 0 <= i < j <= data.len()
            &&& j - i == enc_uint(v as nat).len()
            &&& data.subrange(i, j) == enc_uint(v as nat)
        },
{
    let (s, j) = sp_parse_str(data, i)->Some_0;
    lemma_parse_str_sound(data, i);
    lemma_be_val_bound(s);
    lemma_pow256_mono(s.len(), 8);
    lemma_pow256_8();
    assert(be_val(s) < pow256(8));
    lemma_be_bytes_of_val(s);
    assert(be_bytes(be_val(s)) == s);
}

/// Wherever the canonical encoding of the integer `v` sits in `data`, the
/// parse at its start succeeds and yields `v`.
pub proof fn lemma_parse_uint_complete(data: Seq<u8>, i: int, v: u64)
    requires
        0 <= i,
        i + enc_uint(v as nat).len() <= data.len(),
        data.subrange(i, i + enc_uint(v as nat).len()) == enc_uint(v as nat),
    ensures
        sp_parse_uint(data, i) == Some((v, i + enc_uint(v as nat).len())),
{
    let s = be_bytes(v as nat);
    lemma_pow256_8();
    lemma_be_bytes_len(v as nat, 8);
    if v > 0 {
        lemma_be_bytes_first_nonzero(v as nat);
    }
    lemma_parse_str_complete(data, i, s);
    lemma_be_val_of_bytes(v as nat);
}

/// What a successful boolean parse means.
pub proof fn lemma_parse_bool_sound(data: Seq<u8>, i: int)
    requires
        sp_parse_bool(data, i) is Some,
    ensures
        sp_parse_bool(data, i) matches Some((v, j)) ==> {
            &&& 0 <= i < j <= data.len()
            &&& j - i == enc_bool(v).len()
            &&& data.subrange(i, j) == enc_bool(v)
        },
{
    let (s, j) = sp_parse_str(data, i)->Some_0;
    lemma_parse_str_sound(data, i);
    if s.len() == 0 {
        assert(enc_str(s) =~= seq![0x80u8]);
        assert(enc_bool(false) =~= enc_str(s));
    } else {
        assert(enc_str(s) =~= seq![0x01u8]);
        assert(enc_bool(true) =~= enc_str(s));
    }
}

/// Wherever the canonical encoding of the boolean `v` sits in `data`, the
/// parse at its start succeeds and yields `v`.
pub proof fn lemma_parse_bool_complete(data: Seq<u8>, i: int, v: bool)
    requires
        0 <= i,
        i + enc_bool(v).len() <= data.len(),
        data.subrange(i, i + enc_bool(v).len()) == enc_bool(v),
    ensures
        sp_parse_bool(data, i) == Some((v, i + enc_bool(v).len())),
{
    lemma_pow256_8();
    if v {
        let s = seq![0x01u8];
        assert(enc_str(s) =~= enc_bool(true));
        assert(data.subrange(i, i + enc_str(s).len()) == enc_str(s));
        lemma_parse_str_complete(data, i, s);
    } else {
        let s = Seq::<u8>::empty();
        assert(enc_str(s) =~= enc_bool(false));
        assert(data.subrange(i, i + enc_str(s).len()) == enc_str(s));
        lemma_parse_str_complete(data, i, s);
    }
}

/// What a successful item parse means: the consumed bytes are themselves
/// one complete item.
pub proof fn lemma_parse_item_sound(data: Seq<u8>, i: int)
    requires
        sp_parse_item(data, i) is Some,
    ensures
        sp_parse_item(data, i) matches Some((b, j)) ==> {
            &&& 0 <= i < j <= data.len()
            &&& j - i == b.len()
            &&& data.subrange(i, j) == b
            &&& is_item(b)
        },
{
    let (b, j) = sp_parse_item(data, i)->Some_0;
    if data[i] < 0xc0 {
        let (s, j2) = sp_parse_str(data, i)->Some_0;
        lemma_parse_str_sound(data, i);
        assert(b == data.subrange(i, j));
        assert(b == enc_str(s));
        assert(b.subrange(0, enc_str(s).len() as int) =~= b);
        lemma_parse_str_complete(b, 0, s);
        assert(sp_parse_item(b, 0) == Some((b.subrange(0, b.len() as int), b.len() as int)));
        assert(b.subrange(0, b.len() as int) =~= b);
    } else {
        let (l, jh) = sp_parse_list_header(data, i)->Some_0;
        lemma_parse_list_header_sound(data, i);
        assert(b == data.subrange(i, jh + l));
        assert(b.len() == (jh - i) + l);
        assert(b.subrange(0, jh - i) =~= list_header(l as nat)) by {
            assert(forall|k: int|
                0 <= k < jh - i ==> data.subrange(i, jh + l)[k] == #[trigger] data.subrange(
                    i,
                    jh,
                )[k]);
        }
        lemma_parse_list_header_complete(b, 0, l as nat);
        assert(b[0] == data[i]);
        assert(sp_parse_item(b, 0) == Some((b.subrange(0, b.len() as int), b.len() as int)));
        assert(b.subrange(0, b.len() as int) =~= b);
    }
}

/// Wherever one complete item `b` sits in `data`, the parse at its start
/// succeeds and consumes exactly `b`.
pub proof fn lemma_parse_item_complete(data: Seq<u8>, i: int, b: Seq<u8>)
    requires
        0 <= i,
        is_item(b),
        i + b.len() <= data.len(),
        data.subrange(i, i + b.len()) == b,
    ensures
        sp_parse_item(data, i) == Some((b, i + b.len())),
{
    assert(b.len() > 0);
    assert(data[i] == b[0]);
    if b[0] < 0xc0 {
        let (s, jb) = sp_parse_str(b, 0)->Some_0;
        lemma_parse_str_sound(b, 0);
        assert(jb == b.len());
        assert(b.subrange(0, jb) =~= b);
        assert(b == enc_str(s));
        lemma_parse_str_complete(data, i, s);
        assert(sp_parse_str(data, i) == Some((s, i + b.len())));
        assert(data.subrange(i, i + b.len()) == b);
    } else {
        let (l, jh) = sp_parse_list_header(b, 0)->Some_0;
        lemma_parse_list_header_sound(b, 0);
        assert(jh + l == b.len());
        assert(b.subrange(0, jh) == list_header(l as nat));
        assert(data.subrange(i, i + jh) =~= list_header(l as nat)) by {
            assert(forall|k: int|
                0 <= k < jh ==> data.subrange(i, i + b.len())[k] == #[trigger] data[i + k]);
            assert(forall|k: int| 0 <= k < jh ==> b[k] == #[trigger] b.subrange(0, jh)[k]);
        }
        lemma_parse_list_header_complete(data, i, l as nat);
        assert(sp_parse_list_header(data, i) == Some((l, i + jh)));
        assert(sp_parse_item(data, i) == Some((data.subrange(i, i + jh + l), i + jh + l)));
        assert(data.subrange(i, i + jh + l) == b);
    }
}

/// Appends the minimal big-endian bytes of `n`.
pub fn append_be_bytes(out: &mut Vec<u8>, n: u64)
    ensures
        final(out)@ == old(out)@ + be_bytes(n as nat),
    decreases n,
{
    if n == 0 {
        proof {
            assert(out@ =~= out@ + be_bytes(0));
        }
    } else {
        append_be_bytes(out, n / 256);
        out.push((n % 256) as u8);
        proof {
            assert(out@ =~= old(out)@ + be_bytes(n as nat));
        }
    }
}

/// Appends every byte of `src`.
pub fn append_bytes(out: &mut Vec<u8>, src: &Vec<u8>)
    ensures
        final(out)@ == old(out)@ + src@,
{
    let mut i: usize = 0;
    while i < src.len()
        invariant
            i <= src@.len(),
            out@ =~= old(out)@ + src@.subrange(0, i as int),
        decreases src@.len() - i,
    {
        out.push(src[i]);
        i = i + 1;
    }
    proof {
        assert(out@ =~= old(out)@ + src@);
    }
}

/// Appends the canonical encoding of the byte-string payload `p`.
pub fn append_str(out: &mut Vec<u8>, p: &Vec<u8>)
    ensures
        final(out)@ == old(out)@ + enc_str(p@),
{
    let l: usize = p.len();
    if l == 1 && p[0] < 0x80 {
        out.push(p[0]);
        proof {
            assert(out@ =~= old(out)@ + enc_str(p@));
        }
    } else if l <= 55 {
        out.push((0x80 + l) as u8);
        append_bytes(out, p);
        proof {
            assert(out@ =~= old(out)@ + enc_str(p@));
        }
    } else {
        let mut lenv: Vec<u8> = Vec::new();
        append_be_bytes(&mut lenv, l as u64);
        proof {
            lemma_pow256_8();
            lemma_be_bytes_len(l as nat, 8);
        }
        out.push((0xb7 + lenv.len()) as u8);
        append_bytes(out, &lenv);
        append_bytes(out, p);
        proof {
            assert(out@ =~= old(out)@ + enc_str(p@));
        }
    }
}

/// Appends the canonical encoding of the integer `n`.
pub fn append_uint(out: &mut Vec<u8>, n: u64)
    ensures
        final(out)@ == old(out)@ + enc_uint(n as nat),
{
    let mut bev: Vec<u8> = Vec::new();
    append_be_bytes(&mut bev, n);
    append_str(out, &bev);
}

/// Appends the canonical boolean encoding.
pub fn append_bool(out: &mut Vec<u8>, b: bool)
    ensures
        final(out)@ == old(out)@ + enc_bool(b),
{
    if b {
        out.push(0x01);
    } else {
        out.push(0x80);
    }
    proof {
        assert(out@ =~= old(out)@ + enc_bool(b));
    }
}

/// Appends the header of a list whose payload has length `l`.
pub fn append_list_header(out: &mut Vec<u8>, l: usize)
    ensures
        final(out)@ == old(out)@ + list_header(l as nat),
{
    if l <= 55 {
        out.push((0xc0 + l) as u8);
        proof {
            assert(out@ =~= old(out)@ + list_header(l as nat));
        }
    } else {
        let mut lenv: Vec<u8> = Vec::new();
        append_be_bytes(&mut lenv, l as u64);
        proof {
            lemma_pow256_8();
            lemma_be_bytes_len(l as nat, 8);
        }
        out.push((0xf7 + lenv.len()) as u8);
        append_bytes(out, &lenv);
        proof {
            assert(out@ =~= old(out)@ + list_header(l as nat));
        }
    }
}

/// A `u64` encodes to at most nine bytes: the payload is at most eight
/// bytes of minimal big-endian, plus at most one header byte.
pub proof fn lemma_enc_uint_len(v: u64)
    ensures
        1 <= enc_uint(v as nat).len() <= 9,
{
    lemma_pow256_8();
    lemma_be_bytes_len(v as nat, 8);
}

/// Copies `data[start..end]` into a fresh vector.
pub fn copy_range(data: &Vec<u8>, start: usize, end: usize) -> (r: Vec<u8>)
    requires
        start <= end <= data@.len(),
    ensures
        r@ == data@.subrange(start as int, end as int),
{
    let mut out: Vec<u8> = Vec::new();
    let mut i: usize = start;
    while i < end
        invariant
            start <= i <= end <= data@.len(),
            out@ =~= data@.subrange(start as int, i as int),
        decreases end - i,
    {
        out.push(data[i]);
        i = i + 1;
    }
    proof {
        assert(out@ =~= data@.subrange(start as int, end as int));
    }
    out
}

/// Reads the big-endian value of `data[start..end]`; at most eight bytes.
fn read_be(data: &Vec<u8>, start: usize, end: usize) -> (r: u64)
    requires
        start <= end <= data@.len(),
        end - start <= 8,
    ensures
        r == be_val(data@.subrange(start as int, end as int)),
{
    proof {
        lemma_pow256_8();
    }
    let mut v: u64 = 0;
    let mut i: usize = start;
    while i < end
        invariant
            start <= i <= end <= data@.len(),
            end - start <= 8,
            v == be_val(data@.subrange(start as int, i as int)),
            v < pow256((i - start) as nat),
        decreases end - i,
    {
        let d = data[i];
        proof {
            lemma_pow256_8();
            lemma_pow256_mono((i + 1 - start) as nat, 8);
            assert(pow256((i + 1 - start) as nat) == 256 * pow256((i - start) as nat));
            assert(v * 256 + d < pow256((i + 1 - start) as nat)) by (nonlinear_arith)
                requires
                    v < pow256((i - start) as nat),
                    d < 256,
                    pow256((i + 1 - start) as nat) == 256 * pow256((i - start) as nat),
            ;
            let pre = data@.subrange(start as int, i as int);
            let post = data@.subrange(start as int, i + 1);
            assert(post.drop_last() =~= pre);
            assert(post.last() == d);
        }
        v = v * 256 + (d as u64);
        i = i + 1;
    }
    v
}

/// Parses a byte-string item at `i`, exactly as [`sp_parse_str`] does.
pub fn parse_str(data: &Vec<u8>, i: usize) -> (r: Result<(Vec<u8>, usize), DecodeError>)
    requires
        i <= data@.len(),
    ensures
        match r {
            Ok((s, j)) => sp_parse_str(data@, i as int) == Some((s@, j as int)) && i < j
                <= data@.len(),
            Err(_) => sp_parse_str(data@, i as int) is None,
        },
{
    let n = data.len();
    if i >= n {
        return Err(DecodeError::Truncated);
    }
    let b = data[i];
    if b < 0x80 {
        let mut s: Vec<u8> = Vec::new();
        s.push(b);
        proof {
            assert(s@ =~= seq![b]);
        }
        Ok((s, i + 1))
    } else if b <= 0xb7 {
        let l = (b - 0x80) as usize;
        if l > n - i - 1 {
            return Err(DecodeError::Truncated);
        }
        if l == 1 && data[i + 1] < 0x80 {
            return Err(DecodeError::NonCanonical);
        }
        let s = copy_range(data, i + 1, i + 1 + l);
        Ok((s, i + 1 + l))
    } else if b <= 0xbf {
        let ll = (b - 0xb7) as usize;
        if ll > n - i - 1 {
            return Err(DecodeError::Truncated);
        }
        if data[i + 1] == 0 {
            return Err(DecodeError::NonCanonical);
        }
        let l = read_be(data, i + 1, i + 1 + ll);
        if l <= 55 {
            return Err(DecodeError::NonCanonical);
        }
        let rem = n - i - 1 - ll;
        if l > rem as u64 {
            return Err(DecodeError::Truncated);
        }
        let lus = l as usize;
        let s = copy_range(data, i + 1 + ll, i + 1 + ll + lus);
        Ok((s, i + 1 + ll + lus))
    } else {
        Err(DecodeError::ExpectedString)
    }
}

/// Parses a list header at `i`, exactly as [`sp_parse_list_header`] does.
pub fn parse_list_header(data: &Vec<u8>, i: usize) -> (r: Result<(usize, usize), DecodeError>)
    requires
        i <= data@.len(),
    ensures
        match r {
            Ok((l, j)) => sp_parse_list_header(data@, i as int) == Some((l as int, j as int)) && i
                < j && j + l <= data@.len(),
            Err(_) => sp_parse_list_header(data@, i as int) is None,
        },
{
    let n = data.len();
    if i >= n {
        return Err(DecodeError::Truncated);
    }
    let b = data[i];
    if b < 0xc0 {
        Err(DecodeError::ExpectedList)
    } else if b <= 0xf7 {
        let l = (b - 0xc0) as usize;
        if l > n - i - 1 {
            return Err(DecodeError::Truncated);
        }
        Ok((l, i + 1))
    } else {
        let ll = (b - 0xf7) as usize;
        if ll > n - i - 1 {
            return Err(DecodeError::Truncated);
        }
        if data[i + 1] == 0 {
            return Err(DecodeError::NonCanonical);
        }
        let l = read_be(data, i + 1, i + 1 + ll);
        if l <= 55 {
            return Err(DecodeError::NonCanonical);
        }
        let rem = n - i - 1 - ll;
        if l > rem as u64 {
            return Err(DecodeError::Truncated);
        }
        Ok((l as usize, i + 1 + ll))
    }
}

/// Parses a canonical unsigned integer at `i`, exactly as
/// [`sp_parse_uint`] does.
pub fn parse_uint(data: &Vec<u8>, i: usize) -> (r: Result<(u64, usize), DecodeError>)
    requires
        i <= data@.len(),
    ensures
        match r {
            Ok((v, j)) => sp_parse_uint(data@, i as int) == Some((v, j as int)) && i < j
                <= data@.len(),
            Err(_) => sp_parse_uint(data@, i as int) is None,
        },
{
    let (s, j) = match parse_str(data, i) {
        Ok(p) => p,
        Err(e) => {
            return Err(e);
        },
    };
    if s.len() > 8 {
        return Err(DecodeError::Overflow);
    }
    if s.len() > 0 && s[0] == 0 {
        return Err(DecodeError::NonCanonical);
    }
    proof {
        assert(s@.subrange(0, s@.len() as int) =~= s@);
        lemma_be_val_bound(s@);
        lemma_pow256_mono(s@.len(), 8);
        lemma_pow256_8();
    }
    let v = read_be(&s, 0, s.len());
    Ok((v, j))
}

/// Parses a canonical boolean at `i`, exactly as [`sp_parse_bool`] does.
pub fn parse_bool(data: &Vec<u8>, i: usize) -> (r: Result<(bool, usize), DecodeError>)
    requires
        i <= data@.len(),
    ensures
        match r {
            Ok((v, j)) => sp_parse_bool(data@, i as int) == Some((v, j as int)) && i < j
                <= data@.len(),
            Err(_) => sp_parse_bool(data@, i as int) is None,
        },
{
    let (s, j) = match parse_str(data, i) {
        Ok(p) => p,
        Err(e) => {
            return Err(e);
        },
    };
    if s.len() == 0 {
        Ok((false, j))
    } else if s.len() == 1 && s[0] == 1 {
        Ok((true, j))
    } else {
        Err(DecodeError::NotBoolean)
    }
}

/// Parses one whole item at `i`, exactly as [`sp_parse_item`] does,
/// returning its raw bytes with the header included.
pub fn parse_item(data: &Vec<u8>, i: usize) -> (r: Result<(Vec<u8>, usize), DecodeError>)
    requires
        i <= data@.len(),
    ensures
        match r {
            Ok((b, j)) => sp_parse_item(data@, i as int) == Some((b@, j as int)) && i < j
                <= data@.len(),
            Err(_) => sp_parse_item(data@, i as int) is None,
        },
{
    let n = data.len();
    if i >= n {
        return Err(DecodeError::Truncated);
    }
    if data[i] < 0xc0 {
        let (_s, j) = match parse_str(data, i) {
            Ok(p) => p,
            Err(e) => {
                return Err(e);
            },
        };
        let b = copy_range(data, i, j);
        Ok((b, j))
    } else {
        let (l, jh) = match parse_list_header(data, i) {
            Ok(p) => p,
            Err(e) => {
                return Err(e);
            },
        };
        let b = copy_range(data, i, jh + l);
        Ok((b, jh + l))
    }
}

} // verus!
