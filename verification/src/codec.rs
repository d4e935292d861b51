//! Wire translation for the four protocol messages.
//!
//! Each message has a specification encoder (`spec_encode_*`), a
//! specification decoder (`spec_decode_*`), and executable functions proved
//! to match them exactly. The public lemmas state the round-trip laws: a
//! decoder accepts precisely the canonical encodings, and on those it
//! returns exactly the encoded value.

use vstd::prelude::*;

use crate::rlp::append_bool;
use crate::rlp::append_bytes;
use crate::rlp::append_list_header;
use crate::rlp::append_str;
use crate::rlp::append_uint;
use crate::rlp::be_bytes;
use crate::rlp::be_val;
use crate::rlp::enc_bool;
use crate::rlp::enc_list;
use crate::rlp::enc_str;
use crate::rlp::enc_uint;
use crate::rlp::is_item;
use crate::rlp::lemma_be_bytes_len;
use crate::rlp::lemma_parse_item_complete;
use crate::rlp::lemma_parse_item_sound;
use crate::rlp::sp_parse_item;
use crate::rlp::lemma_enc_uint_len;
use crate::rlp::lemma_parse_bool_complete;
use crate::rlp::lemma_parse_bool_sound;
use crate::rlp::lemma_parse_list_header_complete;
use crate::rlp::lemma_parse_list_header_sound;
use crate::rlp::lemma_parse_str_complete;
use crate::rlp::lemma_parse_str_sound;
use crate::rlp::lemma_parse_uint_complete;
use crate::rlp::lemma_parse_uint_sound;
use crate::rlp::lemma_pow256_8;
use crate::rlp::list_header;
use crate::rlp::parse_bool;
use crate::rlp::parse_item;
use crate::rlp::parse_list_header;
use crate::rlp::parse_str;
use crate::rlp::parse_uint;
use crate::rlp::pow256;
use crate::rlp::sp_parse_bool;
use crate::rlp::sp_parse_list_header;
use crate::rlp::sp_parse_str;
use crate::rlp::sp_parse_uint;
use crate::types::Address160;
use crate::types::BlockBody;
use crate::types::BlockHeader;
use crate::types::BlockHeaderV;
use crate::types::BlockId;
use crate::types::BlockIdV;
use crate::types::DecodeError;
use crate::types::GetBlockHeaders;
use crate::types::GetBlockHeadersV;
use crate::types::Hash256;

verus! {

/// Canonical encoding of a block locator: its height as an integer, or its
/// 32-byte digest as a string.
pub open spec fn enc_block_id(id: BlockIdV) -> Seq<u8> {
    match id {
        BlockIdV::Number(n) => enc_uint(n as nat),
        BlockIdV::Hash(h) => enc_str(h),
    }
}

/// Payload of a header-range query: block id, count, stride, direction.
pub open spec fn ghs_payload(g: GetBlockHeadersV) -> Seq<u8> {
    enc_block_id(g.block_id) + enc_uint(g.max_headers as nat) + enc_uint(g.skip as nat) + enc_bool(
        g.reverse,
    )
}

/// Canonical encoding of a whole header-range query.
pub open spec fn spec_encode_get_block_headers(g: GetBlockHeadersV) -> Seq<u8> {
    enc_list(ghs_payload(g))
}

/// The unique parse of a block-id field: a payload of exactly 32 bytes is
/// a hash; any other length must be a canonical integer.
pub open spec fn sp_parse_block_id(data: Seq<u8>, i: int) -> Option<(BlockIdV, int)> {
    match sp_parse_str(data, i) {
        Option::None => Option::None,
        Option::Some((s, j)) => if s.len() == 32 {
            Option::Some((BlockIdV::Hash(s), j))
        } else if s.len() > 8 || (s.len() > 0 && s[0] == 0) {
            Option::None
        } else {
            Option::Some((BlockIdV::Number(be_val(s) as u64), j))
        },
    }
}

/// The unique parse of a whole header-range query: a list of exactly the
/// four fields, nothing before and nothing after.
pub open spec fn spec_decode_get_block_headers(data: Seq<u8>) -> Option<GetBlockHeadersV> {
    match sp_parse_list_header(data, 0) {
        Option::None => Option::None,
        Option::Some((l, j0)) => if j0 + l != data.len() {
            Option::None
        } else {
            match sp_parse_block_id(data, j0) {
                Option::None => Option::None,
                Option::Some((id, j1)) => match sp_parse_uint(data, j1) {
                    Option::None => Option::None,
                    Option::Some((mh, j2)) => match sp_parse_uint(data, j2) {
                        Option::None => Option::None,
                        Option::Some((sk, j3)) => match sp_parse_bool(data, j3) {
                            Option::None => Option::None,
                            Option::Some((rv, j4)) => if j4 == data.len() {
                                Option::Some(
                                    GetBlockHeadersV {
                                        block_id: id,
                                        max_headers: mh,
                                        skip: sk,
                                        reverse: rv,
                                    },
                                )
                            } else {
                                Option::None
                            },
                        },
                    },
                },
            }
        },
    }
}

/// What a successful block-id parse means.
pub proof fn lemma_parse_block_id_sound(data: Seq<u8>, i: int)
    requires
        sp_parse_block_id(data, i) is Some,
    ensures
        sp_parse_block_id(data, i) matches Some((id, j)) ==> {
            &&& 0 <= i < j <= data.len()
            &&& j - i == enc_block_id(id).len()
            &&& data.subrange(i, j) == enc_block_id(id)
            &&& id.wf()
        },
{
    let (s, j) = sp_parse_str(data, i)->Some_0;
    lemma_parse_str_sound(data, i);
    if s.len() == 32 {
    } else {
        lemma_parse_uint_sound(data, i);
    }
}

/// Wherever the canonical encoding of a well-formed block id sits in
/// `data`, the parse at its start succeeds and yields it.
pub proof fn lemma_parse_block_id_complete(data: Seq<u8>, i: int, id: BlockIdV)
    requires
        0 <= i,
        id.wf(),
        i + enc_block_id(id).len() <= data.len(),
        data.subrange(i, i + enc_block_id(id).len()) == enc_block_id(id),
    ensures
        sp_parse_block_id(data, i) == Some((id, i + enc_block_id(id).len())),
{
    lemma_pow256_8();
    match id {
        BlockIdV::Hash(h) => {
            lemma_parse_str_complete(data, i, h);
        },
        BlockIdV::Number(v) => {
            lemma_parse_uint_complete(data, i, v);
            let s = be_bytes(v as nat);
            lemma_be_bytes_len(v as nat, 8);
            assert(s.len() != 32);
        },
    }
}

/// Law (disambiguation): when a block-id field parses, it is a hash
/// exactly when its string payload is 32 bytes long, and a number exactly
/// when the payload is shorter; no other payload length parses.
pub proof fn lemma_block_id_disambiguation(data: Seq<u8>, i: int)
    requires
        sp_parse_block_id(data, i) is Some,
        sp_parse_str(data, i) is Some,
    ensures
        sp_parse_block_id(data, i) matches Some((id, j)) ==> {
            &&& (id is Hash <==> sp_parse_str(data, i)->Some_0.0.len() == 32)
            &&& (id is Number <==> sp_parse_str(data, i)->Some_0.0.len() <= 8)
        },
{
    let (s, j) = sp_parse_str(data, i)->Some_0;
    if s.len() != 32 {
        assert(s.len() <= 8);
    }
}

/// Law (round-trip): decoding the canonical encoding of any well-formed
/// header-range query yields exactly that query.
#[verifier::rlimit(100)]
#[verifier::spinoff_prover]
pub proof fn lemma_get_block_headers_roundtrip(g: GetBlockHeadersV)
    requires
        g.wf(),
    ensures
        spec_decode_get_block_headers(spec_encode_get_block_headers(g)) == Some(g),
{
    let e1 = enc_block_id(g.block_id);
    let e2 = enc_uint(g.max_headers as nat);
    let e3 = enc_uint(g.skip as nat);
    let e4 = enc_bool(g.reverse);
    let p = ghs_payload(g);
    let data = spec_encode_get_block_headers(g);
    lemma_pow256_8();
    lemma_enc_uint_len(g.max_headers);
    lemma_enc_uint_len(g.skip);
    match g.block_id {
        BlockIdV::Number(n) => {
            lemma_enc_uint_len(n);
        },
        BlockIdV::Hash(h) => {
            assert(e1.len() == 33);
        },
    }
    assert(p.len() <= 55);
    let lh = list_header(p.len());
    assert(lh.len() == 1);
    assert(data == lh + p);
    let j0: int = 1;
    let j1: int = j0 + e1.len();
    let j2: int = j1 + e2.len();
    let j3: int = j2 + e3.len();
    let j4: int = j3 + e4.len();
    assert(data.subrange(0, 1) =~= lh);
    lemma_parse_list_header_complete(data, 0, p.len());
    assert(sp_parse_list_header(data, 0) == Some((p.len() as int, j0)));
    assert(j0 + p.len() == data.len());
    assert(data.subrange(j0, j1) =~= e1);
    lemma_parse_block_id_complete(data, j0, g.block_id);
    assert(data.subrange(j1, j2) =~= e2);
    lemma_parse_uint_complete(data, j1, g.max_headers);
    assert(data.subrange(j2, j3) =~= e3);
    lemma_parse_uint_complete(data, j2, g.skip);
    assert(data.subrange(j3, j4) =~= e4);
    lemma_parse_bool_complete(data, j3, g.reverse);
    assert(j4 == data.len());
    assert(spec_decode_get_block_headers(data) == Some(
        GetBlockHeadersV {
            block_id: g.block_id,
            max_headers: g.max_headers,
            skip: g.skip,
            reverse: g.reverse,
        },
    ));
    assert(GetBlockHeadersV {
        block_id: g.block_id,
        max_headers: g.max_headers,
        skip: g.skip,
        reverse: g.reverse,
    } =~= g);
}

/// Law (no junk): whatever the decoder accepts is well formed and encodes
/// back to exactly the input bytes.
#[verifier::rlimit(100)]
#[verifier::spinoff_prover]
pub proof fn lemma_decode_get_block_headers_sound(data: Seq<u8>)
    requires
        spec_decode_get_block_headers(data) is Some,
    ensures
        spec_decode_get_block_headers(data) matches Some(g) ==> g.wf() && data
            == spec_encode_get_block_headers(g),
{
    let (l, j0) = sp_parse_list_header(data, 0)->Some_0;
    lemma_parse_list_header_sound(data, 0);
    let (id, j1) = sp_parse_block_id(data, j0)->Some_0;
    lemma_parse_block_id_sound(data, j0);
    let (mh, j2) = sp_parse_uint(data, j1)->Some_0;
    lemma_parse_uint_sound(data, j1);
    let (sk, j3) = sp_parse_uint(data, j2)->Some_0;
    lemma_parse_uint_sound(data, j2);
    let (rv, j4) = sp_parse_bool(data, j3)->Some_0;
    lemma_parse_bool_sound(data, j3);
    let g = spec_decode_get_block_headers(data)->Some_0;
    let e1 = enc_block_id(id);
    let e2 = enc_uint(mh as nat);
    let e3 = enc_uint(sk as nat);
    let e4 = enc_bool(rv);
    let p = ghs_payload(g);
    assert(p == e1 + e2 + e3 + e4);
    assert(j4 == data.len());
    assert(j0 + l == data.len());
    assert(p.len() == l);
    let lh = list_header(l as nat);
    assert(lh.len() == j0);
    assert forall|k: int| 0 <= k < data.len() implies data[k] == (lh + p)[k] by {
        if k < j0 {
            assert(data[k] == data.subrange(0, j0)[k]);
        } else if k < j1 {
            assert(data[k] == data.subrange(j0, j1)[k - j0]);
            assert((lh + p)[k] == e1[k - j0]);
        } else if k < j2 {
            assert(data[k] == data.subrange(j1, j2)[k - j1]);
            assert((lh + p)[k] == e2[k - j1]);
        } else if k < j3 {
            assert(data[k] == data.subrange(j2, j3)[k - j2]);
            assert((lh + p)[k] == e3[k - j2]);
        } else {
            assert(data[k] == data.subrange(j3, j4)[k - j3]);
            assert((lh + p)[k] == e4[k - j3]);
        }
    }
    assert(data =~= lh + p);
    assert(spec_encode_get_block_headers(g) == list_header(p.len()) + p);
}

/// Encodes a header-range query as a four-element wire list.
pub fn encode_get_block_headers(request: &GetBlockHeaders) -> (r: Vec<u8>)
    ensures
        r@ == spec_encode_get_block_headers(request@),
{
    let mut payload: Vec<u8> = Vec::new();
    match &request.block_id {
        BlockId::Number(n) => append_uint(&mut payload, *n),
        BlockId::Hash(h) => append_str(&mut payload, &h.bytes),
    }
    append_uint(&mut payload, request.max_headers);
    append_uint(&mut payload, request.skip);
    append_bool(&mut payload, request.reverse);
    proof {
        assert(payload@ =~= ghs_payload(request@));
    }
    let mut out: Vec<u8> = Vec::new();
    append_list_header(&mut out, payload.len());
    append_bytes(&mut out, &payload);
    proof {
        assert(out@ =~= spec_encode_get_block_headers(request@));
    }
    out
}

/// Decodes a header-range query, accepting exactly the canonical
/// encodings and rejecting everything else with an error, never a panic.
pub fn decode_get_block_headers(data: &Vec<u8>) -> (r: Result<GetBlockHeaders, DecodeError>)
    ensures
        match r {
            Ok(g) => spec_decode_get_block_headers(data@) == Some(g@) && g.wf(),
            Err(_) => spec_decode_get_block_headers(data@) is None,
        },
{
    let n = data.len();
    let (l, j0) = match parse_list_header(data, 0) {
        Ok(p) => p,
        Err(e) => {
            return Err(e);
        },
    };
    if j0 + l != n {
        return Err(DecodeError::TrailingData);
    }
    let (block_id, j1) = match parse_block_id(data, j0) {
        Ok(p) => p,
        Err(e) => {
            return Err(e);
        },
    };
    let (max_headers, j2) = match parse_uint(data, j1) {
        Ok(p) => p,
        Err(e) => {
            return Err(e);
        },
    };
    let (skip, j3) = match parse_uint(data, j2) {
        Ok(p) => p,
        Err(e) => {
            return Err(e);
        },
    };
    let (reverse, j4) = match parse_bool(data, j3) {
        Ok(p) => p,
        Err(e) => {
            return Err(e);
        },
    };
    if j4 != n {
        return Err(DecodeError::TrailingData);
    }
    let g = GetBlockHeaders { block_id, max_headers, skip, reverse };
    proof {
        lemma_parse_block_id_sound(data@, j0 as int);
    }
    Ok(g)
}

/// Parses a block-id field, exactly as [`sp_parse_block_id`] does.
fn parse_block_id(data: &Vec<u8>, i: usize) -> (r: Result<(BlockId, usize), DecodeError>)
    requires
        i <= data@.len(),
    ensures
        match r {
            Ok((id, j)) => sp_parse_block_id(data@, i as int) == Some((id@, j as int)) && i < j
                <= data@.len(),
            Err(_) => sp_parse_block_id(data@, i as int) is None,
        },
{
    let (s, j) = match parse_str(data, i) {
        Ok(p) => p,
        Err(e) => {
            return Err(e);
        },
    };
    if s.len() == 32 {
        Ok((BlockId::Hash(Hash256 { bytes: s }), j))
    } else {
        match parse_uint(data, i) {
            Ok((v, j2)) => Ok((BlockId::Number(v), j2)),
            Err(e) => Err(e),
        }
    }
}

/// The fifteen header fields in wire order, each canonically encoded.
pub open spec fn header_fields(h: BlockHeaderV) -> Seq<u8> {
    enc_str(h.parent_hash) + enc_str(h.ommers_hash) + enc_str(h.beneficiary_address) + enc_str(
        h.state_root,
    ) + enc_str(h.transactions_root) + enc_str(h.receipts_root) + enc_str(h.logs_bloom) + enc_uint(
        h.difficulty as nat,
    ) + enc_uint(h.number as nat) + enc_uint(h.gas_limit as nat) + enc_uint(h.gas_used as nat)
        + enc_uint(h.timestamp as nat) + enc_str(h.extra_data) + enc_str(h.mix_hash) + enc_uint(
        h.nonce as nat,
    )
}

/// Canonical encoding of one header record.
pub open spec fn enc_header(h: BlockHeaderV) -> Seq<u8> {
    enc_list(header_fields(h))
}

/// Concatenation of the encodings of a header sequence.
pub open spec fn headers_payload(hs: Seq<BlockHeaderV>) -> Seq<u8>
    decreases hs.len(),
{
    if hs.len() == 0 {
        Seq::<u8>::empty()
    } else {
        enc_header(hs[0]) + headers_payload(hs.drop_first())
    }
}

/// Canonical encoding of a header-list message; the empty sequence
/// encodes to the canonical empty list.
pub open spec fn spec_encode_block_headers(hs: Seq<BlockHeaderV>) -> Seq<u8> {
    enc_list(headers_payload(hs))
}

/// A string field that must hold exactly 32 bytes.
pub open spec fn sp_parse_hash32(data: Seq<u8>, i: int) -> Option<(Seq<u8>, int)> {
    match sp_parse_str(data, i) {
        Option::None => Option::None,
        Option::Some((s, j)) => if s.len() == 32 {
            Option::Some((s, j))
        } else {
            Option::None
        },
    }
}

/// A string field that must hold exactly 20 bytes.
pub open spec fn sp_parse_addr20(data: Seq<u8>, i: int) -> Option<(Seq<u8>, int)> {
    match sp_parse_str(data, i) {
        Option::None => Option::None,
        Option::Some((s, j)) => if s.len() == 20 {
            Option::Some((s, j))
        } else {
            Option::None
        },
    }
}

/// The unique parse of one header record: a list of exactly the fifteen
/// fields in wire order, with fixed-size fields checked by byte length.
pub open spec fn sp_parse_header(data: Seq<u8>, i: int) -> Option<(BlockHeaderV, int)> {
    match sp_parse_list_header(data, i) {
        Option::None => Option::None,
        Option::Some((l, j0)) => match sp_parse_hash32(data, j0) {
            Option::None => Option::None,
            Option::Some((parent_hash, j1)) => match sp_parse_hash32(data, j1) {
                Option::None => Option::None,
                Option::Some((ommers_hash, j2)) => match sp_parse_addr20(data, j2) {
                    Option::None => Option::None,
                    Option::Some((beneficiary_address, j3)) => match sp_parse_hash32(data, j3) {
                        Option::None => Option::None,
                        Option::Some((state_root, j4)) => match sp_parse_hash32(data, j4) {
                            Option::None => Option::None,
                            Option::Some((transactions_root, j5)) => match sp_parse_hash32(
                                data,
                                j5,
                            ) {
                                Option::None => Option::None,
                                Option::Some((receipts_root, j6)) => match sp_parse_str(data, j6) {
                                    Option::None => Option::None,
                                    Option::Some((logs_bloom, j7)) => match sp_parse_uint(
                                        data,
                                        j7,
                                    ) {
                                        Option::None => Option::None,
                                        Option::Some((difficulty, j8)) => match sp_parse_uint(
                                            data,
                                            j8,
                                        ) {
                                            Option::None => Option::None,
                                            Option::Some((number, j9)) => match sp_parse_uint(
                                                data,
                                                j9,
                                            ) {
                                                Option::None => Option::None,
                                                Option::Some((gas_limit, j10)) => match sp_parse_uint(
                                                    data,
                                                    j10,
                                                ) {
                                                    Option::None => Option::None,
                                                    Option::Some((gas_used, j11)) => match sp_parse_uint(
                                                        data,
                                                        j11,
                                                    ) {
                                                        Option::None => Option::None,
                                                        Option::Some((timestamp, j12)) => match sp_parse_str(
                                                            data,
                                                            j12,
                                                        ) {
                                                            Option::None => Option::None,
                                                            Option::Some((extra_data, j13)) => match sp_parse_hash32(
                                                                data,
                                                                j13,
                                                            ) {
                                                                Option::None => Option::None,
                                                                Option::Some(
                                                                    (mix_hash, j14),
                                                                ) => match sp_parse_uint(
                                                                    data,
                                                                    j14,
                                                                ) {
                                                                    Option::None => Option::None,
                                                                    Option::Some(
                                                                        (nonce, j15),
                                                                    ) => if j15 == j0 + l {
                                                                        Option::Some(
                                                                            (
                                                                                BlockHeaderV {
                                                                                    parent_hash,
                                                                                    ommers_hash,
                                                                                    beneficiary_address,
                                                                                    state_root,
                                                                                    transactions_root,
                                                                                    receipts_root,
                                                                                    logs_bloom,
                                                                                    difficulty,
                                                                                    number,
                                                                                    gas_limit,
                                                                                    gas_used,
                                                                                    timestamp,
                                                                                    extra_data,
                                                                                    mix_hash,
                                                                                    nonce,
                                                                                },
                                                                                j15,
                                                                            ),
                                                                        )
                                                                    } else {
                                                                        Option::None
                                                                    },
                                                                },
                                                            },
                                                        },
                                                    },
                                                },
                                            },
                                        },
                                    },
                                },
                            },
                        },
                    },
                },
            },
        },
    }
}

/// Lifts a window equality through an enclosing one: if `e` sits at `i`
/// in `data` and `part` sits at `off` in `e`, then `part` sits at
/// `i + off` in `data`.
proof fn lemma_window_in(data: Seq<u8>, i: int, e: Seq<u8>, off: int, part: Seq<u8>)
    requires
        0 <= i,
        i + e.len() <= data.len(),
        data.subrange(i, i + e.len()) == e,
        0 <= off,
        off + part.len() <= e.len(),
        e.subrange(off, off + part.len()) == part,
    ensures
        data.subrange(i + off, i + off + part.len()) == part,
{
    assert forall|k: int|
        0 <= k < part.len() implies data.subrange(i + off, i + off + part.len() as int)[k]
        == part[k] by {
        assert(data.subrange(i, i + e.len() as int)[off + k] == data[i + off + k]);
        assert(e.subrange(off, off + part.len() as int)[k] == e[off + k]);
    }
    assert(data.subrange(i + off, i + off + part.len() as int) =~= part);
}

/// Stitches the fifteen consecutive field windows into the whole
/// field-bytes window.
#[verifier::rlimit(100)]
#[verifier::spinoff_prover]
proof fn lemma_header_fields_stitch(
    data: Seq<u8>,
    h: BlockHeaderV,
    j0: int,
    j1: int,
    j2: int,
    j3: int,
    j4: int,
    j5: int,
    j6: int,
    j7: int,
    j8: int,
    j9: int,
    j10: int,
    j11: int,
    j12: int,
    j13: int,
    j14: int,
    j15: int,
)
    requires
        0 <= j0 <= j15 <= data.len(),
        data.subrange(j0, j1) == enc_str(h.parent_hash),
        data.subrange(j1, j2) == enc_str(h.ommers_hash),
        data.subrange(j2, j3) == enc_str(h.beneficiary_address),
        data.subrange(j3, j4) == enc_str(h.state_root),
        data.subrange(j4, j5) == enc_str(h.transactions_root),
        data.subrange(j5, j6) == enc_str(h.receipts_root),
        data.subrange(j6, j7) == enc_str(h.logs_bloom),
        data.subrange(j7, j8) == enc_uint(h.difficulty as nat),
        data.subrange(j8, j9) == enc_uint(h.number as nat),
        data.subrange(j9, j10) == enc_uint(h.gas_limit as nat),
        data.subrange(j10, j11) == enc_uint(h.gas_used as nat),
        data.subrange(j11, j12) == enc_uint(h.timestamp as nat),
        data.subrange(j12, j13) == enc_str(h.extra_data),
        data.subrange(j13, j14) == enc_str(h.mix_hash),
        data.subrange(j14, j15) == enc_uint(h.nonce as nat),
        j0 <= j1 <= j2 <= j3 <= j4 <= j5 <= j6 <= j7 <= j8 <= j9 <= j10 <= j11 <= j12 <= j13 <= j14
            <= j15,
    ensures
        data.subrange(j0, j15) == header_fields(h),
        header_fields(h).len() == j15 - j0,
{
    let f1 = enc_str(h.parent_hash);
    let f2 = enc_str(h.ommers_hash);
    let f3 = enc_str(h.beneficiary_address);
    let f4 = enc_str(h.state_root);
    let f5 = enc_str(h.transactions_root);
    let f6 = enc_str(h.receipts_root);
    let f7 = enc_str(h.logs_bloom);
    let f8 = enc_uint(h.difficulty as nat);
    let f9 = enc_uint(h.number as nat);
    let f10 = enc_uint(h.gas_limit as nat);
    let f11 = enc_uint(h.gas_used as nat);
    let f12 = enc_uint(h.timestamp as nat);
    let f13 = enc_str(h.extra_data);
    let f14 = enc_str(h.mix_hash);
    let f15 = enc_uint(h.nonce as nat);
    let ff = header_fields(h);
    assert(ff.len() == j15 - j0);
    assert forall|t: int| 0 <= t < j15 - j0 implies data[j0 + t] == ff[t] by {
        if t < j1 - j0 {
            assert(data.subrange(j0, j1)[t] == data[j0 + t]);
            assert(ff[t] == f1[t]);
        } else if t < j2 - j0 {
            assert(data.subrange(j1, j2)[t - (j1 - j0)] == data[j0 + t]);
            assert(ff[t] == f2[t - (j1 - j0)]);
        } else if t < j3 - j0 {
            assert(data.subrange(j2, j3)[t - (j2 - j0)] == data[j0 + t]);
            assert(ff[t] == f3[t - (j2 - j0)]);
        } else if t < j4 - j0 {
            assert(data.subrange(j3, j4)[t - (j3 - j0)] == data[j0 + t]);
            assert(ff[t] == f4[t - (j3 - j0)]);
        } else if t < j5 - j0 {
            assert(data.subrange(j4, j5)[t - (j4 - j0)] == data[j0 + t]);
            assert(ff[t] == f5[t - (j4 - j0)]);
        } else if t < j6 - j0 {
            assert(data.subrange(j5, j6)[t - (j5 - j0)] == data[j0 + t]);
            assert(ff[t] == f6[t - (j5 - j0)]);
        } else if t < j7 - j0 {
            assert(data.subrange(j6, j7)[t - (j6 - j0)] == data[j0 + t]);
            assert(ff[t] == f7[t - (j6 - j0)]);
        } else if t < j8 - j0 {
            assert(data.subrange(j7, j8)[t - (j7 - j0)] == data[j0 + t]);
            assert(ff[t] == f8[t - (j7 - j0)]);
        } else if t < j9 - j0 {
            assert(data.subrange(j8, j9)[t - (j8 - j0)] == data[j0 + t]);
            assert(ff[t] == f9[t - (j8 - j0)]);
        } else if t < j10 - j0 {
            assert(data.subrange(j9, j10)[t - (j9 - j0)] == data[j0 + t]);
            assert(ff[t] == f10[t - (j9 - j0)]);
        } else if t < j11 - j0 {
            assert(data.subrange(j10, j11)[t - (j10 - j0)] == data[j0 + t]);
            assert(ff[t] == f11[t - (j10 - j0)]);
        } else if t < j12 - j0 {
            assert(data.subrange(j11, j12)[t - (j11 - j0)] == data[j0 + t]);
            assert(ff[t] == f12[t - (j11 - j0)]);
        } else if t < j13 - j0 {
            assert(data.subrange(j12, j13)[t - (j12 - j0)] == data[j0 + t]);
            assert(ff[t] == f13[t - (j12 - j0)]);
        } else if t < j14 - j0 {
            assert(data.subrange(j13, j14)[t - (j13 - j0)] == data[j0 + t]);
            assert(ff[t] == f14[t - (j13 - j0)]);
        } else {
            assert(data.subrange(j14, j15)[t - (j14 - j0)] == data[j0 + t]);
            assert(ff[t] == f15[t - (j14 - j0)]);
        }
    }
    assert(data.subrange(j0, j15) =~= ff);
}

/// What a successful header parse means: the consumed bytes are exactly
/// the canonical encoding of a well-formed header.
#[verifier::rlimit(100)]
#[verifier::spinoff_prover]
pub proof fn lemma_parse_header_sound(data: Seq<u8>, i: int)
    requires
        sp_parse_header(data, i) is Some,
    ensures
        sp_parse_header(data, i) matches Some((h, j)) ==> {
            &&& 0 <= i < j <= data.len()
            &&& j - i == enc_header(h).len()
            &&& data.subrange(i, j) == enc_header(h)
            &&& h.wf()
        },
{
    let (h, j) = sp_parse_header(data, i)->Some_0;
    let (l, j0) = sp_parse_list_header(data, i)->Some_0;
    lemma_pow256_8();
    lemma_parse_list_header_sound(data, i);
    let j1 = sp_parse_hash32(data, j0)->Some_0.1;
    lemma_parse_str_sound(data, j0);
    let j2 = sp_parse_hash32(data, j1)->Some_0.1;
    lemma_parse_str_sound(data, j1);
    let j3 = sp_parse_addr20(data, j2)->Some_0.1;
    lemma_parse_str_sound(data, j2);
    let j4 = sp_parse_hash32(data, j3)->Some_0.1;
    lemma_parse_str_sound(data, j3);
    let j5 = sp_parse_hash32(data, j4)->Some_0.1;
    lemma_parse_str_sound(data, j4);
    let j6 = sp_parse_hash32(data, j5)->Some_0.1;
    lemma_parse_str_sound(data, j5);
    let j7 = sp_parse_str(data, j6)->Some_0.1;
    lemma_parse_str_sound(data, j6);
    let j8 = sp_parse_uint(data, j7)->Some_0.1;
    lemma_parse_uint_sound(data, j7);
    let j9 = sp_parse_uint(data, j8)->Some_0.1;
    lemma_parse_uint_sound(data, j8);
    let j10 = sp_parse_uint(data, j9)->Some_0.1;
    lemma_parse_uint_sound(data, j9);
    let j11 = sp_parse_uint(data, j10)->Some_0.1;
    lemma_parse_uint_sound(data, j10);
    let j12 = sp_parse_uint(data, j11)->Some_0.1;
    lemma_parse_uint_sound(data, j11);
    let j13 = sp_parse_str(data, j12)->Some_0.1;
    lemma_parse_str_sound(data, j12);
    let j14 = sp_parse_hash32(data, j13)->Some_0.1;
    lemma_parse_str_sound(data, j13);
    let j15 = sp_parse_uint(data, j14)->Some_0.1;
    lemma_parse_uint_sound(data, j14);
    lemma_header_fields_stitch(
        data,
        h,
        j0,
        j1,
        j2,
        j3,
        j4,
        j5,
        j6,
        j7,
        j8,
        j9,
        j10,
        j11,
        j12,
        j13,
        j14,
        j15,
    );
    let ff = header_fields(h);
    let lh = list_header(l as nat);
    assert(j15 == j0 + l);
    assert(ff.len() == l);
    assert forall|k: int| 0 <= k < j - i implies data.subrange(i, j)[k] == (lh + ff)[k] by {
        assert(data.subrange(i, j)[k] == data[i + k]);
        if k < j0 - i {
            assert(data[i + k] == data.subrange(i, j0)[k]);
        } else {
            assert(data[i + k] == data.subrange(j0, j15)[k - (j0 - i)]);
        }
    }
    assert(data.subrange(i, j) =~= lh + ff);
}

/// Parse success for the six fixed-width fields that open a header record
/// whose field bytes sit at `j0`.
#[verifier::rlimit(100)]
#[verifier::spinoff_prover]
proof fn lemma_parse_header_complete_head(data: Seq<u8>, j0: int, h: BlockHeaderV)
    requires
        0 <= j0,
        h.wf(),
        j0 + header_fields(h).len() <= data.len(),
        data.subrange(j0, j0 + header_fields(h).len()) == header_fields(h),
    ensures
        sp_parse_hash32(data, j0) == Some((h.parent_hash, j0 + 33)),
        sp_parse_hash32(data, j0 + 33) == Some((h.ommers_hash, j0 + 66)),
        sp_parse_addr20(data, j0 + 66) == Some((h.beneficiary_address, j0 + 87)),
        sp_parse_hash32(data, j0 + 87) == Some((h.state_root, j0 + 120)),
        sp_parse_hash32(data, j0 + 120) == Some((h.transactions_root, j0 + 153)),
        sp_parse_hash32(data, j0 + 153) == Some((h.receipts_root, j0 + 186)),
{
    let f1 = enc_str(h.parent_hash);
    let f2 = enc_str(h.ommers_hash);
    let f3 = enc_str(h.beneficiary_address);
    let f4 = enc_str(h.state_root);
    let f5 = enc_str(h.transactions_root);
    let f6 = enc_str(h.receipts_root);
    let ff = header_fields(h);
    lemma_pow256_8();
    assert(f1.len() == 33 && f2.len() == 33 && f3.len() == 21 && f4.len() == 33 && f5.len() == 33
        && f6.len() == 33);
    assert(ff.subrange(0, 33) =~= f1);
    assert(ff.subrange(33, 66) =~= f2);
    assert(ff.subrange(66, 87) =~= f3);
    assert(ff.subrange(87, 120) =~= f4);
    assert(ff.subrange(120, 153) =~= f5);
    assert(ff.subrange(153, 186) =~= f6);
    lemma_window_in(data, j0, ff, 0, f1);
    lemma_window_in(data, j0, ff, 33, f2);
    lemma_window_in(data, j0, ff, 66, f3);
    lemma_window_in(data, j0, ff, 87, f4);
    lemma_window_in(data, j0, ff, 120, f5);
    lemma_window_in(data, j0, ff, 153, f6);
    lemma_parse_str_complete(data, j0, h.parent_hash);
    lemma_parse_str_complete(data, j0 + 33, h.ommers_hash);
    lemma_parse_str_complete(data, j0 + 66, h.beneficiary_address);
    lemma_parse_str_complete(data, j0 + 87, h.state_root);
    lemma_parse_str_complete(data, j0 + 120, h.transactions_root);
    lemma_parse_str_complete(data, j0 + 153, h.receipts_root);
}

/// Parse success for the variable-width fields that close a header record
/// whose field bytes sit at `j0`.
#[verifier::rlimit(100)]
#[verifier::spinoff_prover]
proof fn lemma_parse_header_complete_tail(data: Seq<u8>, j0: int, h: BlockHeaderV)
    requires
        0 <= j0,
        h.wf(),
        j0 + header_fields(h).len() <= data.len(),
        data.subrange(j0, j0 + header_fields(h).len()) == header_fields(h),
    ensures
        ({
            let f7 = enc_str(h.logs_bloom);
            let f8 = enc_uint(h.difficulty as nat);
            let f9 = enc_uint(h.number as nat);
            let f10 = enc_uint(h.gas_limit as nat);
            let f11 = enc_uint(h.gas_used as nat);
            let f12 = enc_uint(h.timestamp as nat);
            let f13 = enc_str(h.extra_data);
            let f14 = enc_str(h.mix_hash);
            let f15 = enc_uint(h.nonce as nat);
            let o7: int = 186 + f7.len() as int;
            let o8: int = o7 + f8.len();
            let o9: int = o8 + f9.len();
            let o10: int = o9 + f10.len();
            let o11: int = o10 + f11.len();
            let o12: int = o11 + f12.len();
            let o13: int = o12 + f13.len();
            let o14: int = o13 + f14.len();
            let o15: int = o14 + f15.len();
            &&& sp_parse_str(data, j0 + 186) == Some((h.logs_bloom, j0 + o7))
            &&& sp_parse_uint(data, j0 + o7) == Some((h.difficulty, j0 + o8))
            &&& sp_parse_uint(data, j0 + o8) == Some((h.number, j0 + o9))
            &&& sp_parse_uint(data, j0 + o9) == Some((h.gas_limit, j0 + o10))
            &&& sp_parse_uint(data, j0 + o10) == Some((h.gas_used, j0 + o11))
            &&& sp_parse_uint(data, j0 + o11) == Some((h.timestamp, j0 + o12))
            &&& sp_parse_str(data, j0 + o12) == Some((h.extra_data, j0 + o13))
            &&& sp_parse_hash32(data, j0 + o13) == Some((h.mix_hash, j0 + o14))
            &&& sp_parse_uint(data, j0 + o14) == Some((h.nonce, j0 + o15))
            &&& o15 == header_fields(h).len()
        }),
{
    let f7 = enc_str(h.logs_bloom);
    let f8 = enc_uint(h.difficulty as nat);
    let f9 = enc_uint(h.number as nat);
    let f10 = enc_uint(h.gas_limit as nat);
    let f11 = enc_uint(h.gas_used as nat);
    let f12 = enc_uint(h.timestamp as nat);
    let f13 = enc_str(h.extra_data);
    let f14 = enc_str(h.mix_hash);
    let f15 = enc_uint(h.nonce as nat);
    let o7: int = 186 + f7.len() as int;
    let o8: int = o7 + f8.len();
    let o9: int = o8 + f9.len();
    let o10: int = o9 + f10.len();
    let o11: int = o10 + f11.len();
    let o12: int = o11 + f12.len();
    let o13: int = o12 + f13.len();
    let o14: int = o13 + f14.len();
    let o15: int = o14 + f15.len();
    let ff = header_fields(h);
    lemma_pow256_8();
    assert(o15 == ff.len());
    assert(ff.subrange(186, o7) =~= f7);
    assert(ff.subrange(o7, o8) =~= f8);
    assert(ff.subrange(o8, o9) =~= f9);
    assert(ff.subrange(o9, o10) =~= f10);
    assert(ff.subrange(o10, o11) =~= f11);
    assert(ff.subrange(o11, o12) =~= f12);
    assert(ff.subrange(o12, o13) =~= f13);
    assert(ff.subrange(o13, o14) =~= f14);
    assert(ff.subrange(o14, o15) =~= f15);
    lemma_window_in(data, j0, ff, 186, f7);
    lemma_window_in(data, j0, ff, o7, f8);
    lemma_window_in(data, j0, ff, o8, f9);
    lemma_window_in(data, j0, ff, o9, f10);
    lemma_window_in(data, j0, ff, o10, f11);
    lemma_window_in(data, j0, ff, o11, f12);
    lemma_window_in(data, j0, ff, o12, f13);
    lemma_window_in(data, j0, ff, o13, f14);
    lemma_window_in(data, j0, ff, o14, f15);
    lemma_parse_str_complete(data, j0 + 186, h.logs_bloom);
    lemma_parse_uint_complete(data, j0 + o7, h.difficulty);
    lemma_parse_uint_complete(data, j0 + o8, h.number);
    lemma_parse_uint_complete(data, j0 + o9, h.gas_limit);
    lemma_parse_uint_complete(data, j0 + o10, h.gas_used);
    lemma_parse_uint_complete(data, j0 + o11, h.timestamp);
    lemma_parse_str_complete(data, j0 + o12, h.extra_data);
    lemma_parse_str_complete(data, j0 + o13, h.mix_hash);
    lemma_parse_uint_complete(data, j0 + o14, h.nonce);
}

/// Wherever the canonical encoding of a well-formed header sits in
/// `data`, the parse at its start succeeds and yields that header. The
/// payload bound is a machine limit: a real message always satisfies it.
#[verifier::rlimit(100)]
#[verifier::spinoff_prover]
pub proof fn lemma_parse_header_complete(data: Seq<u8>, i: int, h: BlockHeaderV)
    requires
        0 <= i,
        h.wf(),
        header_fields(h).len() < pow256(8),
        i + enc_header(h).len() <= data.len(),
        data.subrange(i, i + enc_header(h).len()) == enc_header(h),
    ensures
        sp_parse_header(data, i) == Some((h, i + enc_header(h).len())),
{
    let ff = header_fields(h);
    let lh = list_header(ff.len());
    let e = enc_header(h);
    lemma_pow256_8();
    assert(e == lh + ff);
    assert forall|k: int| 0 <= k < lh.len() implies data.subrange(i, i + lh.len() as int)[k]
        == lh[k] by {
        assert(data.subrange(i, i + e.len() as int)[k] == data[i + k]);
        assert(e[k] == lh[k]);
    }
    assert(data.subrange(i, i + lh.len() as int) =~= lh);
    lemma_parse_list_header_complete(data, i, ff.len());
    let j0 = i + lh.len() as int;
    assert(sp_parse_list_header(data, i) == Some((ff.len() as int, j0)));
    assert forall|k: int| 0 <= k < ff.len() implies data.subrange(j0, j0 + ff.len() as int)[k]
        == ff[k] by {
        assert(data.subrange(i, i + e.len() as int)[k + lh.len()] == data[j0 + k]);
        assert(e[k + lh.len()] == ff[k]);
    }
    assert(data.subrange(j0, j0 + ff.len() as int) =~= ff);
    lemma_parse_header_complete_head(data, j0, h);
    lemma_parse_header_complete_tail(data, j0, h);
    let parsed = sp_parse_header(data, i);
    assert(parsed is Some);
    assert(parsed->Some_0.0 =~= h);
    assert(parsed->Some_0.1 == i + e.len());
}

/// The unique parse of a run of header records filling `data` from `i` to
/// its end.
pub open spec fn sp_parse_headers(data: Seq<u8>, i: int) -> Option<Seq<BlockHeaderV>>
    decreases data.len() - i,
{
    if i == data.len() {
        Option::Some(Seq::<BlockHeaderV>::empty())
    } else if i < 0 || i > data.len() {
        Option::None
    } else {
        match sp_parse_header(data, i) {
            Option::None => Option::None,
            Option::Some((h, j)) => if j <= i || j > data.len() {
                Option::None
            } else {
                match sp_parse_headers(data, j) {
                    Option::None => Option::None,
                    Option::Some(rest) => Option::Some(seq![h] + rest),
                }
            },
        }
    }
}

/// The unique parse of a whole header-list message.
pub open spec fn spec_decode_block_headers(data: Seq<u8>) -> Option<Seq<BlockHeaderV>> {
    match sp_parse_list_header(data, 0) {
        Option::None => Option::None,
        Option::Some((l, j)) => if j + l != data.len() {
            Option::None
        } else {
            sp_parse_headers(data, j)
        },
    }
}

/// Every header in the sequence is well formed and small enough to
/// encode; real messages always are, since they fit in memory.
pub open spec fn headers_encodable(hs: Seq<BlockHeaderV>) -> bool {
    forall|k: int|
        0 <= k < hs.len() ==> (#[trigger] hs[k]).wf() && header_fields(hs[k]).len() < pow256(8)
}

/// What a successful header-run parse means.
#[verifier::rlimit(100)]
#[verifier::spinoff_prover]
pub proof fn lemma_parse_headers_sound(data: Seq<u8>, i: int)
    requires
        0 <= i <= data.len(),
        sp_parse_headers(data, i) is Some,
    ensures
        sp_parse_headers(data, i) matches Some(hs) ==> {
            &&& data.subrange(i, data.len() as int) == headers_payload(hs)
            &&& forall|k: int| 0 <= k < hs.len() ==> (#[trigger] hs[k]).wf()
        },
    decreases data.len() - i,
{
    if i == data.len() {
        assert(data.subrange(i, data.len() as int) =~= Seq::<u8>::empty());
    } else {
        let (h, j) = sp_parse_header(data, i)->Some_0;
        lemma_parse_header_sound(data, i);
        lemma_parse_headers_sound(data, j);
        let rest = sp_parse_headers(data, j)->Some_0;
        let hs = sp_parse_headers(data, i)->Some_0;
        assert(hs == seq![h] + rest);
        assert(hs[0] == h);
        assert(hs.drop_first() =~= rest);
        let n = data.len() as int;
        assert forall|k: int|
            0 <= k < n - i implies data.subrange(i, n)[k] == (enc_header(h) + headers_payload(
            rest,
        ))[k] by {
            assert(data.subrange(i, n)[k] == data[i + k]);
            if k < j - i {
                assert(data.subrange(i, j)[k] == data[i + k]);
            } else {
                assert(data.subrange(j, n)[k - (j - i)] == data[i + k]);
            }
        }
        assert(data.subrange(i, n) =~= enc_header(h) + headers_payload(rest));
        assert(headers_payload(hs) == enc_header(h) + headers_payload(rest));
        assert forall|k: int| 0 <= k < hs.len() implies (#[trigger] hs[k]).wf() by {
            if k > 0 {
                assert(hs[k] == rest[k - 1]);
            }
        }
    }
}

/// Wherever the concatenated encodings of encodable headers fill `data`
/// from `i` to its end, the run parse yields exactly those headers.
#[verifier::rlimit(100)]
#[verifier::spinoff_prover]
pub proof fn lemma_parse_headers_complete(data: Seq<u8>, i: int, hs: Seq<BlockHeaderV>)
    requires
        0 <= i <= data.len(),
        headers_encodable(hs),
        data.subrange(i, data.len() as int) == headers_payload(hs),
    ensures
        sp_parse_headers(data, i) == Some(hs),
    decreases hs.len(),
{
    let n = data.len() as int;
    if hs.len() == 0 {
        assert(headers_payload(hs).len() == 0);
        assert(i == n);
    } else {
        let h = hs[0];
        let rest = hs.drop_first();
        let e = enc_header(h);
        assert(headers_payload(hs) == e + headers_payload(rest));
        assert(n - i == e.len() + headers_payload(rest).len());
        let j = i + e.len() as int;
        assert forall|k: int| 0 <= k < e.len() implies data.subrange(i, j)[k] == e[k] by {
            assert(data.subrange(i, n)[k] == data[i + k]);
            assert((e + headers_payload(rest))[k] == e[k]);
            assert(data.subrange(i, j)[k] == data[i + k]);
        }
        assert(data.subrange(i, j) =~= e);
        lemma_parse_header_complete(data, i, h);
        assert forall|k: int|
            0 <= k < n - j implies data.subrange(j, n)[k] == headers_payload(rest)[k] by {
            assert(data.subrange(i, n)[k + e.len()] == data[j + k]);
            assert((e + headers_payload(rest))[k + e.len()] == headers_payload(rest)[k]);
            assert(data.subrange(j, n)[k] == data[j + k]);
        }
        assert(data.subrange(j, n) =~= headers_payload(rest));
        assert(headers_encodable(rest)) by {
            assert(forall|k: int| 0 <= k < rest.len() ==> #[trigger] rest[k] == hs[k + 1]);
        }
        lemma_parse_headers_complete(data, j, rest);
        assert(sp_parse_headers(data, i) == Some(seq![h] + rest));
        assert(seq![h] + rest =~= hs);
    }
}

/// Law (round-trip): decoding the canonical encoding of any encodable
/// header sequence yields exactly that sequence. The size bounds are
/// machine limits: every message held in memory satisfies them.
pub proof fn lemma_block_headers_roundtrip(hs: Seq<BlockHeaderV>)
    requires
        headers_encodable(hs),
        headers_payload(hs).len() < pow256(8),
    ensures
        spec_decode_block_headers(spec_encode_block_headers(hs)) == Some(hs),
{
    let p = headers_payload(hs);
    let lh = list_header(p.len());
    let data = spec_encode_block_headers(hs);
    assert(data == lh + p);
    assert forall|k: int| 0 <= k < lh.len() implies data.subrange(0, lh.len() as int)[k]
        == lh[k] by {
        assert(data[k] == lh[k]);
    }
    assert(data.subrange(0, lh.len() as int) =~= lh);
    lemma_parse_list_header_complete(data, 0, p.len());
    let j = lh.len() as int;
    let n = data.len() as int;
    assert forall|k: int| 0 <= k < n - j implies data.subrange(j, n)[k] == p[k] by {
        assert(data[j + k] == p[k]);
        assert(data.subrange(j, n)[k] == data[j + k]);
    }
    assert(data.subrange(j, n) =~= p);
    lemma_parse_headers_complete(data, j, hs);
}

/// Law (no junk): whatever the header-list decoder accepts is a sequence
/// of well-formed headers that encodes back to exactly the input bytes.
pub proof fn lemma_decode_block_headers_sound(data: Seq<u8>)
    requires
        spec_decode_block_headers(data) is Some,
    ensures
        spec_decode_block_headers(data) matches Some(hs) ==> {
            &&& data == spec_encode_block_headers(hs)
            &&& forall|k: int| 0 <= k < hs.len() ==> (#[trigger] hs[k]).wf()
        },
{
    let (l, j) = sp_parse_list_header(data, 0)->Some_0;
    lemma_parse_list_header_sound(data, 0);
    lemma_parse_headers_sound(data, j);
    let hs = spec_decode_block_headers(data)->Some_0;
    let p = headers_payload(hs);
    let n = data.len() as int;
    assert(data.subrange(j, n) == p);
    assert(p.len() == l);
    let lh = list_header(l as nat);
    assert forall|k: int| 0 <= k < n implies data[k] == (lh + p)[k] by {
        if k < j {
            assert(data.subrange(0, j)[k] == data[k]);
        } else {
            assert(data.subrange(j, n)[k - j] == data[k]);
        }
    }
    assert(data =~= lh + p);
}

/// The ghost views of a vector of headers.
pub open spec fn header_views(hs: Seq<BlockHeader>) -> Seq<BlockHeaderV> {
    hs.map_values(|h: BlockHeader| h@)
}

/// Appending one header to a sequence appends its encoding to the
/// payload.
pub proof fn lemma_headers_payload_snoc(s: Seq<BlockHeaderV>, h: BlockHeaderV)
    ensures
        headers_payload(s.push(h)) == headers_payload(s) + enc_header(h),
    decreases s.len(),
{
    if s.len() == 0 {
        assert(s.push(h)[0] == h);
        assert(s.push(h).drop_first() =~= Seq::<BlockHeaderV>::empty());
        assert(headers_payload(Seq::<BlockHeaderV>::empty()) =~= Seq::<u8>::empty());
        assert(headers_payload(s.push(h)) == enc_header(h) + Seq::<u8>::empty());
        assert(headers_payload(s) =~= Seq::<u8>::empty());
        assert(headers_payload(s.push(h)) =~= headers_payload(s) + enc_header(h));
    } else {
        assert(s.push(h)[0] == s[0]);
        assert(s.push(h).drop_first() =~= s.drop_first().push(h));
        lemma_headers_payload_snoc(s.drop_first(), h);
        assert(headers_payload(s.push(h)) == enc_header(s[0]) + (headers_payload(s.drop_first())
            + enc_header(h)));
        assert(enc_header(s[0]) + (headers_payload(s.drop_first()) + enc_header(h)) =~= (enc_header(
            s[0],
        ) + headers_payload(s.drop_first())) + enc_header(h));
    }
}

/// Appends the canonical encoding of one header record.
#[verifier::rlimit(100)]
fn append_header(out: &mut Vec<u8>, h: &BlockHeader)
    ensures
        final(out)@ == old(out)@ + enc_header(h@),
{
    let mut fields: Vec<u8> = Vec::new();
    append_str(&mut fields, &h.parent_hash.bytes);
    append_str(&mut fields, &h.ommers_hash.bytes);
    append_str(&mut fields, &h.beneficiary_address.bytes);
    append_str(&mut fields, &h.state_root.bytes);
    append_str(&mut fields, &h.transactions_root.bytes);
    append_str(&mut fields, &h.receipts_root.bytes);
    append_str(&mut fields, &h.logs_bloom);
    append_uint(&mut fields, h.difficulty);
    append_uint(&mut fields, h.number);
    append_uint(&mut fields, h.gas_limit);
    append_uint(&mut fields, h.gas_used);
    append_uint(&mut fields, h.timestamp);
    append_str(&mut fields, &h.extra_data);
    append_str(&mut fields, &h.mix_hash.bytes);
    append_uint(&mut fields, h.nonce);
    proof {
        assert(fields@ =~= header_fields(h@));
    }
    append_list_header(out, fields.len());
    append_bytes(out, &fields);
    proof {
        assert(out@ =~= old(out)@ + enc_header(h@));
    }
}

/// Encodes an ordered, possibly empty header sequence as a wire list;
/// the empty sequence yields the canonical empty-list byte.
pub fn encode_block_headers(headers: &Vec<BlockHeader>) -> (r: Vec<u8>)
    ensures
        r@ == spec_encode_block_headers(header_views(headers@)),
{
    let mut payload: Vec<u8> = Vec::new();
    let mut k: usize = 0;
    while k < headers.len()
        invariant
            k <= headers@.len(),
            payload@ == headers_payload(header_views(headers@).take(k as int)),
        decreases headers@.len() - k,
    {
        append_header(&mut payload, &headers[k]);
        proof {
            let v = header_views(headers@);
            lemma_headers_payload_snoc(v.take(k as int), v[k as int]);
            assert(v.take(k + 1) =~= v.take(k as int).push(v[k as int]));
        }
        k = k + 1;
    }
    proof {
        assert(header_views(headers@).take(headers@.len() as int) =~= header_views(headers@));
    }
    let mut out: Vec<u8> = Vec::new();
    append_list_header(&mut out, payload.len());
    append_bytes(&mut out, &payload);
    proof {
        assert(out@ =~= spec_encode_block_headers(header_views(headers@)));
    }
    out
}

/// Parses a 32-byte hash field.
fn parse_hash32(data: &Vec<u8>, i: usize) -> (r: Result<(Hash256, usize), DecodeError>)
    requires
        i <= data@.len(),
    ensures
        match r {
            Ok((h, j)) => sp_parse_hash32(data@, i as int) == Some((h@, j as int)) && i < j
                <= data@.len(),
            Err(_) => sp_parse_hash32(data@, i as int) is None,
        },
{
    let (s, j) = match parse_str(data, i) {
        Ok(p) => p,
        Err(e) => {
            return Err(e);
        },
    };
    if s.len() == 32 {
        Ok((Hash256 { bytes: s }, j))
    } else {
        Err(DecodeError::WrongFieldSize)
    }
}

/// Parses a 20-byte address field.
fn parse_addr20(data: &Vec<u8>, i: usize) -> (r: Result<(Address160, usize), DecodeError>)
    requires
        i <= data@.len(),
    ensures
        match r {
            Ok((a, j)) => sp_parse_addr20(data@, i as int) == Some((a@, j as int)) && i < j
                <= data@.len(),
            Err(_) => sp_parse_addr20(data@, i as int) is None,
        },
{
    let (s, j) = match parse_str(data, i) {
        Ok(p) => p,
        Err(e) => {
            return Err(e);
        },
    };
    if s.len() == 20 {
        Ok((Address160 { bytes: s }, j))
    } else {
        Err(DecodeError::WrongFieldSize)
    }
}

/// Parses one header record, exactly as [`sp_parse_header`] does.
#[verifier::rlimit(100)]
#[verifier::spinoff_prover]
fn parse_header(data: &Vec<u8>, i: usize) -> (r: Result<(BlockHeader, usize), DecodeError>)
    requires
        i <= data@.len(),
    ensures
        match r {
            Ok((h, j)) => sp_parse_header(data@, i as int) == Some((h@, j as int)) && i < j
                <= data@.len(),
            Err(_) => sp_parse_header(data@, i as int) is None,
        },
{
    let n = data.len();
    let (l, j0) = match parse_list_header(data, i) {
        Ok(p) => p,
        Err(e) => {
            return Err(e);
        },
    };
    let end = j0 + l;
    let (parent_hash, j1) = match parse_hash32(data, j0) {
        Ok(p) => p,
        Err(e) => {
            return Err(e);
        },
    };
    let (ommers_hash, j2) = match parse_hash32(data, j1) {
        Ok(p) => p,
        Err(e) => {
            return Err(e);
        },
    };
    let (beneficiary_address, j3) = match parse_addr20(data, j2) {
        Ok(p) => p,
        Err(e) => {
            return Err(e);
        },
    };
    let (state_root, j4) = match parse_hash32(data, j3) {
        Ok(p) => p,
        Err(e) => {
            return Err(e);
        },
    };
    let (transactions_root, j5) = match parse_hash32(data, j4) {
        Ok(p) => p,
        Err(e) => {
            return Err(e);
        },
    };
    let (receipts_root, j6) = match parse_hash32(data, j5) {
        Ok(p) => p,
        Err(e) => {
            return Err(e);
        },
    };
    let (logs_bloom, j7) = match parse_str(data, j6) {
        Ok(p) => p,
        Err(e) => {
            return Err(e);
        },
    };
    let (difficulty, j8) = match parse_uint(data, j7) {
        Ok(p) => p,
        Err(e) => {
            return Err(e);
        },
    };
    let (number, j9) = match parse_uint(data, j8) {
        Ok(p) => p,
        Err(e) => {
            return Err(e);
        },
    };
    let (gas_limit, j10) = match parse_uint(data, j9) {
        Ok(p) => p,
        Err(e) => {
            return Err(e);
        },
    };
    let (gas_used, j11) = match parse_uint(data, j10) {
        Ok(p) => p,
        Err(e) => {
            return Err(e);
        },
    };
    let (timestamp, j12) = match parse_uint(data, j11) {
        Ok(p) => p,
        Err(e) => {
            return Err(e);
        },
    };
    let (extra_data, j13) = match parse_str(data, j12) {
        Ok(p) => p,
        Err(e) => {
            return Err(e);
        },
    };
    let (mix_hash, j14) = match parse_hash32(data, j13) {
        Ok(p) => p,
        Err(e) => {
            return Err(e);
        },
    };
    let (nonce, j15) = match parse_uint(data, j14) {
        Ok(p) => p,
        Err(e) => {
            return Err(e);
        },
    };
    if j15 != end {
        return Err(DecodeError::TrailingData);
    }
    let h = BlockHeader {
        parent_hash,
        ommers_hash,
        beneficiary_address,
        state_root,
        transactions_root,
        receipts_root,
        logs_bloom,
        difficulty,
        number,
        gas_limit,
        gas_used,
        timestamp,
        extra_data,
        mix_hash,
        nonce,
    };
    proof {
        assert(sp_parse_header(data@, i as int) is Some);
        assert(sp_parse_header(data@, i as int)->Some_0.0 =~= h@);
    }
    Ok((h, j15))
}

/// Decodes a header-list message; parsing stops at the first malformed
/// record and yields an error, never a partial result and never a panic.
pub fn decode_block_headers(data: &Vec<u8>) -> (r: Result<Vec<BlockHeader>, DecodeError>)
    ensures
        match r {
            Ok(hs) => spec_decode_block_headers(data@) == Some(header_views(hs@)),
            Err(_) => spec_decode_block_headers(data@) is None,
        },
{
    let n = data.len();
    let (l, j0) = match parse_list_header(data, 0) {
        Ok(p) => p,
        Err(e) => {
            return Err(e);
        },
    };
    if j0 + l != n {
        return Err(DecodeError::TrailingData);
    }
    let mut acc: Vec<BlockHeader> = Vec::new();
    let mut pos: usize = j0;
    proof {
        assert(header_views(acc@) + sp_parse_headers(data@, pos as int)->Some_0 =~= sp_parse_headers(
            data@,
            pos as int,
        )->Some_0);
    }
    while pos < n
        invariant
            pos <= n == data@.len(),
            spec_decode_block_headers(data@) == (match sp_parse_headers(data@, pos as int) {
                Option::None => Option::<Seq<BlockHeaderV>>::None,
                Option::Some(rest) => Option::Some(header_views(acc@) + rest),
            }),
        decreases n - pos,
    {
        let ghost old_acc = acc@;
        let ghost old_pos = pos as int;
        let (h, j) = match parse_header(data, pos) {
            Ok(p) => p,
            Err(e) => {
                return Err(e);
            },
        };
        acc.push(h);
        pos = j;
        proof {
            let dv = data@;
            assert(sp_parse_headers(dv, old_pos) == (match sp_parse_headers(dv, j as int) {
                Option::None => Option::<Seq<BlockHeaderV>>::None,
                Option::Some(rest) => Option::Some(seq![h@] + rest),
            }));
            if sp_parse_headers(dv, j as int) is Some {
                let rest = sp_parse_headers(dv, j as int)->Some_0;
                assert(header_views(old_acc) + (seq![h@] + rest) =~= header_views(old_acc.push(h))
                    + rest);
            }
        }
    }
    proof {
        assert(sp_parse_headers(data@, pos as int) == Some(Seq::<BlockHeaderV>::empty()));
        assert(header_views(acc@) + Seq::<BlockHeaderV>::empty() =~= header_views(acc@));
    }
    Ok(acc)
}

/// Concatenation of the encodings of a sequence of 32-byte hashes.
pub open spec fn hashes_payload(hs: Seq<Seq<u8>>) -> Seq<u8>
    decreases hs.len(),
{
    if hs.len() == 0 {
        Seq::<u8>::empty()
    } else {
        enc_str(hs[0]) + hashes_payload(hs.drop_first())
    }
}

/// Every entry is a 32-byte digest.
pub open spec fn hashes_wf(hs: Seq<Seq<u8>>) -> bool {
    forall|k: int| 0 <= k < hs.len() ==> (#[trigger] hs[k]).len() == 32
}

/// Canonical encoding of a body-request message: a list of block hashes.
pub open spec fn spec_encode_get_block_bodies(hs: Seq<Seq<u8>>) -> Seq<u8> {
    enc_list(hashes_payload(hs))
}

/// The unique parse of a run of 32-byte hashes filling `data` from `i`.
pub open spec fn sp_parse_hashes(data: Seq<u8>, i: int) -> Option<Seq<Seq<u8>>>
    decreases data.len() - i,
{
    if i == data.len() {
        Option::Some(Seq::<Seq<u8>>::empty())
    } else if i < 0 || i > data.len() {
        Option::None
    } else {
        match sp_parse_hash32(data, i) {
            Option::None => Option::None,
            Option::Some((s, j)) => if j <= i || j > data.len() {
                Option::None
            } else {
                match sp_parse_hashes(data, j) {
                    Option::None => Option::None,
                    Option::Some(rest) => Option::Some(seq![s] + rest),
                }
            },
        }
    }
}

/// The unique parse of a whole body-request message.
pub open spec fn spec_decode_get_block_bodies(data: Seq<u8>) -> Option<Seq<Seq<u8>>> {
    match sp_parse_list_header(data, 0) {
        Option::None => Option::None,
        Option::Some((l, j)) => if j + l != data.len() {
            Option::None
        } else {
            sp_parse_hashes(data, j)
        },
    }
}

/// What a successful hash-run parse means.
pub proof fn lemma_parse_hashes_sound(data: Seq<u8>, i: int)
    requires
        0 <= i <= data.len(),
        sp_parse_hashes(data, i) is Some,
    ensures
        sp_parse_hashes(data, i) matches Some(hs) ==> {
            &&& data.subrange(i, data.len() as int) == hashes_payload(hs)
            &&& hashes_wf(hs)
        },
    decreases data.len() - i,
{
    if i == data.len() {
        assert(data.subrange(i, data.len() as int) =~= Seq::<u8>::empty());
    } else {
        let (s, j) = sp_parse_hash32(data, i)->Some_0;
        lemma_parse_str_sound(data, i);
        lemma_parse_hashes_sound(data, j);
        let rest = sp_parse_hashes(data, j)->Some_0;
        let hs = sp_parse_hashes(data, i)->Some_0;
        assert(hs == seq![s] + rest);
        assert(hs[0] == s);
        assert(hs.drop_first() =~= rest);
        let n = data.len() as int;
        assert forall|k: int|
            0 <= k < n - i implies data.subrange(i, n)[k] == (enc_str(s) + hashes_payload(
            rest,
        ))[k] by {
            assert(data.subrange(i, n)[k] == data[i + k]);
            if k < j - i {
                assert(data.subrange(i, j)[k] == data[i + k]);
            } else {
                assert(data.subrange(j, n)[k - (j - i)] == data[i + k]);
            }
        }
        assert(data.subrange(i, n) =~= enc_str(s) + hashes_payload(rest));
        assert forall|k: int| 0 <= k < hs.len() implies (#[trigger] hs[k]).len() == 32 by {
            if k > 0 {
                assert(hs[k] == rest[k - 1]);
            }
        }
    }
}

/// Wherever the concatenated encodings of 32-byte hashes fill `data`
/// from `i` to its end, the run parse yields exactly those hashes.
pub proof fn lemma_parse_hashes_complete(data: Seq<u8>, i: int, hs: Seq<Seq<u8>>)
    requires
        0 <= i <= data.len(),
        hashes_wf(hs),
        data.subrange(i, data.len() as int) == hashes_payload(hs),
    ensures
        sp_parse_hashes(data, i) == Some(hs),
    decreases hs.len(),
{
    let n = data.len() as int;
    if hs.len() == 0 {
        assert(hashes_payload(hs).len() == 0);
        assert(i == n);
    } else {
        let s = hs[0];
        let rest = hs.drop_first();
        let e = enc_str(s);
        lemma_pow256_8();
        assert(hashes_payload(hs) == e + hashes_payload(rest));
        assert(e.len() == 33);
        let j = i + 33;
        assert forall|k: int| 0 <= k < 33 implies data.subrange(i, j)[k] == e[k] by {
            assert(data.subrange(i, n)[k] == data[i + k]);
            assert((e + hashes_payload(rest))[k] == e[k]);
            assert(data.subrange(i, j)[k] == data[i + k]);
        }
        assert(data.subrange(i, j) =~= e);
        lemma_parse_str_complete(data, i, s);
        assert forall|k: int|
            0 <= k < n - j implies data.subrange(j, n)[k] == hashes_payload(rest)[k] by {
            assert(data.subrange(i, n)[k + 33] == data[j + k]);
            assert((e + hashes_payload(rest))[k + 33] == hashes_payload(rest)[k]);
            assert(data.subrange(j, n)[k] == data[j + k]);
        }
        assert(data.subrange(j, n) =~= hashes_payload(rest));
        assert(hashes_wf(rest)) by {
            assert(forall|k: int| 0 <= k < rest.len() ==> #[trigger] rest[k] == hs[k + 1]);
        }
        lemma_parse_hashes_complete(data, j, rest);
        assert(sp_parse_hashes(data, i) == Some(seq![s] + rest));
        assert(seq![s] + rest =~= hs);
    }
}

/// Law (round-trip) for body requests.
pub proof fn lemma_get_block_bodies_roundtrip(hs: Seq<Seq<u8>>)
    requires
        hashes_wf(hs),
        hashes_payload(hs).len() < pow256(8),
    ensures
        spec_decode_get_block_bodies(spec_encode_get_block_bodies(hs)) == Some(hs),
{
    let p = hashes_payload(hs);
    let lh = list_header(p.len());
    let data = spec_encode_get_block_bodies(hs);
    assert(data == lh + p);
    assert forall|k: int| 0 <= k < lh.len() implies data.subrange(0, lh.len() as int)[k]
        == lh[k] by {
        assert(data[k] == lh[k]);
    }
    assert(data.subrange(0, lh.len() as int) =~= lh);
    lemma_parse_list_header_complete(data, 0, p.len());
    let j = lh.len() as int;
    let n = data.len() as int;
    assert forall|k: int| 0 <= k < n - j implies data.subrange(j, n)[k] == p[k] by {
        assert(data[j + k] == p[k]);
        assert(data.subrange(j, n)[k] == data[j + k]);
    }
    assert(data.subrange(j, n) =~= p);
    lemma_parse_hashes_complete(data, j, hs);
}

/// Law (no junk) for body requests.
pub proof fn lemma_decode_get_block_bodies_sound(data: Seq<u8>)
    requires
        spec_decode_get_block_bodies(data) is Some,
    ensures
        spec_decode_get_block_bodies(data) matches Some(hs) ==> {
            &&& data == spec_encode_get_block_bodies(hs)
            &&& hashes_wf(hs)
        },
{
    let (l, j) = sp_parse_list_header(data, 0)->Some_0;
    lemma_parse_list_header_sound(data, 0);
    lemma_parse_hashes_sound(data, j);
    let hs = spec_decode_get_block_bodies(data)->Some_0;
    let p = hashes_payload(hs);
    let n = data.len() as int;
    assert(p.len() == l);
    let lh = list_header(l as nat);
    assert forall|k: int| 0 <= k < n implies data[k] == (lh + p)[k] by {
        if k < j {
            assert(data.subrange(0, j)[k] == data[k]);
        } else {
            assert(data.subrange(j, n)[k - j] == data[k]);
        }
    }
    assert(data =~= lh + p);
}

/// Concatenation of a sequence of opaque body items, carried through raw.
pub open spec fn bodies_payload(bs: Seq<Seq<u8>>) -> Seq<u8>
    decreases bs.len(),
{
    if bs.len() == 0 {
        Seq::<u8>::empty()
    } else {
        bs[0] + bodies_payload(bs.drop_first())
    }
}

/// Every entry is one complete, canonically encoded item.
pub open spec fn bodies_wf(bs: Seq<Seq<u8>>) -> bool {
    forall|k: int| 0 <= k < bs.len() ==> is_item(#[trigger] bs[k])
}

/// Canonical encoding of a body-list message; the empty sequence encodes
/// to the canonical empty list.
pub open spec fn spec_encode_block_bodies(bs: Seq<Seq<u8>>) -> Seq<u8> {
    enc_list(bodies_payload(bs))
}

/// The unique parse of a run of whole items filling `data` from `i`.
pub open spec fn sp_parse_items(data: Seq<u8>, i: int) -> Option<Seq<Seq<u8>>>
    decreases data.len() - i,
{
    if i == data.len() {
        Option::Some(Seq::<Seq<u8>>::empty())
    } else if i < 0 || i > data.len() {
        Option::None
    } else {
        match sp_parse_item(data, i) {
            Option::None => Option::None,
            Option::Some((b, j)) => if j <= i || j > data.len() {
                Option::None
            } else {
                match sp_parse_items(data, j) {
                    Option::None => Option::None,
                    Option::Some(rest) => Option::Some(seq![b] + rest),
                }
            },
        }
    }
}

/// The unique parse of a whole body-list message.
pub open spec fn spec_decode_block_bodies(data: Seq<u8>) -> Option<Seq<Seq<u8>>> {
    match sp_parse_list_header(data, 0) {
        Option::None => Option::None,
        Option::Some((l, j)) => if j + l != data.len() {
            Option::None
        } else {
            sp_parse_items(data, j)
        },
    }
}

/// What a successful item-run parse means.
pub proof fn lemma_parse_items_sound(data: Seq<u8>, i: int)
    requires
        0 <= i <= data.len(),
        sp_parse_items(data, i) is Some,
    ensures
        sp_parse_items(data, i) matches Some(bs) ==> {
            &&& data.subrange(i, data.len() as int) == bodies_payload(bs)
            &&& bodies_wf(bs)
        },
    decreases data.len() - i,
{
    if i == data.len() {
        assert(data.subrange(i, data.len() as int) =~= Seq::<u8>::empty());
    } else {
        let (b, j) = sp_parse_item(data, i)->Some_0;
        lemma_parse_item_sound(data, i);
        lemma_parse_items_sound(data, j);
        let rest = sp_parse_items(data, j)->Some_0;
        let bs = sp_parse_items(data, i)->Some_0;
        assert(bs == seq![b] + rest);
        assert(bs[0] == b);
        assert(bs.drop_first() =~= rest);
        let n = data.len() as int;
        assert forall|k: int|
            0 <= k < n - i implies data.subrange(i, n)[k] == (b + bodies_payload(rest))[k] by {
            assert(data.subrange(i, n)[k] == data[i + k]);
            if k < j - i {
                assert(data.subrange(i, j)[k] == data[i + k]);
            } else {
                assert(data.subrange(j, n)[k - (j - i)] == data[i + k]);
            }
        }
        assert(data.subrange(i, n) =~= b + bodies_payload(rest));
        assert forall|k: int| 0 <= k < bs.len() implies is_item(#[trigger] bs[k]) by {
            if k > 0 {
                assert(bs[k] == rest[k - 1]);
            }
        }
    }
}

/// Wherever whole items fill `data` from `i` to its end, the run parse
/// yields exactly those items.
pub proof fn lemma_parse_items_complete(data: Seq<u8>, i: int, bs: Seq<Seq<u8>>)
    requires
        0 <= i <= data.len(),
        bodies_wf(bs),
        data.subrange(i, data.len() as int) == bodies_payload(bs),
    ensures
        sp_parse_items(data, i) == Some(bs),
    decreases bs.len(),
{
    let n = data.len() as int;
    if bs.len() == 0 {
        assert(bodies_payload(bs).len() == 0);
        assert(i == n);
    } else {
        let b = bs[0];
        let rest = bs.drop_first();
        assert(bodies_payload(bs) == b + bodies_payload(rest));
        let j = i + b.len() as int;
        assert forall|k: int| 0 <= k < b.len() implies data.subrange(i, j)[k] == b[k] by {
            assert(data.subrange(i, n)[k] == data[i + k]);
            assert((b + bodies_payload(rest))[k] == b[k]);
            assert(data.subrange(i, j)[k] == data[i + k]);
        }
        assert(data.subrange(i, j) =~= b);
        assert(is_item(b));
        lemma_parse_item_complete(data, i, b);
        assert(b.len() > 0);
        assert forall|k: int|
            0 <= k < n - j implies data.subrange(j, n)[k] == bodies_payload(rest)[k] by {
            assert(data.subrange(i, n)[k + b.len()] == data[j + k]);
            assert((b + bodies_payload(rest))[k + b.len()] == bodies_payload(rest)[k]);
            assert(data.subrange(j, n)[k] == data[j + k]);
        }
        assert(data.subrange(j, n) =~= bodies_payload(rest));
        assert(bodies_wf(rest)) by {
            assert(forall|k: int| 0 <= k < rest.len() ==> #[trigger] rest[k] == bs[k + 1]);
        }
        lemma_parse_items_complete(data, j, rest);
        assert(sp_parse_items(data, i) == Some(seq![b] + rest));
        assert(seq![b] + rest =~= bs);
    }
}

/// Law (round-trip) for body lists: the pass-through is exact.
pub proof fn lemma_block_bodies_roundtrip(bs: Seq<Seq<u8>>)
    requires
        bodies_wf(bs),
        bodies_payload(bs).len() < pow256(8),
    ensures
        spec_decode_block_bodies(spec_encode_block_bodies(bs)) == Some(bs),
{
    let p = bodies_payload(bs);
    let lh = list_header(p.len());
    let data = spec_encode_block_bodies(bs);
    assert(data == lh + p);
    assert forall|k: int| 0 <= k < lh.len() implies data.subrange(0, lh.len() as int)[k]
        == lh[k] by {
        assert(data[k] == lh[k]);
    }
    assert(data.subrange(0, lh.len() as int) =~= lh);
    lemma_parse_list_header_complete(data, 0, p.len());
    let j = lh.len() as int;
    let n = data.len() as int;
    assert forall|k: int| 0 <= k < n - j implies data.subrange(j, n)[k] == p[k] by {
        assert(data[j + k] == p[k]);
        assert(data.subrange(j, n)[k] == data[j + k]);
    }
    assert(data.subrange(j, n) =~= p);
    lemma_parse_items_complete(data, j, bs);
}

/// Law (no junk) for body lists.
pub proof fn lemma_decode_block_bodies_sound(data: Seq<u8>)
    requires
        spec_decode_block_bodies(data) is Some,
    ensures
        spec_decode_block_bodies(data) matches Some(bs) ==> {
            &&& data == spec_encode_block_bodies(bs)
            &&& bodies_wf(bs)
        },
{
    let (l, j) = sp_parse_list_header(data, 0)->Some_0;
    lemma_parse_list_header_sound(data, 0);
    lemma_parse_items_sound(data, j);
    let bs = spec_decode_block_bodies(data)->Some_0;
    let p = bodies_payload(bs);
    let n = data.len() as int;
    assert(p.len() == l);
    let lh = list_header(l as nat);
    assert forall|k: int| 0 <= k < n implies data[k] == (lh + p)[k] by {
        if k < j {
            assert(data.subrange(0, j)[k] == data[k]);
        } else {
            assert(data.subrange(j, n)[k - j] == data[k]);
        }
    }
    assert(data =~= lh + p);
}

/// Law (empty-list canon): the empty header list and the empty body list
/// both encode to the canonical one-byte empty list.
pub proof fn lemma_empty_list_canon()
    ensures
        spec_encode_block_headers(Seq::<BlockHeaderV>::empty()) == seq![0xc0u8],
        spec_encode_block_bodies(Seq::<Seq<u8>>::empty()) == seq![0xc0u8],
{
    assert(headers_payload(Seq::<BlockHeaderV>::empty()) =~= Seq::<u8>::empty());
    assert(bodies_payload(Seq::<Seq<u8>>::empty()) =~= Seq::<u8>::empty());
    assert(spec_encode_block_headers(Seq::<BlockHeaderV>::empty()) =~= seq![0xc0u8]);
    assert(spec_encode_block_bodies(Seq::<Seq<u8>>::empty()) =~= seq![0xc0u8]);
}

/// The ghost views of a vector of hashes.
pub open spec fn hash_views(hs: Seq<Hash256>) -> Seq<Seq<u8>> {
    hs.map_values(|h: Hash256| h@)
}

/// The ghost views of a vector of bodies.
pub open spec fn body_views(bs: Seq<BlockBody>) -> Seq<Seq<u8>> {
    bs.map_values(|b: BlockBody| b@)
}

/// Appending one hash appends its encoding to the payload.
pub proof fn lemma_hashes_payload_snoc(s: Seq<Seq<u8>>, h: Seq<u8>)
    ensures
        hashes_payload(s.push(h)) == hashes_payload(s) + enc_str(h),
    decreases s.len(),
{
    if s.len() == 0 {
        assert(s.push(h)[0] == h);
        assert(s.push(h).drop_first() =~= Seq::<Seq<u8>>::empty());
        assert(hashes_payload(Seq::<Seq<u8>>::empty()) =~= Seq::<u8>::empty());
        assert(hashes_payload(s.push(h)) == enc_str(h) + Seq::<u8>::empty());
        assert(hashes_payload(s) =~= Seq::<u8>::empty());
        assert(hashes_payload(s.push(h)) =~= hashes_payload(s) + enc_str(h));
    } else {
        assert(s.push(h)[0] == s[0]);
        assert(s.push(h).drop_first() =~= s.drop_first().push(h));
        lemma_hashes_payload_snoc(s.drop_first(), h);
        assert(hashes_payload(s.push(h)) == enc_str(s[0]) + (hashes_payload(s.drop_first())
            + enc_str(h)));
        assert(enc_str(s[0]) + (hashes_payload(s.drop_first()) + enc_str(h)) =~= (enc_str(s[0])
            + hashes_payload(s.drop_first())) + enc_str(h));
    }
}

/// Appending one body appends its raw bytes to the payload.
pub proof fn lemma_bodies_payload_snoc(s: Seq<Seq<u8>>, b: Seq<u8>)
    ensures
        bodies_payload(s.push(b)) == bodies_payload(s) + b,
    decreases s.len(),
{
    if s.len() == 0 {
        assert(s.push(b)[0] == b);
        assert(s.push(b).drop_first() =~= Seq::<Seq<u8>>::empty());
        assert(bodies_payload(Seq::<Seq<u8>>::empty()) =~= Seq::<u8>::empty());
        assert(bodies_payload(s.push(b)) == b + Seq::<u8>::empty());
        assert(bodies_payload(s) =~= Seq::<u8>::empty());
        assert(bodies_payload(s.push(b)) =~= bodies_payload(s) + b);
    } else {
        assert(s.push(b)[0] == s[0]);
        assert(s.push(b).drop_first() =~= s.drop_first().push(b));
        lemma_bodies_payload_snoc(s.drop_first(), b);
        assert(bodies_payload(s.push(b)) == s[0] + (bodies_payload(s.drop_first()) + b));
        assert(s[0] + (bodies_payload(s.drop_first()) + b) =~= (s[0] + bodies_payload(
            s.drop_first(),
        )) + b);
    }
}

/// Encodes a body-request message: a wire list of block hashes.
pub fn encode_get_block_bodies(hashes: &Vec<Hash256>) -> (r: Vec<u8>)
    ensures
        r@ == spec_encode_get_block_bodies(hash_views(hashes@)),
{
    let mut payload: Vec<u8> = Vec::new();
    let mut k: usize = 0;
    while k < hashes.len()
        invariant
            k <= hashes@.len(),
            payload@ == hashes_payload(hash_views(hashes@).take(k as int)),
        decreases hashes@.len() - k,
    {
        append_str(&mut payload, &hashes[k].bytes);
        proof {
            let v = hash_views(hashes@);
            lemma_hashes_payload_snoc(v.take(k as int), v[k as int]);
            assert(v.take(k + 1) =~= v.take(k as int).push(v[k as int]));
        }
        k = k + 1;
    }
    proof {
        assert(hash_views(hashes@).take(hashes@.len() as int) =~= hash_views(hashes@));
    }
    let mut out: Vec<u8> = Vec::new();
    append_list_header(&mut out, payload.len());
    append_bytes(&mut out, &payload);
    proof {
        assert(out@ =~= spec_encode_get_block_bodies(hash_views(hashes@)));
    }
    out
}

/// Decodes a body-request message into its list of 32-byte hashes.
pub fn decode_get_block_bodies(data: &Vec<u8>) -> (r: Result<Vec<Hash256>, DecodeError>)
    ensures
        match r {
            Ok(hs) => spec_decode_get_block_bodies(data@) == Some(hash_views(hs@)) && (forall|
                k: int,
            |
                0 <= k < hs@.len() ==> (#[trigger] hs@[k]).wf()),
            Err(_) => spec_decode_get_block_bodies(data@) is None,
        },
{
    let n = data.len();
    let (l, j0) = match parse_list_header(data, 0) {
        Ok(p) => p,
        Err(e) => {
            return Err(e);
        },
    };
    if j0 + l != n {
        return Err(DecodeError::TrailingData);
    }
    let mut acc: Vec<Hash256> = Vec::new();
    let mut pos: usize = j0;
    proof {
        assert(hash_views(acc@) + sp_parse_hashes(data@, pos as int)->Some_0 =~= sp_parse_hashes(
            data@,
            pos as int,
        )->Some_0);
    }
    while pos < n
        invariant
            pos <= n == data@.len(),
            forall|k: int| 0 <= k < acc@.len() ==> (#[trigger] acc@[k]).wf(),
            spec_decode_get_block_bodies(data@) == (match sp_parse_hashes(data@, pos as int) {
                Option::None => Option::<Seq<Seq<u8>>>::None,
                Option::Some(rest) => Option::Some(hash_views(acc@) + rest),
            }),
        decreases n - pos,
    {
        let ghost old_acc = acc@;
        let (h, j) = match parse_hash32(data, pos) {
            Ok(p) => p,
            Err(e) => {
                return Err(e);
            },
        };
        proof {
            assert(h.wf());
        }
        acc.push(h);
        pos = j;
        proof {
            let dv = data@;
            if sp_parse_hashes(dv, j as int) is Some {
                let rest = sp_parse_hashes(dv, j as int)->Some_0;
                assert(hash_views(old_acc) + (seq![h@] + rest) =~= hash_views(old_acc.push(h))
                    + rest);
            }
        }
    }
    proof {
        assert(sp_parse_hashes(data@, pos as int) == Some(Seq::<Seq<u8>>::empty()));
        assert(hash_views(acc@) + Seq::<Seq<u8>>::empty() =~= hash_views(acc@));
    }
    Ok(acc)
}

/// Encodes a body-list message; each body is one opaque item carried
/// through unchanged, and the empty sequence yields the canonical empty
/// list.
pub fn encode_block_bodies(bodies: &Vec<BlockBody>) -> (r: Vec<u8>)
    ensures
        r@ == spec_encode_block_bodies(body_views(bodies@)),
{
    let mut payload: Vec<u8> = Vec::new();
    let mut k: usize = 0;
    while k < bodies.len()
        invariant
            k <= bodies@.len(),
            payload@ == bodies_payload(body_views(bodies@).take(k as int)),
        decreases bodies@.len() - k,
    {
        append_bytes(&mut payload, &bodies[k].bytes);
        proof {
            let v = body_views(bodies@);
            lemma_bodies_payload_snoc(v.take(k as int), v[k as int]);
            assert(v.take(k + 1) =~= v.take(k as int).push(v[k as int]));
        }
        k = k + 1;
    }
    proof {
        assert(body_views(bodies@).take(bodies@.len() as int) =~= body_views(bodies@));
    }
    let mut out: Vec<u8> = Vec::new();
    append_list_header(&mut out, payload.len());
    append_bytes(&mut out, &payload);
    proof {
        assert(out@ =~= spec_encode_block_bodies(body_views(bodies@)));
    }
    out
}

/// Decodes a body-list message into its opaque items; parsing stops at
/// the first malformed item with an error, never a panic.
pub fn decode_block_bodies(data: &Vec<u8>) -> (r: Result<Vec<BlockBody>, DecodeError>)
    ensures
        match r {
            Ok(bs) => spec_decode_block_bodies(data@) == Some(body_views(bs@)),
            Err(_) => spec_decode_block_bodies(data@) is None,
        },
{
    let n = data.len();
    let (l, j0) = match parse_list_header(data, 0) {
        Ok(p) => p,
        Err(e) => {
            return Err(e);
        },
    };
    if j0 + l != n {
        return Err(DecodeError::TrailingData);
    }
    let mut acc: Vec<BlockBody> = Vec::new();
    let mut pos: usize = j0;
    proof {
        assert(body_views(acc@) + sp_parse_items(data@, pos as int)->Some_0 =~= sp_parse_items(
            data@,
            pos as int,
        )->Some_0);
    }
    while pos < n
        invariant
            pos <= n == data@.len(),
            spec_decode_block_bodies(data@) == (match sp_parse_items(data@, pos as int) {
                Option::None => Option::<Seq<Seq<u8>>>::None,
                Option::Some(rest) => Option::Some(body_views(acc@) + rest),
            }),
        decreases n - pos,
    {
        let ghost old_acc = acc@;
        let (b, j) = match parse_item(data, pos) {
            Ok(p) => p,
            Err(e) => {
                return Err(e);
            },
        };
        let body = BlockBody { bytes: b };
        acc.push(body);
        pos = j;
        proof {
            let dv = data@;
            if sp_parse_items(dv, j as int) is Some {
                let rest = sp_parse_items(dv, j as int)->Some_0;
                assert(body_views(old_acc) + (seq![body@] + rest) =~= body_views(
                    old_acc.push(body),
                ) + rest);
            }
        }
    }
    proof {
        assert(sp_parse_items(data@, pos as int) == Some(Seq::<Seq<u8>>::empty()));
        assert(body_views(acc@) + Seq::<Seq<u8>>::empty() =~= body_views(acc@));
    }
    Ok(acc)
}

} // verus!
