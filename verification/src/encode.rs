//! The canonical encoding of the data model, and the round-trip law: the
//! decoder, applied to the canonical encoding of any well-formed tree,
//! returns exactly that tree. Encoding is specification only — the library
//! does not serialize — but the law pins the decoder to the format.

use vstd::prelude::*;
use vstd::utf8::{decode_utf8_encode_utf8, encode_utf8, encode_utf8_decode_utf8, encode_utf8_valid_utf8};
use crate::decode::{
    rem, sd_compound, sd_list_elems, sd_named, sd_payload, sd_root, MAX_DEPTH, MAX_END_LIST,
};
use crate::laws::{lemma_list_homogeneous, lemma_payload_variant};
use crate::prim::{
    be_u16, be_u32, be_u64, i32_from_bits, i8_from_bits, sp_byte_array, sp_bytes, sp_str, sp_u16,
    sp_u8,
};
use crate::tag::{tag_id, NamedV, NbtError, TagV};

verus! {

broadcast use vstd::seq::group_seq_axioms;

/// The bit pattern of an 8-bit signed integer.
pub open spec fn bits_of_i8(v: i8) -> u8 {
    if v >= 0 {
        v as u8
    } else {
        (v + 0x100) as u8
    }
}

/// The bit pattern of a 16-bit signed integer.
pub open spec fn bits_of_i16(v: i16) -> u16 {
    if v >= 0 {
        v as u16
    } else {
        (v + 0x10000) as u16
    }
}

/// The bit pattern of a 32-bit signed integer.
pub open spec fn bits_of_i32(v: i32) -> u32 {
    if v >= 0 {
        v as u32
    } else {
        (v + 0x100000000) as u32
    }
}

/// The bit pattern of a 64-bit signed integer.
pub open spec fn bits_of_i64(v: i64) -> u64 {
    if v >= 0 {
        v as u64
    } else {
        (v + 0x10000000000000000) as u64
    }
}

/// The two big-endian bytes of a 16-bit value.
pub open spec fn be2(v: u16) -> Seq<u8> {
    seq![(v / 0x100) as u8, (v % 0x100) as u8]
}

/// The four big-endian bytes of a 32-bit value.
pub open spec fn be4(v: u32) -> Seq<u8> {
    be2((v / 0x10000) as u16) + be2((v % 0x10000) as u16)
}

/// The eight big-endian bytes of a 64-bit value.
pub open spec fn be8(v: u64) -> Seq<u8> {
    be4((v / 0x100000000) as u32) + be4((v % 0x100000000) as u32)
}

/// The element type id a list declares: that of its elements, or `End` for
/// an empty list.
pub open spec fn list_elem_id(ts: Seq<TagV>) -> u8 {
    if ts.len() == 0 {
        0
    } else {
        tag_id(ts[0])
    }
}

/// The canonical encoding of one payload.
pub open spec fn enc_payload(t: TagV) -> Seq<u8>
    decreases t, 0nat,
{
    match t {
        TagV::End => Seq::empty(),
        TagV::Byte(v) => seq![bits_of_i8(v)],
        TagV::Short(v) => be2(bits_of_i16(v)),
        TagV::Int(v) => be4(bits_of_i32(v)),
        TagV::Long(v) => be8(bits_of_i64(v)),
        TagV::Float(b) => be4(b),
        TagV::Double(b) => be8(b),
        TagV::ByteArray(bs) => be4(bs.len() as u32) + bs.map_values(|v: i8| bits_of_i8(v)),
        TagV::Str(cs) => be2(encode_utf8(cs).len() as u16) + encode_utf8(cs),
        TagV::List(ts) => seq![list_elem_id(ts)] + be4(ts.len() as u32) + enc_elems(ts, 0),
        TagV::Compound(nts) => enc_entries(nts, 0) + seq![0u8],
    }
}

/// The canonical encoding of a list's elements, from index `i` on.
pub open spec fn enc_elems(ts: Seq<TagV>, i: int) -> Seq<u8>
    decreases ts, ts.len() - i,
{
    if 0 <= i < ts.len() {
        enc_payload(ts[i]) + enc_elems(ts, i + 1)
    } else {
        Seq::empty()
    }
}

/// The canonical encoding of one named tag: type id, length-prefixed name,
/// payload.
pub open spec fn enc_named(nt: NamedV) -> Seq<u8>
    decreases nt, 1nat,
{
    seq![tag_id(nt.content)] + be2(encode_utf8(nt.name).len() as u16) + encode_utf8(nt.name)
        + enc_payload(nt.content)
}

/// The canonical encoding of a compound's substantive entries, from index
/// `i` on; the terminator byte is not included.
pub open spec fn enc_entries(nts: Seq<NamedV>, i: int) -> Seq<u8>
    decreases nts, nts.len() - i,
{
    if 0 <= i < nts.len() {
        enc_named(nts[i]) + enc_entries(nts, i + 1)
    } else {
        Seq::empty()
    }
}

/// A payload the format can represent within nesting budget `depth`: lengths
/// fit their wire fields, lists are homogeneous, and a list of `End`
/// sentinels — whose elements occupy no bytes — stays within `MAX_END_LIST`.
pub open spec fn wf_payload(t: TagV, depth: nat) -> bool
    decreases t, 0nat,
{
    match t {
        TagV::End => true,
        TagV::Byte(_) => true,
        TagV::Short(_) => true,
        TagV::Int(_) => true,
        TagV::Long(_) => true,
        TagV::Float(_) => true,
        TagV::Double(_) => true,
        TagV::ByteArray(bs) => bs.len() <= 0x7FFFFFFF,
        TagV::Str(cs) => encode_utf8(cs).len() <= 0xFFFF,
        TagV::List(ts) => depth > 0 && ts.len() <= 0x7FFFFFFF && (forall|j: int|
            0 <= j < ts.len() ==> tag_id(#[trigger] ts[j]) == list_elem_id(ts)) && (list_elem_id(
            ts,
        ) == 0 ==> ts.len() <= MAX_END_LIST) && wf_elems(ts, 0, (depth - 1) as nat),
        TagV::Compound(nts) => depth > 0 && wf_entries(nts, 0, (depth - 1) as nat),
    }
}

/// Elements from index `i` on are well-formed.
pub open spec fn wf_elems(ts: Seq<TagV>, i: int, depth: nat) -> bool
    decreases ts, ts.len() - i,
{
    if 0 <= i < ts.len() {
        wf_payload(ts[i], depth) && wf_elems(ts, i + 1, depth)
    } else {
        true
    }
}

/// A named tag the format can represent: substantive content and a name that
/// fits its 16-bit length prefix.
pub open spec fn wf_named(nt: NamedV, depth: nat) -> bool
    decreases nt, 1nat,
{
    &&& tag_id(nt.content) != 0
    &&& encode_utf8(nt.name).len() <= 0xFFFF
    &&& wf_payload(nt.content, depth)
}

/// Entries from index `i` on are well-formed.
pub open spec fn wf_entries(nts: Seq<NamedV>, i: int, depth: nat) -> bool
    decreases nts, nts.len() - i,
{
    if 0 <= i < nts.len() {
        wf_named(nts[i], depth) && wf_entries(nts, i + 1, depth)
    } else {
        true
    }
}

proof fn lemma_be2(v: u16)
    ensures
        be_u16(be2(v)[0], be2(v)[1]) == v,
{
}

proof fn lemma_be4(v: u32)
    ensures
        be_u32(be4(v)[0], be4(v)[1], be4(v)[2], be4(v)[3]) == v,
{
    let hi = (v / 0x10000) as u16;
    let lo = (v % 0x10000) as u16;
    lemma_be2(hi);
    lemma_be2(lo);
    assert(be4(v)[0] == be2(hi)[0] && be4(v)[1] == be2(hi)[1] && be4(v)[2] == be2(lo)[0] && be4(
        v,
    )[3] == be2(lo)[1]);
    assert(be_u32(be4(v)[0], be4(v)[1], be4(v)[2], be4(v)[3]) == be_u16(be2(hi)[0], be2(hi)[1])
        * 0x10000 + be_u16(be2(lo)[0], be2(lo)[1]));
}

proof fn lemma_be8(v: u64)
    ensures
        be_u64(be8(v)) == v,
{
    let hi = (v / 0x100000000) as u32;
    let lo = (v % 0x100000000) as u32;
    lemma_be4(hi);
    lemma_be4(lo);
    let s = be8(v);
    assert(s[0] == be4(hi)[0] && s[1] == be4(hi)[1] && s[2] == be4(hi)[2] && s[3] == be4(hi)[3]);
    assert(s[4] == be4(lo)[0] && s[5] == be4(lo)[1] && s[6] == be4(lo)[2] && s[7] == be4(lo)[3]);
    assert(be_u64(s) == be_u32(s[0], s[1], s[2], s[3]) as int * 0x100000000 + be_u32(
        s[4],
        s[5],
        s[6],
        s[7],
    ) as int);
}

/// A subrange equal to a concatenation splits into subranges equal to the
/// parts.
proof fn lemma_subrange_split(s: Seq<u8>, p: nat, a: Seq<u8>, b: Seq<u8>)
    requires
        p + a.len() + b.len() <= s.len(),
        s.subrange(p as int, (p + a.len() + b.len()) as int) == a + b,
    ensures
        s.subrange(p as int, (p + a.len()) as int) == a,
        s.subrange((p + a.len()) as int, (p + a.len() + b.len()) as int) == b,
{
    let whole = s.subrange(p as int, (p + a.len() + b.len()) as int);
    assert forall|i: int| 0 <= i < a.len() implies s.subrange(p as int, (p + a.len()) as int)[i]
        == a[i] by {
        assert(whole[i] == (a + b)[i]);
    }
    assert(s.subrange(p as int, (p + a.len()) as int) =~= a);
    assert forall|i: int| 0 <= i < b.len() implies s.subrange(
        (p + a.len()) as int,
        (p + a.len() + b.len()) as int,
    )[i] == b[i] by {
        assert(whole[a.len() + i] == (a + b)[a.len() + i]);
        assert((a + b)[a.len() + i] == b[i]);
    }
    assert(s.subrange((p + a.len()) as int, (p + a.len() + b.len()) as int) =~= b);
}

/// Bytes under a subrange equality, one index at a time.
proof fn lemma_subrange_index(s: Seq<u8>, p: nat, e: Seq<u8>)
    requires
        p + e.len() <= s.len(),
        s.subrange(p as int, (p + e.len()) as int) == e,
    ensures
        forall|i: int| 0 <= i < e.len() ==> s[p + i] == #[trigger] e[i],
{
}

/// Every substantive payload occupies at least one byte on the wire.
proof fn lemma_enc_payload_len_min(t: TagV)
    requires
        tag_id(t) != 0,
    ensures
        enc_payload(t).len() >= 1,
{
}

/// Substantive elements occupy at least one byte each.
proof fn lemma_enc_elems_len(ts: Seq<TagV>, i: int)
    requires
        0 <= i <= ts.len(),
        forall|j: int| i <= j < ts.len() ==> tag_id(#[trigger] ts[j]) != 0,
    ensures
        enc_elems(ts, i).len() >= ts.len() - i,
    decreases ts.len() - i,
{
    if i < ts.len() {
        lemma_enc_payload_len_min(ts[i]);
        lemma_enc_elems_len(ts, i + 1);
    }
}

/// Decoding the canonical encoding of a well-formed payload, embedded at
/// position `p` of any longer stream, yields exactly that payload and
/// consumes exactly the encoding.
/// One flat case each — scalars, byte arrays and strings decode from their
/// canonical encodings; none of these makes a recursive call.
proof fn lemma_enc_byte_decodes(s: Seq<u8>, p: nat, t: TagV, depth: nat)
    requires
        wf_payload(t, depth),
        t is Byte,
        p + enc_payload(t).len() <= s.len(),
        s.subrange(p as int, (p + enc_payload(t).len()) as int) == enc_payload(t),
    ensures
        sd_payload(s, p, tag_id(t), depth) == Ok::<(TagV, nat), NbtError>(
            (t, enc_payload(t).len() as nat),
        ),
{
    let e = enc_payload(t);
    lemma_subrange_index(s, p, e);
    assert(s[p as int] == e[0]);
}

proof fn lemma_enc_short_decodes(s: Seq<u8>, p: nat, t: TagV, depth: nat)
    requires
        wf_payload(t, depth),
        t is Short,
        p + enc_payload(t).len() <= s.len(),
        s.subrange(p as int, (p + enc_payload(t).len()) as int) == enc_payload(t),
    ensures
        sd_payload(s, p, tag_id(t), depth) == Ok::<(TagV, nat), NbtError>(
            (t, enc_payload(t).len() as nat),
        ),
{
    let e = enc_payload(t);
    let v = t->Short_0;
    lemma_subrange_index(s, p, e);
    lemma_be2(bits_of_i16(v));
    assert(s[p as int] == e[0] && s[p as int + 1] == e[1]);
    assert(be_u16(s[p as int], s[p as int + 1]) == bits_of_i16(v));
}

#[verifier::rlimit(100)]
#[verifier::spinoff_prover]
proof fn lemma_enc_int_decodes(s: Seq<u8>, p: nat, t: TagV, depth: nat)
    requires
        wf_payload(t, depth),
        t is Int,
        p + enc_payload(t).len() <= s.len(),
        s.subrange(p as int, (p + enc_payload(t).len()) as int) == enc_payload(t),
    ensures
        sd_payload(s, p, tag_id(t), depth) == Ok::<(TagV, nat), NbtError>(
            (t, enc_payload(t).len() as nat),
        ),
{
    let e = enc_payload(t);
    let v = t->Int_0;
    lemma_subrange_index(s, p, e);
    lemma_be4(bits_of_i32(v));
    assert(s[p as int] == e[0] && s[p as int + 1] == e[1] && s[p as int + 2] == e[2] && s[p as int
        + 3] == e[3]);
    assert(be_u32(s[p as int], s[p as int + 1], s[p as int + 2], s[p as int + 3]) == bits_of_i32(
        v,
    ));
    assert(i32_from_bits(bits_of_i32(v)) == v);
}

proof fn lemma_enc_long_decodes(s: Seq<u8>, p: nat, t: TagV, depth: nat)
    requires
        wf_payload(t, depth),
        t is Long,
        p + enc_payload(t).len() <= s.len(),
        s.subrange(p as int, (p + enc_payload(t).len()) as int) == enc_payload(t),
    ensures
        sd_payload(s, p, tag_id(t), depth) == Ok::<(TagV, nat), NbtError>(
            (t, enc_payload(t).len() as nat),
        ),
{
    let e = enc_payload(t);
    lemma_be8(bits_of_i64(t->Long_0));
    assert(s.subrange(p as int, p as int + 8) =~= e);
}

#[verifier::rlimit(100)]
#[verifier::spinoff_prover]
proof fn lemma_enc_float_decodes(s: Seq<u8>, p: nat, t: TagV, depth: nat)
    requires
        wf_payload(t, depth),
        t is Float,
        p + enc_payload(t).len() <= s.len(),
        s.subrange(p as int, (p + enc_payload(t).len()) as int) == enc_payload(t),
    ensures
        sd_payload(s, p, tag_id(t), depth) == Ok::<(TagV, nat), NbtError>(
            (t, enc_payload(t).len() as nat),
        ),
{
    let e = enc_payload(t);
    let b = t->Float_0;
    lemma_subrange_index(s, p, e);
    lemma_be4(b);
    assert(s[p as int] == e[0] && s[p as int + 1] == e[1] && s[p as int + 2] == e[2] && s[p as int
        + 3] == e[3]);
    assert(be_u32(s[p as int], s[p as int + 1], s[p as int + 2], s[p as int + 3]) == b);
}

proof fn lemma_enc_double_decodes(s: Seq<u8>, p: nat, t: TagV, depth: nat)
    requires
        wf_payload(t, depth),
        t is Double,
        p + enc_payload(t).len() <= s.len(),
        s.subrange(p as int, (p + enc_payload(t).len()) as int) == enc_payload(t),
    ensures
        sd_payload(s, p, tag_id(t), depth) == Ok::<(TagV, nat), NbtError>(
            (t, enc_payload(t).len() as nat),
        ),
{
    let e = enc_payload(t);
    lemma_be8(t->Double_0);
    assert(s.subrange(p as int, p as int + 8) =~= e);
}

#[verifier::rlimit(100)]
#[verifier::spinoff_prover]
proof fn lemma_enc_byte_array_decodes(s: Seq<u8>, p: nat, t: TagV, depth: nat)
    requires
        wf_payload(t, depth),
        t is ByteArray,
        p + enc_payload(t).len() <= s.len(),
        s.subrange(p as int, (p + enc_payload(t).len()) as int) == enc_payload(t),
    ensures
        sd_payload(s, p, tag_id(t), depth) == Ok::<(TagV, nat), NbtError>(
            (t, enc_payload(t).len() as nat),
        ),
{
    let bs = t->ByteArray_0;
    let body = bs.map_values(|v: i8| bits_of_i8(v));
    let n = bs.len() as u32;
    lemma_subrange_split(s, p, be4(n), body);
    lemma_subrange_index(s, p, be4(n));
    lemma_be4(n);
    assert(s[p as int] == be4(n)[0] && s[p as int + 1] == be4(n)[1] && s[p as int + 2] == be4(
        n,
    )[2] && s[p as int + 3] == be4(n)[3]);
    assert(be_u32(s[p as int], s[p as int + 1], s[p as int + 2], s[p as int + 3]) == n);
    assert(i32_from_bits(n) == bs.len());
    let raw = s.subrange((p + 4) as int, (p + 4 + bs.len()) as int);
    assert(raw == body);
    assert(raw.map_values(|b: u8| i8_from_bits(b)) =~= bs);
}

proof fn lemma_enc_str_decodes(s: Seq<u8>, p: nat, t: TagV, depth: nat)
    requires
        wf_payload(t, depth),
        t is Str,
        p + enc_payload(t).len() <= s.len(),
        s.subrange(p as int, (p + enc_payload(t).len()) as int) == enc_payload(t),
    ensures
        sd_payload(s, p, tag_id(t), depth) == Ok::<(TagV, nat), NbtError>(
            (t, enc_payload(t).len() as nat),
        ),
{
    let cs = t->Str_0;
    let body = encode_utf8(cs);
    let m = body.len() as u16;
    lemma_subrange_split(s, p, be2(m), body);
    lemma_subrange_index(s, p, be2(m));
    lemma_be2(m);
    assert(s[p as int] == be2(m)[0] && s[p as int + 1] == be2(m)[1]);
    assert(be_u16(s[p as int], s[p as int + 1]) == m);
    let raw = s.subrange((p + 2) as int, (p + 2 + body.len()) as int);
    assert(raw == body);
    encode_utf8_valid_utf8(cs);
    encode_utf8_decode_utf8(cs);
}

#[verifier::rlimit(50)]
pub proof fn lemma_enc_payload_decodes(s: Seq<u8>, p: nat, t: TagV, depth: nat)
    requires
        wf_payload(t, depth),
        p + enc_payload(t).len() <= s.len(),
        s.subrange(p as int, (p + enc_payload(t).len()) as int) == enc_payload(t),
    ensures
        sd_payload(s, p, tag_id(t), depth) == Ok::<(TagV, nat), NbtError>(
            (t, enc_payload(t).len() as nat),
        ),
    decreases t, 0nat,
{
    let e = enc_payload(t);
    match t {
        TagV::End => {},
        TagV::List(ts) => {
            let eid = list_elem_id(ts);
            let n = ts.len() as u32;
            let head = seq![eid] + be4(n);
            let body = enc_elems(ts, 0);
            assert(e == head + body);
            lemma_subrange_split(s, p, head, body);
            lemma_subrange_index(s, p, head);
            assert(s[p as int] == head[0] && s[p as int + 1] == head[1] && s[p as int + 2]
                == head[2] && s[p as int + 3] == head[3] && s[p as int + 4] == head[4]);
            assert(s[p as int] == eid);
            lemma_be4(n);
            assert(be_u32(s[p as int + 1], s[p as int + 2], s[p as int + 3], s[p as int + 4])
                == n);
            assert(i32_from_bits(n) == ts.len());
            if eid != 0 {
                assert(forall|j: int| 0 <= j < ts.len() ==> tag_id(#[trigger] ts[j]) != 0);
                lemma_enc_elems_len(ts, 0);
                assert(rem(s, (p + 5) as nat) >= body.len() >= ts.len());
                assert(eid <= 10);
            }
            lemma_enc_elems_decode(s, (p + 5) as nat, ts, 0, eid, (depth - 1) as nat);
            assert(ts.skip(0) =~= ts);
        },
        TagV::Compound(nts) => {
            let body = enc_entries(nts, 0);
            assert(e == body + seq![0u8]);
            lemma_subrange_split(s, p, body, seq![0u8]);
            lemma_subrange_index(s, (p + body.len()) as nat, seq![0u8]);
            assert(s[(p + body.len()) as int] == seq![0u8][0]);
            lemma_enc_entries_decode(s, p, nts, 0, (depth - 1) as nat);
            assert(nts.skip(0) =~= nts);
        },
        TagV::Byte(_) => {
            lemma_enc_byte_decodes(s, p, t, depth);
        },
        TagV::Short(_) => {
            lemma_enc_short_decodes(s, p, t, depth);
        },
        TagV::Int(_) => {
            lemma_enc_int_decodes(s, p, t, depth);
        },
        TagV::Long(_) => {
            lemma_enc_long_decodes(s, p, t, depth);
        },
        TagV::Float(_) => {
            lemma_enc_float_decodes(s, p, t, depth);
        },
        TagV::Double(_) => {
            lemma_enc_double_decodes(s, p, t, depth);
        },
        TagV::ByteArray(_) => {
            lemma_enc_byte_array_decodes(s, p, t, depth);
        },
        TagV::Str(_) => {
            lemma_enc_str_decodes(s, p, t, depth);
        },
    }
}

/// Decoding the canonical encodings of elements `i` on of a well-formed,
/// homogeneous list yields exactly those elements.
pub proof fn lemma_enc_elems_decode(s: Seq<u8>, p: nat, ts: Seq<TagV>, i: int, eid: u8, depth: nat)
    requires
        0 <= i <= ts.len(),
        wf_elems(ts, i, depth),
        forall|j: int| i <= j < ts.len() ==> tag_id(#[trigger] ts[j]) == eid,
        p + enc_elems(ts, i).len() <= s.len(),
        s.subrange(p as int, (p + enc_elems(ts, i).len()) as int) == enc_elems(ts, i),
    ensures
        sd_list_elems(s, p, eid, (ts.len() - i) as nat, depth) == Ok::<(Seq<TagV>, nat), NbtError>(
            (ts.skip(i), enc_elems(ts, i).len() as nat),
        ),
    decreases ts, ts.len() - i,
{
    if i == ts.len() {
        assert(ts.skip(i) =~= Seq::<TagV>::empty());
    } else {
        let a = enc_payload(ts[i]);
        let b = enc_elems(ts, i + 1);
        assert(enc_elems(ts, i) == a + b);
        lemma_subrange_split(s, p, a, b);
        lemma_enc_payload_decodes(s, p, ts[i], depth);
        lemma_enc_elems_decode(s, (p + a.len()) as nat, ts, i + 1, eid, depth);
        assert(seq![ts[i]] + ts.skip(i + 1) =~= ts.skip(i));
    }
}

/// Decoding the canonical encodings of entries `i` on of a well-formed
/// compound body, followed by the terminator byte, yields exactly those
/// entries and consumes the terminator.
#[verifier::rlimit(100)]
#[verifier::spinoff_prover]
pub proof fn lemma_enc_entries_decode(s: Seq<u8>, p: nat, nts: Seq<NamedV>, i: int, depth: nat)
    requires
        0 <= i <= nts.len(),
        wf_entries(nts, i, depth),
        p + enc_entries(nts, i).len() + 1 <= s.len(),
        s.subrange(p as int, (p + enc_entries(nts, i).len()) as int) == enc_entries(nts, i),
        s[(p + enc_entries(nts, i).len()) as int] == 0,
    ensures
        sd_compound(s, p, depth) == Ok::<(Seq<NamedV>, nat), NbtError>(
            (nts.skip(i), (enc_entries(nts, i).len() + 1) as nat),
        ),
    decreases nts, nts.len() - i,
{
    if i == nts.len() {
        assert(nts.skip(i) =~= Seq::<NamedV>::empty());
    } else {
        let nt = nts[i];
        let a = enc_named(nt);
        let b = enc_entries(nts, i + 1);
        assert(enc_entries(nts, i) == a + b);
        lemma_subrange_split(s, p, a, b);
        let id = tag_id(nt.content);
        let nm = encode_utf8(nt.name);
        let m = nm.len() as u16;
        let pay = enc_payload(nt.content);
        assert(a == ((seq![id] + be2(m)) + nm) + pay);
        lemma_subrange_split(s, p, (seq![id] + be2(m)) + nm, pay);
        lemma_subrange_split(s, p, seq![id] + be2(m), nm);
        lemma_subrange_split(s, p, seq![id], be2(m));
        lemma_subrange_index(s, p, seq![id] + be2(m));
        assert(s[p as int] == (seq![id] + be2(m))[0] && s[p as int + 1] == (seq![id] + be2(m))[1]
            && s[p as int + 2] == (seq![id] + be2(m))[2]);
        assert(s[p as int] == id);
        assert(id <= 10);
        lemma_be2(m);
        assert(be_u16(s[p as int + 1], s[p as int + 2]) == m);
        assert(s.subrange((p + 3) as int, (p + 3 + nm.len()) as int) == nm);
        encode_utf8_valid_utf8(nt.name);
        encode_utf8_decode_utf8(nt.name);
        assert(wf_named(nt, depth));
        assert(wf_payload(nt.content, depth));
        assert(s.subrange((p + 3 + nm.len()) as int, (p + 3 + nm.len() + pay.len()) as int)
            == pay);
        assert(decreases_to!(nts => nts[i]));
        assert(decreases_to!(nts[i] => nts[i].content));
        lemma_enc_payload_decodes(s, (p + 3 + nm.len()) as nat, nt.content, depth);
        lemma_enc_entries_decode(s, (p + a.len()) as nat, nts, i + 1, depth);
        assert(NamedV { name: nt.name, content: nt.content } == nt);
        assert(seq![nt] + nts.skip(i + 1) =~= nts.skip(i));
    }
}

/// Decoding the canonical encoding of a well-formed named tag, embedded at
/// position `p` of any longer stream, yields exactly that named tag.
pub proof fn lemma_enc_named_decodes(s: Seq<u8>, p: nat, nt: NamedV, depth: nat)
    requires
        wf_named(nt, depth),
        p + enc_named(nt).len() <= s.len(),
        s.subrange(p as int, (p + enc_named(nt).len()) as int) == enc_named(nt),
    ensures
        sd_named(s, p, depth) == Ok::<(NamedV, nat), NbtError>(
            (nt, enc_named(nt).len() as nat),
        ),
    decreases nt, 2nat,
{
    let id = tag_id(nt.content);
    let nm = encode_utf8(nt.name);
    let m = nm.len() as u16;
    let pay = enc_payload(nt.content);
    let a = enc_named(nt);
    assert(a == ((seq![id] + be2(m)) + nm) + pay);
    lemma_subrange_split(s, p, (seq![id] + be2(m)) + nm, pay);
    lemma_subrange_split(s, p, seq![id] + be2(m), nm);
    lemma_subrange_split(s, p, seq![id], be2(m));
    lemma_subrange_index(s, p, seq![id] + be2(m));
    assert(s[p as int] == (seq![id] + be2(m))[0] && s[p as int + 1] == (seq![id] + be2(m))[1] && s[
        p as int + 2] == (seq![id] + be2(m))[2]);
    assert(s[p as int] == id);
    assert(id <= 10);
    lemma_be2(m);
    assert(be_u16(s[p as int + 1], s[p as int + 2]) == m);
    assert(s.subrange((p + 3) as int, (p + 3 + nm.len()) as int) == nm);
    encode_utf8_valid_utf8(nt.name);
    encode_utf8_decode_utf8(nt.name);
    lemma_enc_payload_decodes(s, (p + 3 + nm.len()) as nat, nt.content, depth);
    assert(NamedV { name: nt.name, content: nt.content } == nt);
}

/// Round-trip stability: the decoder, applied to the canonical encoding of
/// any well-formed tree, returns exactly that tree. Together with the exact
/// decoder contracts this pins the model to the format: whatever decodes to a
/// tree re-encodes to bytes that decode to the same tree.
pub proof fn lemma_round_trip(nt: NamedV)
    requires
        wf_named(nt, MAX_DEPTH as nat),
    ensures
        sd_root(enc_named(nt)) == Ok::<NamedV, NbtError>(nt),
{
    let s = enc_named(nt);
    assert(s.subrange(0, s.len() as int) =~= s);
    lemma_enc_named_decodes(s, 0, nt, MAX_DEPTH as nat);
}

proof fn lemma_wf_elems_shift(t: TagV, ts: Seq<TagV>, i: int, depth: nat)
    requires
        0 <= i <= ts.len(),
        wf_elems(ts, i, depth),
    ensures
        wf_elems(seq![t] + ts, i + 1, depth),
    decreases ts.len() - i,
{
    if i < ts.len() {
        assert((seq![t] + ts)[i + 1] == ts[i]);
        lemma_wf_elems_shift(t, ts, i + 1, depth);
    }
}

proof fn lemma_wf_entries_shift(nt: NamedV, nts: Seq<NamedV>, i: int, depth: nat)
    requires
        0 <= i <= nts.len(),
        wf_entries(nts, i, depth),
    ensures
        wf_entries(seq![nt] + nts, i + 1, depth),
    decreases nts.len() - i,
{
    if i < nts.len() {
        assert((seq![nt] + nts)[i + 1] == nts[i]);
        lemma_wf_entries_shift(nt, nts, i + 1, depth);
    }
}

proof fn lemma_list_elems_count(s: Seq<u8>, p: nat, id: u8, n: nat, depth: nat)
    requires
        sd_list_elems(s, p, id, n, depth) is Ok,
    ensures
        sd_list_elems(s, p, id, n, depth)->Ok_0.0.len() == n,
    decreases n,
{
    if n > 0 {
        let c = sd_payload(s, p, id, depth)->Ok_0.1;
        lemma_list_elems_count(s, (p + c) as nat, id, (n - 1) as nat, depth);
    }
}

proof fn lemma_decoded_str_fits(s: Seq<u8>, p: nat)
    requires
        sp_str(s, p) is Ok,
    ensures
        encode_utf8(sp_str(s, p)->Ok_0.0).len() <= 0xFFFF,
{
    let m = sp_u16(s, p)->Ok_0;
    let raw = sp_bytes(s, (p + 2) as nat, m as nat)->Ok_0;
    decode_utf8_encode_utf8(raw);
}

/// Every payload the decoder returns is well-formed within the nesting
/// budget it was decoded under.
pub proof fn lemma_decoded_payload_wf(s: Seq<u8>, p: nat, id: u8, depth: nat)
    requires
        sd_payload(s, p, id, depth) is Ok,
    ensures
        wf_payload(sd_payload(s, p, id, depth)->Ok_0.0, depth),
    decreases depth, 1nat, 0nat,
{
    if id == 8 {
        lemma_decoded_str_fits(s, p);
    } else if id == 9 {
        let elem_id = sp_u8(s, p)->Ok_0;
        let inner = sd_list_elems(s, (p + 5) as nat, elem_id, sd_count(s, p), (depth - 1) as nat);
        let ts = inner->Ok_0.0;
        lemma_list_elems_count(s, (p + 5) as nat, elem_id, sd_count(s, p), (depth - 1) as nat);
        lemma_list_homogeneous(s, (p + 5) as nat, elem_id, sd_count(s, p), (depth - 1) as nat);
        lemma_decoded_elems_wf(s, (p + 5) as nat, elem_id, sd_count(s, p), (depth - 1) as nat);
        assert(forall|j: int| 0 <= j < ts.len() ==> tag_id(#[trigger] ts[j]) == elem_id);
        if ts.len() > 0 {
            assert(list_elem_id(ts) == tag_id(ts[0]) == elem_id);
        }
    } else if id == 10 {
        lemma_decoded_compound_wf(s, p, (depth - 1) as nat);
    }
}

/// The declared element count of the list payload at `p`, once the header
/// parsed.
spec fn sd_count(s: Seq<u8>, p: nat) -> nat {
    match crate::prim::sp_u32(s, p + 1) {
        Ok(bits) => i32_from_bits(bits) as nat,
        Err(_) => 0,
    }
}

/// Every element sequence the decoder returns is element-wise well-formed.
pub proof fn lemma_decoded_elems_wf(s: Seq<u8>, p: nat, id: u8, n: nat, depth: nat)
    requires
        sd_list_elems(s, p, id, n, depth) is Ok,
    ensures
        wf_elems(sd_list_elems(s, p, id, n, depth)->Ok_0.0, 0, depth),
    decreases depth, 2nat, n,
{
    if n > 0 {
        let (t, c) = sd_payload(s, p, id, depth)->Ok_0;
        lemma_decoded_payload_wf(s, p, id, depth);
        lemma_decoded_elems_wf(s, (p + c) as nat, id, (n - 1) as nat, depth);
        let ts2 = sd_list_elems(s, (p + c) as nat, id, (n - 1) as nat, depth)->Ok_0.0;
        lemma_wf_elems_shift(t, ts2, 0, depth);
        assert((seq![t] + ts2)[0] == t);
    }
}

/// Every entry sequence the decoder returns is entry-wise well-formed.
pub proof fn lemma_decoded_compound_wf(s: Seq<u8>, p: nat, depth: nat)
    requires
        sd_compound(s, p, depth) is Ok,
    ensures
        wf_entries(sd_compound(s, p, depth)->Ok_0.0, 0, depth),
    decreases depth, 3nat, rem(s, p),
{
    let id = sp_u8(s, p)->Ok_0;
    if id != 0 {
        lemma_decoded_str_fits(s, (p + 1) as nat);
        let (nm, c1) = sp_str(s, (p + 1) as nat)->Ok_0;
        lemma_payload_variant(s, (p + 1 + c1) as nat, id, depth);
        lemma_decoded_payload_wf(s, (p + 1 + c1) as nat, id, depth);
        let (t, c2) = sd_payload(s, (p + 1 + c1) as nat, id, depth)->Ok_0;
        lemma_decoded_compound_wf(s, (p + 1 + c1 + c2) as nat, depth);
        let rest = sd_compound(s, (p + 1 + c1 + c2) as nat, depth)->Ok_0.0;
        let nt = NamedV { name: nm, content: t };
        assert(wf_named(nt, depth));
        lemma_wf_entries_shift(nt, rest, 0, depth);
        assert((seq![nt] + rest)[0] == nt);
    }
}

/// Every named tag the decoder returns with substantive content is
/// well-formed. (The bare `End` root, decoded from a lone zero byte, is the
/// one decodable tree the canonical encoding cannot represent: its encoding
/// would carry a name that the decoder does not read back.)
pub proof fn lemma_decoded_named_wf(s: Seq<u8>, p: nat, depth: nat)
    requires
        sd_named(s, p, depth) is Ok,
        sd_named(s, p, depth)->Ok_0.0.content != TagV::End,
    ensures
        wf_named(sd_named(s, p, depth)->Ok_0.0, depth),
{
    let id = sp_u8(s, p)->Ok_0;
    lemma_decoded_str_fits(s, (p + 1) as nat);
    let c1 = sp_str(s, (p + 1) as nat)->Ok_0.1;
    lemma_payload_variant(s, (p + 1 + c1) as nat, id, depth);
    lemma_decoded_payload_wf(s, (p + 1 + c1) as nat, id, depth);
}

/// The full round trip: a tree decoded from any input — however that input
/// was produced, trailing bytes and all — re-encodes canonically to bytes
/// that decode to the same tree.
pub proof fn lemma_decode_reencode_decode(s: Seq<u8>)
    requires
        sd_root(s) is Ok,
        sd_root(s)->Ok_0.content != TagV::End,
    ensures
        sd_root(enc_named(sd_root(s)->Ok_0)) == Ok::<NamedV, NbtError>(sd_root(s)->Ok_0),
{
    lemma_decoded_named_wf(s, 0, MAX_DEPTH as nat);
    lemma_round_trip(sd_root(s)->Ok_0);
}

} // verus!
