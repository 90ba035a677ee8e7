//! General properties of the decoder, stated over the specification functions
//! and proved once for every input.

use vstd::prelude::*;
use crate::decode::{rem, sd_compound, sd_list_elems, sd_named, sd_payload, sd_root, MAX_DEPTH};
use crate::prim::{be_u16, be_u32, i32_from_bits, sp_byte_array, sp_bytes, sp_str, sp_u16, sp_u8};
use crate::tag::{tag_id, NamedV, NbtError, TagV};

verus! {

/// A list with element count 0 decodes to the empty sequence regardless of
/// the declared element type id `eid`, consuming exactly 5 bytes: the 1-byte
/// element type id and the 4-byte count.
pub proof fn lemma_empty_list_decodes(s: Seq<u8>, p: nat, eid: u8, depth: nat)
    requires
        depth > 0,
        p + 5 <= s.len(),
        s[p as int] == eid,
        s[p as int + 1] == 0,
        s[p as int + 2] == 0,
        s[p as int + 3] == 0,
        s[p as int + 4] == 0,
    ensures
        sd_payload(s, p, 9, depth) == Ok::<(TagV, nat), NbtError>((TagV::List(Seq::empty()), 5)),
{
    assert(be_u32(0, 0, 0, 0) == 0);
    assert(sd_list_elems(s, (p + 5) as nat, eid, 0, (depth - 1) as nat) == Ok::<
        (Seq<TagV>, nat),
        NbtError,
    >((Seq::empty(), 0)));
}

/// A compound whose body starts with the End byte holds zero substantive
/// tags: it decodes to the empty sequence, consuming only that terminator.
pub proof fn lemma_empty_compound_decodes(s: Seq<u8>, p: nat, depth: nat)
    requires
        depth > 0,
        p + 1 <= s.len(),
        s[p as int] == 0,
    ensures
        sd_payload(s, p, 10, depth) == Ok::<(TagV, nat), NbtError>(
            (TagV::Compound(Seq::empty()), 1),
        ),
{
}

/// Dispatching on any type id outside 0 through 10 fails with
/// `UnknownTagType` carrying exactly that id, whatever the input bytes.
pub proof fn lemma_unknown_tag_type(s: Seq<u8>, p: nat, id: u8, depth: nat)
    requires
        id > 10,
    ensures
        sd_payload(s, p, id, depth) == Err::<(TagV, nat), NbtError>(NbtError::UnknownTagType(id)),
{
}

/// A named tag whose type-id byte is outside 0 through 10 fails with
/// `UnknownTagType` carrying that byte.
pub proof fn lemma_unknown_named_tag_type(s: Seq<u8>, p: nat, depth: nat)
    requires
        p + 1 <= s.len(),
        s[p as int] > 10,
    ensures
        sd_named(s, p, depth) == Err::<(NamedV, nat), NbtError>(
            NbtError::UnknownTagType(s[p as int]),
        ),
{
}

/// Dispatch is faithful: a successfully decoded payload is of the variant
/// its type id names, at every dispatch site alike.
pub proof fn lemma_payload_variant(s: Seq<u8>, p: nat, id: u8, depth: nat)
    requires
        sd_payload(s, p, id, depth) is Ok,
    ensures
        tag_id(sd_payload(s, p, id, depth)->Ok_0.0) == id,
{
}

/// Every element of a decoded list carries the type id the list declared:
/// decoded lists are homogeneous.
pub proof fn lemma_list_homogeneous(s: Seq<u8>, p: nat, id: u8, n: nat, depth: nat)
    requires
        sd_list_elems(s, p, id, n, depth) is Ok,
    ensures
        forall|j: int|
            0 <= j < sd_list_elems(s, p, id, n, depth)->Ok_0.0.len() ==> tag_id(
                #[trigger] sd_list_elems(s, p, id, n, depth)->Ok_0.0[j],
            ) == id,
    decreases n,
{
    if n > 0 {
        lemma_payload_variant(s, p, id, depth);
        let c = sd_payload(s, p, id, depth)->Ok_0.1;
        lemma_list_homogeneous(s, (p + c) as nat, id, (n - 1) as nat, depth);
    }
}

/// A decoded compound holds only substantive tags: the terminating `End` is
/// consumed, never stored, so no stored entry has `End` content.
pub proof fn lemma_compound_substantive(s: Seq<u8>, p: nat, depth: nat)
    requires
        sd_compound(s, p, depth) is Ok,
    ensures
        forall|j: int|
            0 <= j < sd_compound(s, p, depth)->Ok_0.0.len() ==> tag_id(
                (#[trigger] sd_compound(s, p, depth)->Ok_0.0[j]).content,
            ) != 0,
    decreases crate::decode::rem(s, p),
{
    let nts = sd_compound(s, p, depth)->Ok_0.0;
    if nts.len() > 0 {
        let id = sp_u8(s, p)->Ok_0;
        let c1 = sp_str(s, (p + 1) as nat)->Ok_0.1;
        lemma_payload_variant(s, (p + 1 + c1) as nat, id, depth);
        let c2 = sd_payload(s, (p + 1 + c1) as nat, id, depth)->Ok_0.1;
        lemma_compound_substantive(s, (p + 1 + c1 + c2) as nat, depth);
    }
}

/// A successful decode consumes bytes within the input: the position plus
/// the consumed count stays inside the buffer, except for the `End` payload,
/// which consumes nothing wherever it stands.
proof fn lemma_payload_within(s: Seq<u8>, p: nat, id: u8, depth: nat)
    requires
        sd_payload(s, p, id, depth) is Ok,
    ensures
        p + sd_payload(s, p, id, depth)->Ok_0.1 <= s.len() || sd_payload(
            s,
            p,
            id,
            depth,
        )->Ok_0.1 == 0,
    decreases depth, 1nat, 0nat,
{
    if id == 9 {
        let elem_id = sp_u8(s, p)->Ok_0;
        let bits = crate::prim::sp_u32(s, p + 1)->Ok_0;
        let n = i32_from_bits(bits);
        lemma_elems_within(s, (p + 5) as nat, elem_id, n as nat, (depth - 1) as nat);
    } else if id == 10 {
        lemma_compound_within(s, p, (depth - 1) as nat);
    }
}

proof fn lemma_elems_within(s: Seq<u8>, p: nat, id: u8, n: nat, depth: nat)
    requires
        sd_list_elems(s, p, id, n, depth) is Ok,
    ensures
        p + sd_list_elems(s, p, id, n, depth)->Ok_0.1 <= s.len() || sd_list_elems(
            s,
            p,
            id,
            n,
            depth,
        )->Ok_0.1 == 0,
    decreases depth, 2nat, n,
{
    if n > 0 {
        let c0 = sd_payload(s, p, id, depth)->Ok_0.1;
        lemma_payload_within(s, p, id, depth);
        lemma_elems_within(s, (p + c0) as nat, id, (n - 1) as nat, depth);
    }
}

proof fn lemma_compound_within(s: Seq<u8>, p: nat, depth: nat)
    requires
        sd_compound(s, p, depth) is Ok,
    ensures
        p + sd_compound(s, p, depth)->Ok_0.1 <= s.len(),
    decreases depth, 3nat, rem(s, p),
{
    let id = sp_u8(s, p)->Ok_0;
    if id != 0 {
        let c1 = sp_str(s, (p + 1) as nat)->Ok_0.1;
        lemma_payload_within(s, (p + 1 + c1) as nat, id, depth);
        let c2 = sd_payload(s, (p + 1 + c1) as nat, id, depth)->Ok_0.1;
        lemma_compound_within(s, (p + 1 + c1 + c2) as nat, depth);
    }
}

/// A substantive payload consumes at least one byte.
proof fn lemma_payload_consumes(s: Seq<u8>, p: nat, id: u8, depth: nat)
    requires
        sd_payload(s, p, id, depth) is Ok,
        1 <= id <= 10,
    ensures
        sd_payload(s, p, id, depth)->Ok_0.1 >= 1,
{
}

/// Substantive list elements consume at least one byte each.
proof fn lemma_elems_consume(s: Seq<u8>, p: nat, id: u8, n: nat, depth: nat)
    requires
        sd_list_elems(s, p, id, n, depth) is Ok,
        1 <= id <= 10,
    ensures
        sd_list_elems(s, p, id, n, depth)->Ok_0.1 >= n,
    decreases n,
{
    if n > 0 {
        lemma_payload_consumes(s, p, id, depth);
        let c0 = sd_payload(s, p, id, depth)->Ok_0.1;
        lemma_elems_consume(s, (p + c0) as nat, id, (n - 1) as nat, depth);
    }
}

/// Equal regions restrict to equal sub-regions.
proof fn lemma_region_eq(s1: Seq<u8>, s2: Seq<u8>, p: nat, c: nat, q: nat, d: nat)
    requires
        p + c <= s1.len(),
        p + c <= s2.len(),
        s2.subrange(p as int, (p + c) as int) == s1.subrange(p as int, (p + c) as int),
        p <= q,
        q + d <= p + c,
    ensures
        s2.subrange(q as int, (q + d) as int) == s1.subrange(q as int, (q + d) as int),
        forall|i: int| p <= i < p + c ==> s2[i] == s1[i],
{
    assert forall|i: int| p <= i < p + c implies s2[i] == s1[i] by {
        assert(s2.subrange(p as int, (p + c) as int)[i - p] == s2[i]);
        assert(s1.subrange(p as int, (p + c) as int)[i - p] == s1[i]);
    }
    assert(s2.subrange(q as int, (q + d) as int) =~= s1.subrange(q as int, (q + d) as int));
}

proof fn lemma_sp_str_stable(s1: Seq<u8>, s2: Seq<u8>, p: nat)
    requires
        sp_str(s1, p) is Ok,
        p + sp_str(s1, p)->Ok_0.1 <= s2.len(),
        s2.subrange(p as int, (p + sp_str(s1, p)->Ok_0.1) as int) == s1.subrange(
            p as int,
            (p + sp_str(s1, p)->Ok_0.1) as int,
        ),
    ensures
        sp_str(s2, p) == sp_str(s1, p),
{
    let c = sp_str(s1, p)->Ok_0.1;
    let m = sp_u16(s1, p)->Ok_0;
    lemma_region_eq(s1, s2, p, c, p, c);
    assert(sp_u16(s2, p) == sp_u16(s1, p));
    assert(sp_bytes(s2, p + 2, m as nat)->Ok_0 =~= sp_bytes(s1, p + 2, m as nat)->Ok_0);
}

/// Decoding a payload depends only on the bytes it consumes: any input that
/// agrees on that region decodes to the same result.
pub proof fn lemma_payload_prefix_stable(s1: Seq<u8>, s2: Seq<u8>, p: nat, id: u8, depth: nat)
    requires
        sd_payload(s1, p, id, depth) is Ok,
        p + sd_payload(s1, p, id, depth)->Ok_0.1 <= s2.len(),
        s2.subrange(p as int, (p + sd_payload(s1, p, id, depth)->Ok_0.1) as int) == s1.subrange(
            p as int,
            (p + sd_payload(s1, p, id, depth)->Ok_0.1) as int,
        ),
    ensures
        sd_payload(s2, p, id, depth) == sd_payload(s1, p, id, depth),
    decreases depth, 1nat, 0nat,
{
    let c = sd_payload(s1, p, id, depth)->Ok_0.1;
    lemma_payload_within(s1, p, id, depth);
    if id == 0 {
    } else {
        lemma_payload_consumes(s1, p, id, depth);
        lemma_region_eq(s1, s2, p, c, p, c);
        if id == 4 || id == 6 {
            assert(s2.subrange(p as int, p as int + 8) =~= s1.subrange(p as int, p as int + 8));
        } else if id == 7 {
            let bits = crate::prim::sp_u32(s1, p)->Ok_0;
            let n = i32_from_bits(bits);
            assert(sp_bytes(s2, p + 4, n as nat)->Ok_0 =~= sp_bytes(s1, p + 4, n as nat)->Ok_0);
        } else if id == 8 {
            lemma_sp_str_stable(s1, s2, p);
        } else if id == 9 {
            let elem_id = sp_u8(s1, p)->Ok_0;
            let bits = crate::prim::sp_u32(s1, p + 1)->Ok_0;
            let n = i32_from_bits(bits);
            let inner = sd_list_elems(s1, (p + 5) as nat, elem_id, n as nat, (depth - 1) as nat);
            let cc = inner->Ok_0.1;
            lemma_elems_within(s1, (p + 5) as nat, elem_id, n as nat, (depth - 1) as nat);
            if 1 <= elem_id <= 10 {
                lemma_elems_consume(s1, (p + 5) as nat, elem_id, n as nat, (depth - 1) as nat);
                assert(rem(s2, (p + 5) as nat) >= cc >= n);
            }
            lemma_region_eq(s1, s2, p, c, (p + 5) as nat, cc);
            lemma_elems_prefix_stable(
                s1,
                s2,
                (p + 5) as nat,
                elem_id,
                n as nat,
                (depth - 1) as nat,
            );
        } else if id == 10 {
            lemma_compound_prefix_stable(s1, s2, p, (depth - 1) as nat);
        }
    }
}

/// Decoding a run of list elements depends only on the bytes it consumes.
pub proof fn lemma_elems_prefix_stable(
    s1: Seq<u8>,
    s2: Seq<u8>,
    p: nat,
    id: u8,
    n: nat,
    depth: nat,
)
    requires
        sd_list_elems(s1, p, id, n, depth) is Ok,
        p + sd_list_elems(s1, p, id, n, depth)->Ok_0.1 <= s2.len(),
        s2.subrange(p as int, (p + sd_list_elems(s1, p, id, n, depth)->Ok_0.1) as int)
            == s1.subrange(p as int, (p + sd_list_elems(s1, p, id, n, depth)->Ok_0.1) as int),
    ensures
        sd_list_elems(s2, p, id, n, depth) == sd_list_elems(s1, p, id, n, depth),
    decreases depth, 2nat, n,
{
    if n > 0 {
        let cc = sd_list_elems(s1, p, id, n, depth)->Ok_0.1;
        let c0 = sd_payload(s1, p, id, depth)->Ok_0.1;
        lemma_payload_within(s1, p, id, depth);
        lemma_elems_within(s1, (p + c0) as nat, id, (n - 1) as nat, depth);
        if cc > 0 {
            lemma_region_eq(s1, s2, p, cc, p, c0);
            lemma_region_eq(s1, s2, p, cc, (p + c0) as nat, (cc - c0) as nat);
        }
        lemma_payload_prefix_stable(s1, s2, p, id, depth);
        lemma_elems_prefix_stable(s1, s2, (p + c0) as nat, id, (n - 1) as nat, depth);
    }
}

/// Decoding a compound body depends only on the bytes it consumes.
pub proof fn lemma_compound_prefix_stable(s1: Seq<u8>, s2: Seq<u8>, p: nat, depth: nat)
    requires
        sd_compound(s1, p, depth) is Ok,
        p + sd_compound(s1, p, depth)->Ok_0.1 <= s2.len(),
        s2.subrange(p as int, (p + sd_compound(s1, p, depth)->Ok_0.1) as int) == s1.subrange(
            p as int,
            (p + sd_compound(s1, p, depth)->Ok_0.1) as int,
        ),
    ensures
        sd_compound(s2, p, depth) == sd_compound(s1, p, depth),
    decreases depth, 3nat, rem(s1, p),
{
    let c = sd_compound(s1, p, depth)->Ok_0.1;
    lemma_compound_within(s1, p, depth);
    lemma_region_eq(s1, s2, p, c, p, c);
    let id = sp_u8(s1, p)->Ok_0;
    if id != 0 {
        let c1 = sp_str(s1, (p + 1) as nat)->Ok_0.1;
        lemma_region_eq(s1, s2, p, c, (p + 1) as nat, c1);
        lemma_sp_str_stable(s1, s2, (p + 1) as nat);
        let c2 = sd_payload(s1, (p + 1 + c1) as nat, id, depth)->Ok_0.1;
        lemma_region_eq(s1, s2, p, c, (p + 1 + c1) as nat, c2);
        lemma_payload_prefix_stable(s1, s2, (p + 1 + c1) as nat, id, depth);
        let c3 = sd_compound(s1, (p + 1 + c1 + c2) as nat, depth)->Ok_0.1;
        lemma_region_eq(s1, s2, p, c, (p + 1 + c1 + c2) as nat, c3);
        lemma_compound_prefix_stable(s1, s2, (p + 1 + c1 + c2) as nat, depth);
    }
}

/// Bytes after the root tag are ignored: whenever decoding succeeds
/// consuming `c` bytes, any input that carries the same `c` bytes at the
/// start — whatever follows them, or nothing at all — decodes to the same
/// tree.
pub proof fn lemma_trailing_bytes_ignored(s1: Seq<u8>, s2: Seq<u8>)
    requires
        sd_named(s1, 0, MAX_DEPTH as nat) is Ok,
        sd_named(s1, 0, MAX_DEPTH as nat)->Ok_0.1 <= s2.len(),
        s2.subrange(0, sd_named(s1, 0, MAX_DEPTH as nat)->Ok_0.1 as int) == s1.subrange(
            0,
            sd_named(s1, 0, MAX_DEPTH as nat)->Ok_0.1 as int,
        ),
    ensures
        sd_named(s2, 0, MAX_DEPTH as nat) == sd_named(s1, 0, MAX_DEPTH as nat),
        sd_root(s2) == sd_root(s1),
{
    let depth = MAX_DEPTH as nat;
    let c = sd_named(s1, 0, depth)->Ok_0.1;
    let id = sp_u8(s1, 0)->Ok_0;
    if id != 0 {
        let c1 = sp_str(s1, 1)->Ok_0.1;
        let c2 = sd_payload(s1, (1 + c1) as nat, id, depth)->Ok_0.1;
        lemma_payload_within(s1, (1 + c1) as nat, id, depth);
        lemma_region_eq(s1, s2, 0, c, 1, c1);
        lemma_sp_str_stable(s1, s2, 1);
        lemma_region_eq(s1, s2, 0, c, (1 + c1) as nat, c2);
        lemma_payload_prefix_stable(s1, s2, (1 + c1) as nat, id, depth);
    } else {
        lemma_region_eq(s1, s2, 0, c, 0, 1);
    }
}

/// A string whose declared length exceeds the bytes that remain fails with
/// `TruncatedInput`: there is no successful short read.
pub proof fn lemma_truncated_string(s: Seq<u8>, p: nat)
    requires
        p + 2 <= s.len(),
        p + 2 + be_u16(s[p as int], s[p as int + 1]) > s.len(),
    ensures
        sp_str(s, p) == Err::<(Seq<char>, nat), NbtError>(NbtError::TruncatedInput),
{
}

/// A byte array whose declared length is negative fails with `InvalidLength`
/// whatever follows: only the four length bytes need to be present, so no
/// byte of the contents is ever read.
pub proof fn lemma_negative_byte_array_length(s: Seq<u8>, p: nat)
    requires
        p + 4 <= s.len(),
        i32_from_bits(
            be_u32(s[p as int], s[p as int + 1], s[p as int + 2], s[p as int + 3]),
        ) < 0,
    ensures
        sp_byte_array(s, p) == Err::<(Seq<i8>, nat), NbtError>(NbtError::InvalidLength),
{
}

} // verus!
