//! The tag dispatcher and the composite decoders.
//!
//! `sd_payload`, `sd_list_elems`, `sd_named` and `sd_compound` are the
//! specification of the format: mutually recursive functions from a byte
//! sequence and a position to the decoded value and the number of bytes
//! consumed, or the error that aborts the decode. The exec functions mirror
//! them one for one and are proved to return exactly what they say.

use vstd::prelude::*;
use crate::prim::{
    i8_from_bits, i16_from_bits, i32_from_bits, i64_from_bits, sp_byte_array, sp_str, sp_u16,
    sp_u32, sp_u64, sp_u8, read_byte_array, read_string, read_u16, read_u32, read_u64, read_u8,
    i8_of_bits, i16_of_bits, i32_of_bits, i64_of_bits,
};
use crate::tag::{view_named, view_tag, NamedTag, NamedV, NbtError, TagV, UnnamedTag};

verus! {

/// The largest accepted nesting depth of lists and compounds. Decoding input
/// nested deeper fails with `NestingTooDeep` instead of exhausting the stack.
pub const MAX_DEPTH: u32 = 512;

/// The largest accepted element count for a list whose declared element type
/// is `End`. Such elements occupy no bytes on the wire, so the input length
/// cannot bound the allocation; this cap does, and a larger count fails with
/// `InvalidLength`.
pub const MAX_END_LIST: u32 = 0xFFFF;

/// The bytes that remain at position `p`.
pub open spec fn rem(s: Seq<u8>, p: nat) -> nat {
    if p <= s.len() {
        (s.len() - p) as nat
    } else {
        0
    }
}

/// Decodes the payload of a tag with type id `id` at position `p`.
///
/// Ids 0 through 10 select the variant; id 0 is the `End` sentinel and
/// consumes nothing; any other id fails with `UnknownTagType`. `depth` is the
/// remaining nesting budget for lists and compounds.
///
/// A list count is rejected as `InvalidLength` when it is negative, when its
/// element type is `End` and it exceeds `MAX_END_LIST`, or when its element
/// type is substantive (1 through 10, one byte each at least) and it exceeds
/// the bytes that remain — a guard that cannot fire on any input whose
/// elements are all present, so what follows the root tag stays ignored. An
/// element type outside 0 through 10 is left to the dispatch of the first
/// element, which names it in `UnknownTagType`.
pub open spec fn sd_payload(s: Seq<u8>, p: nat, id: u8, depth: nat) -> Result<
    (TagV, nat),
    NbtError,
>
    decreases depth, 1nat, 0nat,
{
    if id == 0 {
        Ok((TagV::End, 0))
    } else if id == 1 {
        match sp_u8(s, p) {
            Ok(b) => Ok((TagV::Byte(i8_from_bits(b)), 1)),
            Err(e) => Err(e),
        }
    } else if id == 2 {
        match sp_u16(s, p) {
            Ok(b) => Ok((TagV::Short(i16_from_bits(b)), 2)),
            Err(e) => Err(e),
        }
    } else if id == 3 {
        match sp_u32(s, p) {
            Ok(b) => Ok((TagV::Int(i32_from_bits(b)), 4)),
            Err(e) => Err(e),
        }
    } else if id == 4 {
        match sp_u64(s, p) {
            Ok(b) => Ok((TagV::Long(i64_from_bits(b)), 8)),
            Err(e) => Err(e),
        }
    } else if id == 5 {
        match sp_u32(s, p) {
            Ok(b) => Ok((TagV::Float(b), 4)),
            Err(e) => Err(e),
        }
    } else if id == 6 {
        match sp_u64(s, p) {
            Ok(b) => Ok((TagV::Double(b), 8)),
            Err(e) => Err(e),
        }
    } else if id == 7 {
        match sp_byte_array(s, p) {
            Ok((bs, c)) => Ok((TagV::ByteArray(bs), c)),
            Err(e) => Err(e),
        }
    } else if id == 8 {
        match sp_str(s, p) {
            Ok((cs, c)) => Ok((TagV::Str(cs), c)),
            Err(e) => Err(e),
        }
    } else if id == 9 {
        if depth == 0 {
            Err(NbtError::NestingTooDeep)
        } else {
            match sp_u8(s, p) {
                Err(e) => Err(e),
                Ok(elem_id) => match sp_u32(s, p + 1) {
                    Err(e) => Err(e),
                    Ok(bits) => {
                        let n = i32_from_bits(bits);
                        if n < 0 {
                            Err(NbtError::InvalidLength)
                        } else if elem_id == 0 && n > MAX_END_LIST {
                            Err(NbtError::InvalidLength)
                        } else if 1 <= elem_id <= 10 && n > rem(s, (p + 5) as nat) {
                            Err(NbtError::InvalidLength)
                        } else {
                            match sd_list_elems(
                                s,
                                (p + 5) as nat,
                                elem_id,
                                n as nat,
                                (depth - 1) as nat,
                            ) {
                                Ok((ts, c)) => Ok((TagV::List(ts), (5 + c) as nat)),
                                Err(e) => Err(e),
                            }
                        }
                    },
                },
            }
        }
    } else if id == 10 {
        if depth == 0 {
            Err(NbtError::NestingTooDeep)
        } else {
            match sd_compound(s, p, (depth - 1) as nat) {
                Ok((nts, c)) => Ok((TagV::Compound(nts), c)),
                Err(e) => Err(e),
            }
        }
    } else {
        Err(NbtError::UnknownTagType(id))
    }
}

/// Decodes `n` unnamed payloads of type `id`, one after the other.
pub open spec fn sd_list_elems(s: Seq<u8>, p: nat, id: u8, n: nat, depth: nat) -> Result<
    (Seq<TagV>, nat),
    NbtError,
>
    decreases depth, 2nat, n,
{
    if n == 0 {
        Ok((Seq::empty(), 0))
    } else {
        match sd_payload(s, p, id, depth) {
            Err(e) => Err(e),
            Ok((t, c)) => match sd_list_elems(s, (p + c) as nat, id, (n - 1) as nat, depth) {
                Err(e) => Err(e),
                Ok((ts, c2)) => Ok((seq![t] + ts, (c + c2) as nat)),
            },
        }
    }
}

/// Decodes one named tag: a type-id byte, then — only for a non-zero id — a
/// length-prefixed name, then the payload. Id 0 yields the `End` sentinel
/// with the empty name.
pub open spec fn sd_named(s: Seq<u8>, p: nat, depth: nat) -> Result<(NamedV, nat), NbtError>
    decreases depth, 2nat, 0nat,
{
    match sp_u8(s, p) {
        Err(e) => Err(e),
        Ok(id) => {
            if id == 0 {
                Ok((NamedV { name: Seq::empty(), content: TagV::End }, 1))
            } else if id > 10 {
                Err(NbtError::UnknownTagType(id))
            } else {
                match sp_str(s, (p + 1) as nat) {
                    Err(e) => Err(e),
                    Ok((nm, c1)) => match sd_payload(s, (p + 1 + c1) as nat, id, depth) {
                        Err(e) => Err(e),
                        Ok((t, c2)) => Ok(
                            (NamedV { name: nm, content: t }, (1 + c1 + c2) as nat),
                        ),
                    },
                }
            }
        },
    }
}

/// Decodes the body of a compound: named tags in encounter order until a
/// named `End` appears; that terminator is consumed and not stored.
pub open spec fn sd_compound(s: Seq<u8>, p: nat, depth: nat) -> Result<(Seq<NamedV>, nat), NbtError>
    decreases depth, 3nat, rem(s, p),
{
    match sp_u8(s, p) {
        Err(e) => Err(e),
        Ok(id) => {
            if id == 0 {
                Ok((Seq::empty(), 1))
            } else if id > 10 {
                Err(NbtError::UnknownTagType(id))
            } else {
                match sp_str(s, (p + 1) as nat) {
                    Err(e) => Err(e),
                    Ok((nm, c1)) => match sd_payload(s, (p + 1 + c1) as nat, id, depth) {
                        Err(e) => Err(e),
                        Ok((t, c2)) => match sd_compound(s, (p + 1 + c1 + c2) as nat, depth) {
                            Err(e) => Err(e),
                            Ok((nts, c3)) => Ok(
                                (
                                    seq![NamedV { name: nm, content: t }] + nts,
                                    (1 + c1 + c2 + c3) as nat,
                                ),
                            ),
                        },
                    },
                }
            }
        },
    }
}

/// One unfolding of `sd_compound`, phrased through `sd_named`: the compound
/// decoder reads named tags by the same dispatch as every other site, and
/// stops at the first named `End`, which it consumes and discards.
pub proof fn lemma_compound_step(s: Seq<u8>, p: nat, depth: nat)
    ensures
        sd_compound(s, p, depth) == (match sd_named(s, p, depth) {
            Err(e) => Err::<(Seq<NamedV>, nat), NbtError>(e),
            Ok((nt, c)) => {
                if nt.content == TagV::End {
                    Ok((Seq::empty(), c))
                } else {
                    match sd_compound(s, (p + c) as nat, depth) {
                        Err(e) => Err(e),
                        Ok((nts, c2)) => Ok((seq![nt] + nts, (c + c2) as nat)),
                    }
                }
            },
        }),
{
}

/// Decodes the root: one named tag at the start of the stream, with the full
/// nesting budget.
pub open spec fn sd_root(s: Seq<u8>) -> Result<NamedV, NbtError> {
    match sd_named(s, 0, MAX_DEPTH as nat) {
        Ok((nt, c)) => Ok(nt),
        Err(e) => Err(e),
    }
}

/// The models of a sequence of unnamed tags, element by element.
pub open spec fn views_of_tags(ts: Seq<UnnamedTag>) -> Seq<TagV> {
    Seq::new(ts.len(), |i: int| view_tag(ts[i]))
}

/// The models of a sequence of named tags, element by element.
pub open spec fn views_of_named(nts: Seq<NamedTag>) -> Seq<NamedV> {
    Seq::new(nts.len(), |i: int| view_named(nts[i]))
}

/// Decodes the payload of a tag with type id `id` at `pos`, as `sd_payload`.
pub fn decode_payload(s: &Vec<u8>, pos: usize, id: u8, depth: u32) -> (r: Result<
    (UnnamedTag, usize),
    NbtError,
>)
    ensures
        match (r, sd_payload(s@, pos as nat, id, depth as nat)) {
            (Ok((t, pos2)), Ok((tv, c))) => t@ == tv && pos2 == pos + c && (pos2 <= s@.len()
                || pos2 == pos),
            (Err(e), Err(se)) => e == se,
            _ => false,
        },
    decreases depth, 1nat, 0nat,
{
    let total = s.len();
    if id == 0 {
        Ok((UnnamedTag::End, pos))
    } else if id == 1 {
        match read_u8(s, pos) {
            Ok(b) => Ok((UnnamedTag::Byte(i8_of_bits(b)), pos + 1)),
            Err(e) => Err(e),
        }
    } else if id == 2 {
        match read_u16(s, pos) {
            Ok(b) => Ok((UnnamedTag::Short(i16_of_bits(b)), pos + 2)),
            Err(e) => Err(e),
        }
    } else if id == 3 {
        match read_u32(s, pos) {
            Ok(b) => Ok((UnnamedTag::Int(i32_of_bits(b)), pos + 4)),
            Err(e) => Err(e),
        }
    } else if id == 4 {
        match read_u64(s, pos) {
            Ok(b) => Ok((UnnamedTag::Long(i64_of_bits(b)), pos + 8)),
            Err(e) => Err(e),
        }
    } else if id == 5 {
        match read_u32(s, pos) {
            Ok(b) => Ok((UnnamedTag::Float(b), pos + 4)),
            Err(e) => Err(e),
        }
    } else if id == 6 {
        match read_u64(s, pos) {
            Ok(b) => Ok((UnnamedTag::Double(b), pos + 8)),
            Err(e) => Err(e),
        }
    } else if id == 7 {
        match read_byte_array(s, pos) {
            Ok((bs, pos2)) => Ok((UnnamedTag::ByteArray(bs), pos2)),
            Err(e) => Err(e),
        }
    } else if id == 8 {
        match read_string(s, pos) {
            Ok((st, pos2)) => Ok((UnnamedTag::String(st), pos2)),
            Err(e) => Err(e),
        }
    } else if id == 9 {
        if depth == 0 {
            return Err(NbtError::NestingTooDeep);
        }
        let elem_id = match read_u8(s, pos) {
            Ok(b) => b,
            Err(e) => return Err(e),
        };
        let bits = match read_u32(s, pos + 1) {
            Ok(b) => b,
            Err(e) => return Err(e),
        };
        let n = i32_of_bits(bits);
        if n < 0 {
            return Err(NbtError::InvalidLength);
        }
        if elem_id == 0 && n as u32 > MAX_END_LIST {
            return Err(NbtError::InvalidLength);
        }
        let pos5 = pos + 5;
        if 1 <= elem_id && elem_id <= 10 && n as usize > total - pos5 {
            return Err(NbtError::InvalidLength);
        }
        match decode_list_elems(s, pos5, elem_id, n as usize, depth - 1) {
            Ok((ts, pos2)) => {
                proof {
                    let sr = sd_payload(s@, pos as nat, id, depth as nat);
                    assert(sr is Ok);
                    let tv = sr->Ok_0.0;
                    let tsv = tv->List_0;
                    let vw = view_tag(UnnamedTag::List(ts))->List_0;
                    assert(vw.len() == tsv.len());
                    assert forall|i: int| 0 <= i < tsv.len() implies vw[i] == tsv[i] by {
                        assert(view_tag(ts@[i]) == tsv[i]);
                    }
                    assert(vw =~= tsv);
                    assert(view_tag(UnnamedTag::List(ts)) == tv);
                }
                Ok((UnnamedTag::List(ts), pos2))
            },
            Err(e) => Err(e),
        }
    } else if id == 10 {
        if depth == 0 {
            return Err(NbtError::NestingTooDeep);
        }
        match decode_compound(s, pos, depth - 1) {
            Ok((nts, pos2)) => {
                proof {
                    let sr = sd_payload(s@, pos as nat, id, depth as nat);
                    assert(sr is Ok);
                    let tv = sr->Ok_0.0;
                    let nv = tv->Compound_0;
                    let vw = view_tag(UnnamedTag::Compound(nts))->Compound_0;
                    assert(vw.len() == nv.len());
                    assert forall|i: int| 0 <= i < nv.len() implies vw[i] == nv[i] by {
                        assert(view_named(nts@[i]) == nv[i]);
                    }
                    assert(vw =~= nv);
                    assert(view_tag(UnnamedTag::Compound(nts)) == tv);
                }
                Ok((UnnamedTag::Compound(nts), pos2))
            },
            Err(e) => Err(e),
        }
    } else {
        Err(NbtError::UnknownTagType(id))
    }
}

/// Decodes `n` unnamed payloads of type `id` in order, as `sd_list_elems`.
pub fn decode_list_elems(s: &Vec<u8>, pos: usize, id: u8, n: usize, depth: u32) -> (r: Result<
    (Vec<UnnamedTag>, usize),
    NbtError,
>)
    ensures
        match (r, sd_list_elems(s@, pos as nat, id, n as nat, depth as nat)) {
            (Ok((ts, pos2)), Ok((tsv, c))) => ts@.len() == tsv.len() && (forall|i: int|
                0 <= i < tsv.len() ==> #[trigger] view_tag(ts@[i]) == tsv[i]) && pos2 == pos + c
                && (pos2 <= s@.len() || pos2 == pos),
            (Err(e), Err(se)) => e == se,
            _ => false,
        },
    decreases depth, 2nat, 0nat,
{
    let total = s.len();
    let mut out: Vec<UnnamedTag> = Vec::new();
    let mut cur = pos;
    let mut i: usize = 0;
    proof {
        assert(s@.len() == total);
    }
    while i < n
        invariant
            i <= n,
            out@.len() == i,
            pos <= cur,
            cur <= s@.len() || cur == pos,
            s@.len() <= usize::MAX,
            match (
                sd_list_elems(s@, cur as nat, id, (n - i) as nat, depth as nat),
                sd_list_elems(s@, pos as nat, id, n as nat, depth as nat),
            ) {
                (Ok((tsv, c)), Ok((tsall, call))) => tsall =~= views_of_tags(out@) + tsv && call
                    == (cur - pos) + c,
                (Err(e), Err(ea)) => e == ea,
                _ => false,
            },
        decreases n - i,
    {
        match decode_payload(s, cur, id, depth) {
            Err(e) => {
                return Err(e);
            },
            Ok((t, pos2)) => {
                proof {
                    let ghost step = sd_payload(s@, cur as nat, id, depth as nat);
                    assert(step is Ok);
                    let ghost (tv, c) = step->Ok_0;
                    let ghost rest = sd_list_elems(
                        s@,
                        (cur + c) as nat,
                        id,
                        (n - i - 1) as nat,
                        depth as nat,
                    );
                    assert(views_of_tags(out@.push(t)) =~= views_of_tags(out@) + seq![view_tag(t)]);
                    if rest is Ok {
                        let ghost (tsv2, c2) = rest->Ok_0;
                        assert((views_of_tags(out@) + seq![view_tag(t)]) + tsv2 =~= views_of_tags(
                            out@,
                        ) + (seq![view_tag(t)] + tsv2));
                    }
                }
                out.push(t);
                cur = pos2;
                i = i + 1;
            },
        }
    }
    proof {
        assert(views_of_tags(out@) + Seq::<TagV>::empty() =~= views_of_tags(out@));
    }
    Ok((out, cur))
}

/// Decodes one named tag at `pos`, as `sd_named`.
pub fn decode_named(s: &Vec<u8>, pos: usize, depth: u32) -> (r: Result<(NamedTag, usize), NbtError>)
    ensures
        match (r, sd_named(s@, pos as nat, depth as nat)) {
            (Ok((nt, pos2)), Ok((nv, c))) => nt@ == nv && pos2 == pos + c && pos2 <= s@.len()
                && pos < pos2,
            (Err(e), Err(se)) => e == se,
            _ => false,
        },
    decreases depth, 2nat, 1nat,
{
    let total = s.len();
    proof {
        assert(s@.len() == total);
    }
    let id = match read_u8(s, pos) {
        Ok(b) => b,
        Err(e) => return Err(e),
    };
    if id == 0 {
        let r = NamedTag { name: String::new(), content: UnnamedTag::End };
        proof {
            let ghost nv = sd_named(s@, pos as nat, depth as nat)->Ok_0.0;
            assert(r@ =~= nv);
        }
        Ok((r, pos + 1))
    } else if id > 10 {
        Err(NbtError::UnknownTagType(id))
    } else {
        let (nm, pos1) = match read_string(s, pos + 1) {
            Ok(v) => v,
            Err(e) => return Err(e),
        };
        match decode_payload(s, pos1, id, depth) {
            Err(e) => Err(e),
            Ok((t, pos2)) => {
                let r = NamedTag { name: nm, content: t };
                proof {
                    let ghost nv = sd_named(s@, pos as nat, depth as nat)->Ok_0.0;
                    assert(r@ =~= nv);
                    assert(pos2 <= s@.len()) by {
                        let ghost c2 = sd_payload(s@, pos1 as nat, id, depth as nat)->Ok_0.1;
                        if c2 == 0 {
                            assert(pos2 == pos1 && pos1 <= s@.len());
                        }
                    }
                }
                Ok((r, pos2))
            },
        }
    }
}

/// Decodes the body of a compound at `pos`, as `sd_compound`: named tags
/// until the consumed terminator.
pub fn decode_compound(s: &Vec<u8>, pos: usize, depth: u32) -> (r: Result<
    (Vec<NamedTag>, usize),
    NbtError,
>)
    ensures
        match (r, sd_compound(s@, pos as nat, depth as nat)) {
            (Ok((nts, pos2)), Ok((nv, c))) => nts@.len() == nv.len() && (forall|i: int|
                0 <= i < nv.len() ==> #[trigger] view_named(nts@[i]) == nv[i]) && pos2 == pos + c
                && pos2 <= s@.len() && pos < pos2,
            (Err(e), Err(se)) => e == se,
            _ => false,
        },
    decreases depth, 3nat, 0nat,
{
    let total = s.len();
    let mut out: Vec<NamedTag> = Vec::new();
    let mut cur = pos;
    proof {
        assert(s@.len() == total);
    }
    loop
        invariant
            pos <= cur,
            cur <= s@.len() || cur == pos,
            s@.len() <= usize::MAX,
            match (
                sd_compound(s@, cur as nat, depth as nat),
                sd_compound(s@, pos as nat, depth as nat),
            ) {
                (Ok((nv, c)), Ok((nvall, call))) => nvall =~= views_of_named(out@) + nv && call == (
                cur - pos) + c,
                (Err(e), Err(ea)) => e == ea,
                _ => false,
            },
        decreases s@.len() as int - cur as int,
    {
        proof {
            lemma_compound_step(s@, cur as nat, depth as nat);
        }
        match decode_named(s, cur, depth) {
            Err(e) => {
                return Err(e);
            },
            Ok((nt, pos2)) => {
                let ghost step = sd_named(s@, cur as nat, depth as nat);
                let ghost (nv, c) = step->Ok_0;
                let is_end = match &nt.content {
                    UnnamedTag::End => true,
                    _ => false,
                };
                proof {
                    assert(is_end <==> nv.content == TagV::End);
                }
                if is_end {
                    proof {
                        assert(views_of_named(out@) + Seq::<NamedV>::empty() =~= views_of_named(
                            out@,
                        ));
                    }
                    return Ok((out, pos2));
                }
                proof {
                    let ghost rest = sd_compound(s@, (cur + c) as nat, depth as nat);
                    assert(views_of_named(out@.push(nt)) =~= views_of_named(out@) + seq![
                        view_named(nt)]);
                    if rest is Ok {
                        let ghost (nv2, c2) = rest->Ok_0;
                        assert((views_of_named(out@) + seq![view_named(nt)]) + nv2 =~= views_of_named(
                            out@,
                        ) + (seq![view_named(nt)] + nv2));
                    }
                }
                out.push(nt);
                cur = pos2;
            },
        }
    }
}

/// Decodes one top-level named tag from raw, uncompressed bytes, as
/// `sd_root`: the complete tree, or the error at the first malformed point.
pub fn decode_uncompressed(bytes: &Vec<u8>) -> (r: Result<NamedTag, NbtError>)
    ensures
        match (r, sd_root(bytes@)) {
            (Ok(nt), Ok(nv)) => nt@ == nv,
            (Err(e), Err(se)) => e == se,
            _ => false,
        },
{
    match decode_named(bytes, 0, MAX_DEPTH) {
        Ok((nt, _)) => Ok(nt),
        Err(e) => Err(e),
    }
}

} // verus!
