//! The decoded tree: named and unnamed tags, their mathematical models, and
//! the error taxonomy shared by every decoding routine.

use vstd::prelude::*;

verus! {

broadcast use vstd::std_specs::vec::group_vec_axioms;

/// Why a decode attempt failed. Every error aborts the whole decode: no
/// partial tree is ever returned.
#[derive(Clone, Copy, Debug, PartialEq, Eq, Structural)]
pub enum NbtError {
    /// The outer gzip framing was invalid (only `decode` reports this).
    DecompressionFailed,
    /// Fewer bytes remained than a field declared it needs.
    TruncatedInput,
    /// A string field held bytes that are not valid UTF-8.
    InvalidEncoding,
    /// A declared length or element count was negative or unusable.
    InvalidLength,
    /// A type-id byte outside 0..=10 was met during dispatch.
    UnknownTagType(u8),
    /// Lists and compounds were nested deeper than `MAX_DEPTH`.
    NestingTooDeep,
}

/// An unnamed tag: one decoded payload without its name.
///
/// `Float` and `Double` hold the raw IEEE-754 bit pattern exactly as it stood
/// on the wire (big-endian reassembled), so that decoding is a bit-preserving
/// reinterpretation; callers who want arithmetic convert with `from_bits`.
#[derive(Debug, PartialEq)]
pub enum UnnamedTag {
    /// The `TAG_End` sentinel. Normally found only as the terminator of a
    /// compound, or as the declared element type of an empty list.
    End,
    /// An 8-bit signed integer.
    Byte(i8),
    /// A 16-bit signed integer.
    Short(i16),
    /// A 32-bit signed integer.
    Int(i32),
    /// A 64-bit signed integer.
    Long(i64),
    /// A 32-bit IEEE-754 number, kept as its bit pattern.
    Float(u32),
    /// A 64-bit IEEE-754 number, kept as its bit pattern.
    Double(u64),
    /// An ordered sequence of 8-bit signed integers.
    ByteArray(Vec<i8>),
    /// UTF-8 text, length-prefixed on the wire.
    String(String),
    /// A homogeneous ordered sequence of unnamed tags: all elements share one
    /// type id, fixed once per list.
    List(Vec<UnnamedTag>),
    /// An ordered sequence of named tags. The terminating `TAG_End` met while
    /// decoding is consumed and not stored: only substantive tags remain.
    Compound(Vec<NamedTag>),
}

/// A named tag: a string name (empty permitted, and mandatory-empty for
/// `End`) paired with the tag's content.
#[derive(Debug, PartialEq)]
pub struct NamedTag {
    /// The name of the tag.
    pub name: String,
    /// The content of the tag.
    pub content: UnnamedTag,
}

/// The mathematical model of an unnamed tag, over `Seq` and plain values.
#[verifier::ext_equal]
pub enum TagV {
    End,
    Byte(i8),
    Short(i16),
    Int(i32),
    Long(i64),
    Float(u32),
    Double(u64),
    ByteArray(Seq<i8>),
    Str(Seq<char>),
    List(Seq<TagV>),
    Compound(Seq<NamedV>),
}

/// The mathematical model of a named tag.
#[verifier::ext_equal]
pub struct NamedV {
    pub name: Seq<char>,
    pub content: TagV,
}

/// The type id that identifies a tag's variant on the wire.
pub open spec fn tag_id(t: TagV) -> u8 {
    match t {
        TagV::End => 0,
        TagV::Byte(_) => 1,
        TagV::Short(_) => 2,
        TagV::Int(_) => 3,
        TagV::Long(_) => 4,
        TagV::Float(_) => 5,
        TagV::Double(_) => 6,
        TagV::ByteArray(_) => 7,
        TagV::Str(_) => 8,
        TagV::List(_) => 9,
        TagV::Compound(_) => 10,
    }
}

pub open spec fn view_tag(t: UnnamedTag) -> TagV
    decreases t,
{
    match t {
        UnnamedTag::End => TagV::End,
        UnnamedTag::Byte(v) => TagV::Byte(v),
        UnnamedTag::Short(v) => TagV::Short(v),
        UnnamedTag::Int(v) => TagV::Int(v),
        UnnamedTag::Long(v) => TagV::Long(v),
        UnnamedTag::Float(v) => TagV::Float(v),
        UnnamedTag::Double(v) => TagV::Double(v),
        UnnamedTag::ByteArray(bs) => TagV::ByteArray(bs@),
        UnnamedTag::String(s) => TagV::Str(s@),
        UnnamedTag::List(ts) => TagV::List(
            Seq::new(
                ts@.len(),
                |i: int|
                    if 0 <= i < ts@.len() {
                        view_tag(ts[i])
                    } else {
                        TagV::End
                    },
            ),
        ),
        UnnamedTag::Compound(nts) => TagV::Compound(
            Seq::new(
                nts@.len(),
                |i: int|
                    if 0 <= i < nts@.len() {
                        view_named(nts[i])
                    } else {
                        NamedV { name: Seq::empty(), content: TagV::End }
                    },
            ),
        ),
    }
}

pub open spec fn view_named(nt: NamedTag) -> NamedV
    decreases nt,
{
    NamedV { name: nt.name@, content: view_tag(nt.content) }
}

impl View for UnnamedTag {
    type V = TagV;

    open spec fn view(&self) -> TagV {
        view_tag(*self)
    }
}

impl View for NamedTag {
    type V = NamedV;

    open spec fn view(&self) -> NamedV {
        view_named(*self)
    }
}

/// A structural copy of an unnamed tag with the same model.
#[verifier::loop_isolation(false)]
pub fn clone_tag(t: &UnnamedTag) -> (r: UnnamedTag)
    ensures
        r@ == t@,
    decreases *t,
{
    match t {
        UnnamedTag::End => UnnamedTag::End,
        UnnamedTag::Byte(v) => UnnamedTag::Byte(*v),
        UnnamedTag::Short(v) => UnnamedTag::Short(*v),
        UnnamedTag::Int(v) => UnnamedTag::Int(*v),
        UnnamedTag::Long(v) => UnnamedTag::Long(*v),
        UnnamedTag::Float(v) => UnnamedTag::Float(*v),
        UnnamedTag::Double(v) => UnnamedTag::Double(*v),
        UnnamedTag::ByteArray(bs) => {
            let mut out: Vec<i8> = Vec::new();
            let mut i: usize = 0;
            while i < bs.len()
                invariant
                    i <= bs@.len(),
                    out@ == bs@.take(i as int),
                decreases bs@.len() - i,
            {
                out.push(bs[i]);
                proof {
                    assert(out@ =~= bs@.take(i as int + 1));
                }
                i = i + 1;
            }
            proof {
                assert(out@ =~= bs@);
            }
            UnnamedTag::ByteArray(out)
        },
        UnnamedTag::String(st) => UnnamedTag::String(st.clone()),
        UnnamedTag::List(ts) => {
            let mut out: Vec<UnnamedTag> = Vec::new();
            let mut i: usize = 0;
            while i < ts.len()
                invariant
                    i <= ts@.len(),
                    out@.len() == i,
                    forall|j: int| 0 <= j < i ==> view_tag(#[trigger] out@[j]) == view_tag(ts@[j]),
                decreases ts@.len() - i,
            {
                let c = clone_tag(&ts[i]);
                out.push(c);
                i = i + 1;
            }
            proof {
                let vw = view_tag(UnnamedTag::List(out))->List_0;
                let tv = view_tag(*t)->List_0;
                assert(vw.len() == tv.len());
                assert forall|j: int| 0 <= j < tv.len() implies vw[j] == tv[j] by {
                    assert(view_tag(out@[j]) == view_tag(ts@[j]));
                }
                assert(vw =~= tv);
                assert(view_tag(UnnamedTag::List(out)) == view_tag(*t));
            }
            UnnamedTag::List(out)
        },
        UnnamedTag::Compound(nts) => {
            let mut out: Vec<NamedTag> = Vec::new();
            let mut i: usize = 0;
            while i < nts.len()
                invariant
                    i <= nts@.len(),
                    out@.len() == i,
                    forall|j: int|
                        0 <= j < i ==> view_named(#[trigger] out@[j]) == view_named(nts@[j]),
                decreases nts@.len() - i,
            {
                let c = clone_named(&nts[i]);
                out.push(c);
                i = i + 1;
            }
            proof {
                let vw = view_tag(UnnamedTag::Compound(out))->Compound_0;
                let tv = view_tag(*t)->Compound_0;
                assert(vw.len() == tv.len());
                assert forall|j: int| 0 <= j < tv.len() implies vw[j] == tv[j] by {
                    assert(view_named(out@[j]) == view_named(nts@[j]));
                }
                assert(vw =~= tv);
                assert(view_tag(UnnamedTag::Compound(out)) == view_tag(*t));
            }
            UnnamedTag::Compound(out)
        },
    }
}

/// A structural copy of a named tag with the same model.
pub fn clone_named(nt: &NamedTag) -> (r: NamedTag)
    ensures
        r@ == nt@,
    decreases *nt,
{
    NamedTag { name: nt.name.clone(), content: clone_tag(&nt.content) }
}

impl Clone for UnnamedTag {
    /// The copy has the same model as the original.
    fn clone(&self) -> (r: Self)
        ensures
            r@ == self@,
    {
        clone_tag(self)
    }
}

impl Clone for NamedTag {
    /// The copy has the same model as the original.
    fn clone(&self) -> (r: Self)
        ensures
            r@ == self@,
    {
        clone_named(self)
    }
}

} // verus!
