use vstd::prelude::*;

use vstd::arithmetic::power2::{lemma2_to64, lemma2_to64_rest, lemma_pow2_adds, pow2};

use crate::err::{Error, Kind};
use crate::util::TrackedRead;

verus! {

broadcast use {
    vstd::std_specs::vec::axiom_vec_index_decreases,
    vstd::std_specs::vec::axiom_vec_decreases_to_view,
    vstd::seq::axiom_seq_subrange_decreases,
};

/// How many levels of tags a decoded tree may have: children of a tag at
/// level `MAX_DEPTH - 1` are refused with `Kind::DepthExceeded`.
pub const MAX_DEPTH: usize = 64;

/// The types of the universal class.
#[derive(Debug, Clone, Copy, PartialEq, Eq, Structural)]
pub enum Type {
    Eoc,
    Boolean,
    Integer,
    BitString,
    OctetString,
    Null,
    ObjectIdentifier,
    ObjectDescriptor,
    External,
    Real,
    Enumerated,
    EmbeddedPdv,
    Utf8String,
    RelativeOid,
    Sequence,
    SetOf,
    NumericString,
    PrintableString,
    T61String,
    VideotexString,
    Ia5String,
    UtcTime,
    GeneralizedTime,
    GraphicString,
    VisibleString,
    GeneralString,
    UniversalString,
    CharacterString,
    BmpString,
}

/// The 5-bit code of a universal type.
pub open spec fn type_code(t: Type) -> u8 {
    match t {
        Type::Eoc => 0,
        Type::Boolean => 1,
        Type::Integer => 2,
        Type::BitString => 3,
        Type::OctetString => 4,
        Type::Null => 5,
        Type::ObjectIdentifier => 6,
        Type::ObjectDescriptor => 7,
        Type::External => 8,
        Type::Real => 9,
        Type::Enumerated => 10,
        Type::EmbeddedPdv => 11,
        Type::Utf8String => 12,
        Type::RelativeOid => 13,
        Type::Sequence => 16,
        Type::SetOf => 17,
        Type::NumericString => 18,
        Type::PrintableString => 19,
        Type::T61String => 20,
        Type::VideotexString => 21,
        Type::Ia5String => 22,
        Type::UtcTime => 23,
        Type::GeneralizedTime => 24,
        Type::GraphicString => 25,
        Type::VisibleString => 26,
        Type::GeneralString => 27,
        Type::UniversalString => 28,
        Type::CharacterString => 29,
        Type::BmpString => 30,
    }
}

/// The universal type with code `c`, if there is one.
pub open spec fn type_of_code(c: u8) -> Option<Type> {
    if c == 0 { Some(Type::Eoc) }
    else if c == 1 { Some(Type::Boolean) }
    else if c == 2 { Some(Type::Integer) }
    else if c == 3 { Some(Type::BitString) }
    else if c == 4 { Some(Type::OctetString) }
    else if c == 5 { Some(Type::Null) }
    else if c == 6 { Some(Type::ObjectIdentifier) }
    else if c == 7 { Some(Type::ObjectDescriptor) }
    else if c == 8 { Some(Type::External) }
    else if c == 9 { Some(Type::Real) }
    else if c == 10 { Some(Type::Enumerated) }
    else if c == 11 { Some(Type::EmbeddedPdv) }
    else if c == 12 { Some(Type::Utf8String) }
    else if c == 13 { Some(Type::RelativeOid) }
    else if c == 16 { Some(Type::Sequence) }
    else if c == 17 { Some(Type::SetOf) }
    else if c == 18 { Some(Type::NumericString) }
    else if c == 19 { Some(Type::PrintableString) }
    else if c == 20 { Some(Type::T61String) }
    else if c == 21 { Some(Type::VideotexString) }
    else if c == 22 { Some(Type::Ia5String) }
    else if c == 23 { Some(Type::UtcTime) }
    else if c == 24 { Some(Type::GeneralizedTime) }
    else if c == 25 { Some(Type::GraphicString) }
    else if c == 26 { Some(Type::VisibleString) }
    else if c == 27 { Some(Type::GeneralString) }
    else if c == 28 { Some(Type::UniversalString) }
    else if c == 29 { Some(Type::CharacterString) }
    else if c == 30 { Some(Type::BmpString) }
    else { None }
}

impl Type {
    pub fn code(self) -> (r: u8)
        ensures
            r == type_code(self),
            r <= 30,
    {
        match self {
            Type::Eoc => 0,
            Type::Boolean => 1,
            Type::Integer => 2,
            Type::BitString => 3,
            Type::OctetString => 4,
            Type::Null => 5,
            Type::ObjectIdentifier => 6,
            Type::ObjectDescriptor => 7,
            Type::External => 8,
            Type::Real => 9,
            Type::Enumerated => 10,
            Type::EmbeddedPdv => 11,
            Type::Utf8String => 12,
            Type::RelativeOid => 13,
            Type::Sequence => 16,
            Type::SetOf => 17,
            Type::NumericString => 18,
            Type::PrintableString => 19,
            Type::T61String => 20,
            Type::VideotexString => 21,
            Type::Ia5String => 22,
            Type::UtcTime => 23,
            Type::GeneralizedTime => 24,
            Type::GraphicString => 25,
            Type::VisibleString => 26,
            Type::GeneralString => 27,
            Type::UniversalString => 28,
            Type::CharacterString => 29,
            Type::BmpString => 30,
        }
    }

    pub fn from_code(c: u8) -> (r: Option<Type>)
        ensures
            r == type_of_code(c),
    {
        match c {
            0 => Some(Type::Eoc),
            1 => Some(Type::Boolean),
            2 => Some(Type::Integer),
            3 => Some(Type::BitString),
            4 => Some(Type::OctetString),
            5 => Some(Type::Null),
            6 => Some(Type::ObjectIdentifier),
            7 => Some(Type::ObjectDescriptor),
            8 => Some(Type::External),
            9 => Some(Type::Real),
            10 => Some(Type::Enumerated),
            11 => Some(Type::EmbeddedPdv),
            12 => Some(Type::Utf8String),
            13 => Some(Type::RelativeOid),
            16 => Some(Type::Sequence),
            17 => Some(Type::SetOf),
            18 => Some(Type::NumericString),
            19 => Some(Type::PrintableString),
            20 => Some(Type::T61String),
            21 => Some(Type::VideotexString),
            22 => Some(Type::Ia5String),
            23 => Some(Type::UtcTime),
            24 => Some(Type::GeneralizedTime),
            25 => Some(Type::GraphicString),
            26 => Some(Type::VisibleString),
            27 => Some(Type::GeneralString),
            28 => Some(Type::UniversalString),
            29 => Some(Type::CharacterString),
            30 => Some(Type::BmpString),
            _ => None,
        }
    }
}

/// A tag number within its class.
#[derive(Debug, Clone, Copy, PartialEq, Eq, Structural)]
pub enum Number {
    Universal(Type),
    Application(i64),
    ContextSpecific(i64),
    Private(i64),
}

#[derive(Debug, Clone, Copy, PartialEq, Eq, Structural)]
pub enum Class {
    Universal,
    Application,
    ContextSpecific,
    Private,
}

#[derive(Debug, Clone, Copy, PartialEq, Eq, Structural)]
pub enum Flavor {
    Primitive,
    Constructed,
}

/// The length field of a tag.
#[derive(Debug, Clone, Copy, PartialEq, Eq, Structural)]
pub enum Length {
    Indefinite,
    Definite(u64),
}

#[derive(Debug, PartialEq, Eq)]
pub enum Payload {
    Primitive(Vec<u8>),
    Constructed(Vec<Tag>),
}

/// One tag-length-value node.
#[derive(Debug, PartialEq, Eq)]
pub struct Tag {
    pub number: Number,
    pub offset: Option<usize>,
    pub payload: Payload,
}

/// The mathematical value of a payload.
pub enum PayloadModel {
    Primitive(Seq<u8>),
    Constructed(Seq<TagModel>),
}

/// The mathematical value of a tag.
pub struct TagModel {
    pub number: Number,
    pub offset: Option<usize>,
    pub payload: PayloadModel,
}

pub open spec fn tag_model(t: Tag) -> TagModel
    decreases t,
{
    TagModel {
        number: t.number,
        offset: t.offset,
        payload: payload_model(t.payload),
    }
}

pub open spec fn payload_model(p: Payload) -> PayloadModel
    decreases p,
{
    match p {
        Payload::Primitive(v) => PayloadModel::Primitive(v@),
        Payload::Constructed(v) => PayloadModel::Constructed(tags_model(v@)),
    }
}

pub open spec fn tags_model(s: Seq<Tag>) -> Seq<TagModel>
    decreases s,
{
    if s.len() == 0 {
        Seq::empty()
    } else {
        tags_model(s.drop_last()).push(tag_model(s.last()))
    }
}

impl View for Tag {
    type V = TagModel;

    open spec fn view(&self) -> TagModel {
        tag_model(*self)
    }
}

/// The outcome of parsing at a position: a value and the position after it,
/// or an error kind and the position at which it was detected.
pub type Parsed<T> = Result<(T, int), (Kind, int)>;

pub open spec fn number_in_class(class: int, v: i64) -> Number {
    if class == 1 {
        Number::Application(v)
    } else if class == 2 {
        Number::ContextSpecific(v)
    } else {
        Number::Private(v)
    }
}

pub open spec fn flavor_of_bit(b: u8) -> Flavor {
    if (b / 32) % 2 == 0 {
        Flavor::Primitive
    } else {
        Flavor::Constructed
    }
}

/// An extended tag number at `p`, whose first `count` groups summed to `acc`:
/// 7 bits per byte, least significant group first, high bit set on every
/// byte but the last, at most 8 groups.
pub open spec fn parse_ext(s: Seq<u8>, p: int, count: nat, acc: nat) -> Parsed<nat>
    decreases 8 - count,
{
    if count >= 8 {
        Err((Kind::NumberOverflow, p))
    } else if p < 0 || p >= s.len() {
        Err((Kind::Io, p))
    } else {
        let b = s[p];
        let acc2 = acc + (b % 128) as nat * pow2(7 * count);
        if b < 128 {
            Ok((acc2, p + 1))
        } else {
            parse_ext(s, p + 1, count + 1, acc2)
        }
    }
}

/// The identifier at `p`: its flavor and its tag number.
pub open spec fn parse_ident(s: Seq<u8>, p: int) -> Parsed<(Flavor, Number)> {
    if p < 0 || p >= s.len() {
        Err((Kind::Io, p))
    } else {
        let b = s[p];
        let class = b / 64;
        let flavor = flavor_of_bit(b);
        let field = b % 32;
        if class == 0 {
            if field == 31 {
                Err((Kind::InvalidTypeAndFlavor, p + 1))
            } else {
                match type_of_code(field) {
                    Some(t) => Ok(((flavor, Number::Universal(t)), p + 1)),
                    None => Err((Kind::UnknownType, p + 1)),
                }
            }
        } else if field == 31 {
            match parse_ext(s, p + 1, 0, 0) {
                Ok((v, q)) => Ok(((flavor, number_in_class(class as int, v as i64)), q)),
                Err(e) => Err(e),
            }
        } else {
            Ok(((flavor, number_in_class(class as int, field as i64)), p + 1))
        }
    }
}

/// The unsigned big-endian value of the `n` bytes at `p`.
pub open spec fn be_value(s: Seq<u8>, p: int, n: nat) -> nat
    decreases n,
{
    if n == 0 {
        0
    } else {
        be_value(s, p, (n - 1) as nat) * 256 + s[p + n - 1] as nat
    }
}

/// The length field at `p`: `0x80` is indefinite, `0x81..=0x88` announce
/// that many big-endian bytes, any other byte below `0x80` is the length itself.
pub open spec fn parse_length(s: Seq<u8>, p: int) -> Parsed<Length> {
    if p < 0 || p >= s.len() {
        Err((Kind::Io, p))
    } else {
        let b = s[p];
        if b == 0x80 {
            Ok((Length::Indefinite, p + 1))
        } else if b > 0x80 {
            let n = (b - 0x80) as nat;
            if n > 8 {
                Err((Kind::NumberOverflow, p + 1))
            } else if p + 1 + n > s.len() {
                Err((Kind::Io, s.len() as int))
            } else {
                Ok((Length::Definite(be_value(s, p + 1, n) as u64), p + 1 + n))
            }
        } else {
            Ok((Length::Definite(b as u64), p + 1))
        }
    }
}

/// The tag whose identifier starts at `p`, nested `depth` levels below the
/// outermost tag.
pub open spec fn parse_tag(s: Seq<u8>, p: int, depth: nat) -> Parsed<TagModel>
    decreases (s.len() - p) as nat, 0nat,
    via parse_tag_decreases
{
    if p < 0 || p >= s.len() {
        Err((Kind::Io, p))
    } else {
        match parse_ident(s, p) {
            Err(e) => Err(e),
            Ok(((flavor, number), q1)) => match parse_length(s, q1) {
                Err(e) => Err(e),
                Ok((len, q2)) => if len == Length::Indefinite && flavor == Flavor::Primitive {
                    Err((Kind::InvalidLength, q2))
                } else {
                    match parse_payload(s, q2, flavor, len, depth) {
                        Err(e) => Err(e),
                        Ok((payload, r)) => Ok(
                            (TagModel { number, offset: Some(p as usize), payload }, r),
                        ),
                    }
                },
            },
        }
    }
}

/// The payload at `p` of a tag of the given flavor and length, nested `depth`
/// levels deep: `n` raw bytes for a primitive tag, a sequence of child tags
/// for a constructed one, whose children would stand at `depth + 1` and must
/// stay below `MAX_DEPTH`.
pub open spec fn parse_payload(
    s: Seq<u8>,
    p: int,
    flavor: Flavor,
    len: Length,
    depth: nat,
) -> Parsed<PayloadModel>
    decreases (s.len() - p) as nat, 2nat,
{
    match flavor {
        Flavor::Primitive => match len {
            Length::Indefinite => Err((Kind::InvalidLength, p)),
            Length::Definite(n) => if p + n > s.len() {
                Err((Kind::Io, p))
            } else {
                Ok((PayloadModel::Primitive(s.subrange(p, p + n)), p + n))
            },
        },
        Flavor::Constructed => if depth + 1 >= MAX_DEPTH {
            Err((Kind::DepthExceeded, p))
        } else {
            match parse_children(s, p, len, p, depth + 1) {
                Err(e) => Err(e),
                Ok((cs, r)) => Ok((PayloadModel::Constructed(cs), r)),
            }
        },
    }
}

/// Whether a child read at the end of a constructed payload closes it.
pub open spec fn ends_payload(len: Length, c: TagModel, q: int, start: int) -> bool {
    match len {
        Length::Definite(n) => q - start >= n,
        Length::Indefinite => false,
    }
}

pub open spec fn is_eoc(len: Length, c: TagModel) -> bool {
    len == Length::Indefinite && c.number == Number::Universal(Type::Eoc)
}

/// The children of a constructed payload that started at `start`, from `p` on:
/// an indefinite payload ends at an End-of-Contents child (consumed, not kept),
/// a definite one once `n` bytes have been consumed.
pub open spec fn parse_children(
    s: Seq<u8>,
    p: int,
    len: Length,
    start: int,
    depth: nat,
) -> Parsed<Seq<TagModel>>
    decreases (s.len() - p) as nat, 1nat,
{
    if p < 0 || p >= s.len() {
        // as `parse_tag` answers there
        Err((Kind::Io, p))
    } else {
        match parse_tag(s, p, depth) {
            Err(e) => Err(e),
            Ok((c, q)) => if is_eoc(len, c) {
                Ok((Seq::empty(), q))
            } else if ends_payload(len, c, q, start) {
                Ok((seq![c], q))
            } else if q <= p || q > s.len() {
                // never taken: a tag spans at least two bytes, all of them in `s`
                Err((Kind::Io, q))
            } else {
                match parse_children(s, q, len, start, depth) {
                    Err(e) => Err(e),
                    Ok((cs, r)) => Ok((seq![c] + cs, r)),
                }
            },
        }
    }
}

pub(crate) proof fn lemma_parse_ext_advances(s: Seq<u8>, p: int, count: nat, acc: nat)
    ensures
        parse_ext(s, p, count, acc) matches Ok((v, q)) ==> q > p,
    decreases 8 - count,
{
    if count < 8 && 0 <= p < s.len() && s[p] >= 128 {
        let acc2 = acc + (s[p] % 128) as nat * pow2(7 * count);
        lemma_parse_ext_advances(s, p + 1, count + 1, acc2);
    }
}

#[via_fn]
proof fn parse_tag_decreases(s: Seq<u8>, p: int, depth: nat) {
    if 0 <= p < s.len() {
        let b = s[p];
        if b / 64 != 0 && b % 32 == 31 {
            lemma_parse_ext_advances(s, p + 1, 0, 0);
        }
    }
}

/// The class that a tag number belongs to.
pub open spec fn class_of(n: Number) -> Class {
    match n {
        Number::Universal(_) => Class::Universal,
        Number::Application(_) => Class::Application,
        Number::ContextSpecific(_) => Class::ContextSpecific,
        Number::Private(_) => Class::Private,
    }
}

/// `r` is a success with value `v`, ending at `at`.
pub open spec fn yields<T>(r: Parsed<T>, v: T, at: int) -> bool {
    r is Ok && r->Ok_0.0 == v && r->Ok_0.1 == at
}

/// `r` is a failure of kind `k`, detected at `at`.
pub open spec fn fails_with<T>(r: Parsed<T>, k: Kind, at: int) -> bool {
    r is Err && r->Err_0.0 == k && r->Err_0.1 == at
}

spec fn prepend(pre: Seq<TagModel>, r: Parsed<Seq<TagModel>>) -> Parsed<Seq<TagModel>> {
    match r {
        Ok((cs, q)) => Ok((pre + cs, q)),
        Err(e) => Err(e),
    }
}

proof fn lemma_prepend_assoc(a: Seq<TagModel>, b: Seq<TagModel>, x: Parsed<Seq<TagModel>>)
    ensures
        prepend(a, prepend(b, x)) == prepend(a + b, x),
{
    if let Ok((cs, q)) = x {
        assert((a + b) + cs =~= a + (b + cs));
    }
}

proof fn lemma_tags_model_push(s: Seq<Tag>, t: Tag)
    ensures
        tags_model(s.push(t)) == tags_model(s).push(tag_model(t)),
{
    assert(s.push(t).drop_last() =~= s);
}

/// Reads an extended tag number: 7-bit groups, least significant first.
fn read_extended_number(r: &mut TrackedRead) -> (res: Result<i64, Error>)
    requires
        old(r).wf(),
    ensures
        final(r).wf(),
        final(r).data() == old(r).data(),
        final(r).pos() >= old(r).pos(),
        match res {
            Ok(v) => 0 <= v < 0x100_0000_0000_0000 && yields(
                parse_ext(old(r).data(), old(r).pos(), 0, 0),
                v as nat,
                final(r).pos(),
            ),
            Err(e) => fails_with(
                parse_ext(old(r).data(), old(r).pos(), 0, 0),
                e.kind,
                e.offset as int,
            ),
        },
{
    let ghost d = r.data();
    let ghost p0 = r.pos();
    let mut count: u32 = 0;
    let mut ret: u64 = 0;
    let mut scale: u64 = 1;
    proof {
        lemma2_to64();
        lemma2_to64_rest();
    }
    loop
        invariant
            d == old(r).data(),
            p0 == old(r).pos(),
            r.wf(),
            r.data() == d,
            r.pos() >= p0,
            count <= 8,
            scale == pow2(7 * count as nat),
            ret < scale,
            parse_ext(d, p0, 0, 0) == parse_ext(d, r.pos(), count as nat, ret as nat),
        decreases 8 - count,
    {
        if count >= 8 {
            return Err(Error::new(Kind::NumberOverflow, r.tell(), None));
        }
        let b = match r.read_u8() {
            Ok(b) => b,
            Err(e) => return Err(e),
        };
        let bits = (b % 128) as u64;
        proof {
            lemma2_to64();
            lemma2_to64_rest();
            if count < 7 {
                vstd::arithmetic::power2::lemma_pow2_strictly_increases(7 * count as nat, 49);
            }
            assert(scale <= 0x2_0000_0000_0000);
            assert(ret + bits * scale < 128 * scale) by (nonlinear_arith)
                requires
                    ret < scale,
                    bits < 128,
            ;
            lemma_pow2_adds(7 * count as nat, 7);
        }
        let acc = ret + bits * scale;
        if b < 128 {
            return Ok(acc as i64);
        }
        ret = acc;
        scale = scale * 128;
        count = count + 1;
        assert(7 * count as nat == 7 * (count - 1) as nat + 7);
    }
}

/// The number field itself, or the extended number that the escape announces.
fn maybe_read_extended_number(b: u8, r: &mut TrackedRead) -> (res: Result<i64, Error>)
    requires
        old(r).wf(),
    ensures
        final(r).wf(),
        final(r).data() == old(r).data(),
        final(r).pos() >= old(r).pos(),
        b != 0x1F ==> res == Ok::<i64, Error>(b as i64) && final(r).pos() == old(r).pos(),
        b == 0x1F ==> match res {
            Ok(v) => 0 <= v < 0x100_0000_0000_0000 && yields(
                parse_ext(old(r).data(), old(r).pos(), 0, 0),
                v as nat,
                final(r).pos(),
            ),
            Err(e) => fails_with(
                parse_ext(old(r).data(), old(r).pos(), 0, 0),
                e.kind,
                e.offset as int,
            ),
        },
{
    if b == 0x1F {
        read_extended_number(r)
    } else {
        Ok(b as i64)
    }
}

/// Reads an identifier: class, flavor and tag number.
fn read_identifiers(r: &mut TrackedRead) -> (res: Result<(Class, Flavor, Number), Error>)
    requires
        old(r).wf(),
    ensures
        final(r).wf(),
        final(r).data() == old(r).data(),
        final(r).pos() >= old(r).pos(),
        match res {
            Ok((c, f, n)) => c == class_of(n) && yields(
                parse_ident(old(r).data(), old(r).pos()),
                (f, n),
                final(r).pos(),
            ),
            Err(e) => fails_with(parse_ident(old(r).data(), old(r).pos()), e.kind, e.offset as int),
        },
{
    let b = match r.read_u8() {
        Ok(b) => b,
        Err(e) => return Err(e),
    };
    let class = match b / 64 {
        0 => Class::Universal,
        1 => Class::Application,
        2 => Class::ContextSpecific,
        _ => Class::Private,
    };
    let flavor = if (b / 32) % 2 == 0 {
        Flavor::Primitive
    } else {
        Flavor::Constructed
    };
    let field = b % 32;
    let number = match class {
        Class::Universal => {
            if field == 0x1F {
                // the escape is only valid outside the universal class
                return Err(Error::new(Kind::InvalidTypeAndFlavor, r.tell(), None));
            }
            match Type::from_code(field) {
                Some(t) => Number::Universal(t),
                None => return Err(Error::new(Kind::UnknownType, r.tell(), None)),
            }
        },
        Class::Application => match maybe_read_extended_number(field, r) {
            Ok(v) => Number::Application(v),
            Err(e) => return Err(e),
        },
        Class::ContextSpecific => match maybe_read_extended_number(field, r) {
            Ok(v) => Number::ContextSpecific(v),
            Err(e) => return Err(e),
        },
        Class::Private => match maybe_read_extended_number(field, r) {
            Ok(v) => Number::Private(v),
            Err(e) => return Err(e),
        },
    };
    Ok((class, flavor, number))
}

/// Reads a length field in short, long or indefinite form.
fn read_length(r: &mut TrackedRead) -> (res: Result<Length, Error>)
    requires
        old(r).wf(),
    ensures
        final(r).wf(),
        final(r).data() == old(r).data(),
        final(r).pos() >= old(r).pos(),
        match res {
            Ok(l) => yields(parse_length(old(r).data(), old(r).pos()), l, final(r).pos()),
            Err(e) => fails_with(
                parse_length(old(r).data(), old(r).pos()),
                e.kind,
                e.offset as int,
            ),
        },
{
    let ghost d = r.data();
    let ghost p0 = r.pos();
    let b = match r.read_u8() {
        Ok(b) => b,
        Err(e) => return Err(e),
    };
    if b == 0x80 {
        Ok(Length::Indefinite)
    } else if b > 0x80 {
        // long form
        let count = b - 0x80;
        if count > 8 {
            return Err(Error::new(Kind::NumberOverflow, r.tell(), None));
        }
        let mut ret: u64 = 0;
        let mut i: u8 = 0;
        proof {
            lemma2_to64();
            lemma2_to64_rest();
        }
        while i < count
            invariant
                d == old(r).data(),
                p0 == old(r).pos(),
                p0 < d.len(),
                d[p0] == b,
                b > 0x80,
                count == b - 0x80,
                r.wf(),
                r.data() == d,
                r.pos() == p0 + 1 + i,
                i <= count <= 8,
                ret == be_value(d, p0 + 1, i as nat),
                ret < pow2(8 * i as nat),
            decreases count - i,
        {
            let x = match r.read_u8() {
                Ok(x) => x,
                Err(e) => return Err(e),
            };
            proof {
                lemma2_to64();
                lemma2_to64_rest();
                if i < 7 {
                    vstd::arithmetic::power2::lemma_pow2_strictly_increases(8 * i as nat, 56);
                }
                assert(ret * 256 + x < pow2(8 * i as nat) * 256) by (nonlinear_arith)
                    requires
                        ret < pow2(8 * i as nat),
                        x < 256,
                ;
                lemma_pow2_adds(8 * i as nat, 8);
                assert(8 * (i + 1) as nat == 8 * i as nat + 8);
            }
            ret = ret * 256 + x as u64;
            i = i + 1;
        }
        Ok(Length::Definite(ret))
    } else {
        Ok(Length::Definite(b as u64))
    }
}

/// Reads the payload of a tag whose identifier and length have been read.
fn read_payload(
    length: &Length,
    flavor: &Flavor,
    r: &mut TrackedRead,
    depth: usize,
) -> (res: Result<Payload, Error>)
    requires
        old(r).wf(),
        !(*length == Length::Indefinite && *flavor == Flavor::Primitive),
    ensures
        final(r).wf(),
        final(r).data() == old(r).data(),
        final(r).pos() >= old(r).pos(),
        match res {
            Ok(pl) => yields(
                parse_payload(old(r).data(), old(r).pos(), *flavor, *length, depth as nat),
                payload_model(pl),
                final(r).pos(),
            ),
            Err(e) => fails_with(
                parse_payload(old(r).data(), old(r).pos(), *flavor, *length, depth as nat),
                e.kind,
                e.offset as int,
            ),
        },
    decreases old(r).data().len() - old(r).pos(), 1nat,
{
    let ghost d = r.data();
    match flavor {
        Flavor::Primitive => {
            let n = match length {
                Length::Definite(n) => *n,
                Length::Indefinite => 0,
            };
            match r.read_exact(n) {
                Ok(buf) => Ok(Payload::Primitive(buf)),
                Err(e) => Err(e),
            }
        },
        Flavor::Constructed => {
            if depth >= MAX_DEPTH - 1 {
                return Err(Error::new(Kind::DepthExceeded, r.tell(), None));
            }
            let start = r.tell();
            let mut children: Vec<Tag> = Vec::new();
            proof {
                assert(tags_model(children@) + seq![] =~= seq![]);
                assert(forall|x: Parsed<Seq<TagModel>>| prepend(seq![], x) == x) by {
                    assert forall|x: Parsed<Seq<TagModel>>| prepend(seq![], x) == x by {
                        if let Ok((cs, q)) = x {
                            assert(Seq::<TagModel>::empty() + cs =~= cs);
                        }
                    }
                }
            }
            loop
                invariant
                    d == old(r).data(),
                    *flavor == Flavor::Constructed,
                    depth + 1 < MAX_DEPTH,
                    r.wf(),
                    r.data() == d,
                    start <= r.pos(),
                    start == old(r).pos(),
                    parse_children(d, start as int, *length, start as int, (depth + 1) as nat)
                        == prepend(
                        tags_model(children@),
                        parse_children(d, r.pos(), *length, start as int, (depth + 1) as nat),
                    ),
                decreases d.len() - r.pos(),
            {
                let ghost cur = r.pos();
                let child = match Tag::inner_read(r, depth + 1) {
                    Ok(c) => c,
                    Err(e) => return Err(e),
                };
                if *length == Length::Indefinite && child.number == Number::Universal(Type::Eoc) {
                    // the End-of-Contents marker closes an indefinite payload
                    proof {
                        assert(tags_model(children@) + seq![] =~= tags_model(children@));
                    }
                    return Ok(Payload::Constructed(children));
                }
                let ghost before = children@;
                children.push(child);
                proof {
                    lemma_tags_model_push(before, child);
                    lemma_prepend_assoc(
                        tags_model(before),
                        seq![child@],
                        parse_children(d, r.pos(), *length, start as int, (depth + 1) as nat),
                    );
                    assert(tags_model(before) + seq![child@] =~= tags_model(children@));
                }
                if let Length::Definite(l) = length {
                    if (r.tell() - start) as u64 >= *l {
                        return Ok(Payload::Constructed(children));
                    }
                }
            }
        },
    }
}

impl Tag {
    fn inner_read(r: &mut TrackedRead, depth: usize) -> (res: Result<Tag, Error>)
        requires
            old(r).wf(),
        ensures
            final(r).wf(),
            final(r).data() == old(r).data(),
            final(r).pos() >= old(r).pos(),
            match res {
                Ok(t) => final(r).pos() > old(r).pos() && yields(
                    parse_tag(old(r).data(), old(r).pos(), depth as nat),
                    t@,
                    final(r).pos(),
                ),
                Err(e) => fails_with(
                    parse_tag(old(r).data(), old(r).pos(), depth as nat),
                    e.kind,
                    e.offset as int,
                ),
            },
        decreases old(r).data().len() - old(r).pos(), 0nat,
    {
        let offset = r.tell();
        let (_class, flavor, number) = match read_identifiers(r) {
            Ok(x) => x,
            Err(e) => return Err(e),
        };
        let length = match read_length(r) {
            Ok(x) => x,
            Err(e) => return Err(e),
        };
        if length == Length::Indefinite && flavor == Flavor::Primitive {
            return Err(Error::new(Kind::InvalidLength, r.tell(), None));
        }
        let payload = match read_payload(&length, &flavor, r, depth) {
            Ok(x) => x,
            Err(e) => return Err(e),
        };
        Ok(Tag { number: number, offset: Some(offset), payload: payload })
    }

    /// Decodes one tag, with all its children, from the cursor's position on.
    /// Each tag records the offset of its identifier byte.
    pub fn read(r: &mut TrackedRead) -> (res: Result<Tag, Error>)
        requires
            old(r).wf(),
        ensures
            final(r).wf(),
            final(r).data() == old(r).data(),
            match res {
                Ok(t) => yields(parse_tag(old(r).data(), old(r).pos(), 0), t@, final(r).pos()),
                Err(e) => fails_with(
                    parse_tag(old(r).data(), old(r).pos(), 0),
                    e.kind,
                    e.offset as int,
                ),
            },
    {
        Tag::inner_read(r, 0)
    }
}

/// A tag number of a non-universal class read as an unsigned 64-bit value.
pub open spec fn number_value(n: i64) -> nat {
    if n >= 0 {
        n as nat
    } else {
        (n + 0x1_0000_0000_0000_0000) as nat
    }
}

/// An extended tag number: 7 bits per byte, least significant group first,
/// the high bit set on every byte but the last.
pub open spec fn ext_bytes(v: nat) -> Seq<u8>
    decreases v,
{
    if v < 128 {
        seq![v as u8]
    } else {
        seq![(v % 128 + 128) as u8] + ext_bytes(v / 128)
    }
}

pub open spec fn class_code(c: Class) -> nat {
    match c {
        Class::Universal => 0,
        Class::Application => 1,
        Class::ContextSpecific => 2,
        Class::Private => 3,
    }
}

pub open spec fn flavor_code(f: Flavor) -> nat {
    match f {
        Flavor::Primitive => 0,
        Flavor::Constructed => 1,
    }
}

/// The identifier of a tag: class, flavor and the 5-bit number field, then
/// the extended number when the field holds the escape `0x1F`.
pub open spec fn ident_bytes(n: Number, f: Flavor) -> Seq<u8> {
    let head = class_code(class_of(n)) * 64 + flavor_code(f) * 32;
    match n {
        Number::Universal(t) => seq![(head + type_code(t)) as u8],
        Number::Application(x) | Number::ContextSpecific(x) | Number::Private(x) => {
            let v = number_value(x);
            if v < 0x1F {
                seq![(head + v) as u8]
            } else {
                seq![(head + 0x1F) as u8] + ext_bytes(v)
            }
        },
    }
}

/// The last `n` bytes of `v` in big-endian order.
pub open spec fn be_bytes(v: nat, n: nat) -> Seq<u8>
    decreases n,
{
    if n == 0 {
        Seq::empty()
    } else {
        be_bytes(v / 256, (n - 1) as nat).push((v % 256) as u8)
    }
}

/// The least number of bytes that hold `v`.
pub open spec fn byte_count(v: u64) -> nat {
    if v < 0x100 {
        1
    } else if v < 0x1_0000 {
        2
    } else if v < 0x100_0000 {
        3
    } else if v < 0x1_0000_0000 {
        4
    } else if v < 0x100_0000_0000 {
        5
    } else if v < 0x1_0000_0000_0000 {
        6
    } else if v < 0x100_0000_0000_0000 {
        7
    } else {
        8
    }
}

/// A length field: `0x80` for indefinite; one byte for a value below `0x1F`;
/// otherwise `0x80` plus the byte count, then the value in that many
/// big-endian bytes.
pub open spec fn length_bytes(l: Length) -> Seq<u8> {
    match l {
        Length::Indefinite => seq![0x80u8],
        Length::Definite(v) => if v < 0x1F {
            seq![v as u8]
        } else {
            seq![(0x80 + byte_count(v)) as u8] + be_bytes(v as nat, byte_count(v))
        },
    }
}

/// The encoding of a tag. A constructed payload is always written with the
/// indefinite length and closed by the two End-of-Contents bytes.
pub open spec fn encode_tag(t: TagModel) -> Seq<u8>
    decreases t,
{
    match t.payload {
        PayloadModel::Primitive(b) => ident_bytes(t.number, Flavor::Primitive) + length_bytes(
            Length::Definite(b.len() as u64),
        ) + b,
        PayloadModel::Constructed(cs) => ident_bytes(t.number, Flavor::Constructed) + seq![0x80u8]
            + encode_tags(cs) + seq![0u8, 0u8],
    }
}

/// The encodings of `cs`, one after the other.
pub open spec fn encode_tags(cs: Seq<TagModel>) -> Seq<u8>
    decreases cs,
{
    if cs.len() == 0 {
        Seq::empty()
    } else {
        encode_tags(cs.drop_last()) + encode_tag(cs.last())
    }
}

pub open spec fn encode_payload(p: PayloadModel) -> Seq<u8> {
    match p {
        PayloadModel::Primitive(b) => b,
        PayloadModel::Constructed(cs) => encode_tags(cs),
    }
}

/// Writes an extended tag number, least significant group first.
fn write_extended_number(w: &mut Vec<u8>, num: u64)
    ensures
        final(w)@ == old(w)@ + ext_bytes(num as nat),
{
    let mut n = num;
    while n >= 128
        invariant
            old(w)@ + ext_bytes(num as nat) == w@ + ext_bytes(n as nat),
        decreases n,
    {
        let ghost before = w@;
        w.push((n % 128 + 128) as u8);
        assert(before + ext_bytes(n as nat) =~= w@ + ext_bytes((n / 128) as nat));
        n = n / 128;
    }
    let ghost before = w@;
    w.push(n as u8);
    assert(before + ext_bytes(n as nat) =~= w@);
}

/// Writes the extended number when the identifier's field holds the escape.
fn maybe_write_extended_number(w: &mut Vec<u8>, num: u64)
    ensures
        num >= 0x1F ==> final(w)@ == old(w)@ + ext_bytes(num as nat),
        num < 0x1F ==> final(w)@ == old(w)@,
{
    if num >= 0x1F {
        write_extended_number(w, num)
    }
}

/// The number as an unsigned 64-bit value.
fn unsigned_number(n: i64) -> (r: u64)
    ensures
        r == number_value(n),
{
    if n >= 0 {
        n as u64
    } else {
        (n + 0x7FFF_FFFF_FFFF_FFFF + 1) as u64 + 0x8000_0000_0000_0000
    }
}

/// Writes an identifier: class, flavor and tag number.
fn write_identifiers(w: &mut Vec<u8>, class: &Class, flavor: &Flavor, number: &Number)
    requires
        *class == class_of(*number),
    ensures
        final(w)@ == old(w)@ + ident_bytes(*number, *flavor),
{
    let c: u8 = match class {
        Class::Universal => 0,
        Class::Application => 1,
        Class::ContextSpecific => 2,
        Class::Private => 3,
    };
    let f: u8 = match flavor {
        Flavor::Primitive => 0,
        Flavor::Constructed => 1,
    };
    let field: u8 = match number {
        Number::Universal(t) => t.code(),
        Number::Application(n) | Number::ContextSpecific(n) | Number::Private(n) => {
            let v = unsigned_number(*n);
            if v >= 0x1F {
                0x1F
            } else {
                v as u8
            }
        },
    };
    let ghost before = w@;
    w.push(c * 64 + f * 32 + field);
    match number {
        Number::Application(n) | Number::ContextSpecific(n) | Number::Private(n) => {
            maybe_write_extended_number(w, unsigned_number(*n));
        },
        _ => {},
    }
    assert(w@ =~= before + ident_bytes(*number, *flavor));
}

/// Writes the last `n` bytes of `v`, the most significant first.
fn write_be(w: &mut Vec<u8>, v: u64, n: u8)
    ensures
        final(w)@ == old(w)@ + be_bytes(v as nat, n as nat),
    decreases n,
{
    if n > 0 {
        write_be(w, v / 256, n - 1);
        let ghost mid = w@;
        w.push((v % 256) as u8);
        assert(w@ =~= old(w)@ + be_bytes(v as nat, n as nat));
    } else {
        assert(w@ =~= old(w)@ + be_bytes(v as nat, n as nat));
    }
}

/// Writes a length field; long form from `0x1F` on.
fn write_length(w: &mut Vec<u8>, length: &Length)
    ensures
        final(w)@ == old(w)@ + length_bytes(*length),
{
    match length {
        Length::Indefinite => {
            w.push(0x80);
            assert(w@ =~= old(w)@ + length_bytes(*length));
        },
        Length::Definite(l) => {
            let l = *l;
            if l < 0x1F {
                w.push(l as u8);
                assert(w@ =~= old(w)@ + length_bytes(*length));
            } else {
                let count: u8 = if l < 0x100 {
                    1
                } else if l < 0x1_0000 {
                    2
                } else if l < 0x100_0000 {
                    3
                } else if l < 0x1_0000_0000 {
                    4
                } else if l < 0x100_0000_0000 {
                    5
                } else if l < 0x1_0000_0000_0000 {
                    6
                } else if l < 0x100_0000_0000_0000 {
                    7
                } else {
                    8
                };
                w.push(count | 0x80);
                assert(count | 0x80 == 0x80 + count) by (bit_vector)
                    requires
                        count <= 8,
                ;
                let ghost mid = w@;
                // the largest bytes first
                write_be(w, l, count);
                assert(w@ =~= old(w)@ + length_bytes(*length));
            }
        },
    }
}

/// Writes a payload: raw bytes, or each child's encoding in order.
fn write_payload(w: &mut Vec<u8>, payload: &Payload)
    ensures
        final(w)@ == old(w)@ + encode_payload(payload_model(*payload)),
    decreases payload,
{
    match payload {
        Payload::Primitive(v) => {
            let mut i: usize = 0;
            while i < v.len()
                invariant
                    *payload == Payload::Primitive(*v),
                    w@ == old(w)@ + v@.subrange(0, i as int),
                    i <= v.len(),
                decreases v.len() - i,
            {
                w.push(v[i]);
                assert(v@.subrange(0, i + 1) =~= v@.subrange(0, i as int).push(v[i as int]));
                i = i + 1;
            }
            assert(v@.subrange(0, v.len() as int) =~= v@);
        },
        Payload::Constructed(v) => {
            let mut i: usize = 0;
            while i < v.len()
                invariant
                    *payload == Payload::Constructed(*v),
                    w@ == old(w)@ + encode_tags(tags_model(v@.subrange(0, i as int))),
                    i <= v.len(),
                decreases v.len() - i,
            {
                proof {
                    vstd::std_specs::vec::axiom_vec_index_decreases(*v, i as int);
                    assert(decreases_to!(*payload => payload->Constructed_0));
                    assert(decreases_to!(*payload => v[i as int]));
                }
                v[i].write(w);
                proof {
                    assert(v@.subrange(0, i + 1) =~= v@.subrange(0, i as int).push(v[i as int]));
                    lemma_tags_model_push(v@.subrange(0, i as int), v[i as int]);
                    let ms = tags_model(v@.subrange(0, i as int));
                    assert(ms.push(v[i as int]@).drop_last() =~= ms);
                    assert(w@ =~= old(w)@ + encode_tags(tags_model(v@.subrange(0, i + 1))));
                }
                i = i + 1;
            }
            assert(v@.subrange(0, v.len() as int) =~= v@);
        },
    }
}

impl Tag {
    /// Appends the encoding of the tag to `w`.
    pub fn write(&self, w: &mut Vec<u8>)
        ensures
            final(w)@ == old(w)@ + encode_tag(self@),
        decreases self,
    {
        let class = match self.number {
            Number::Universal(_) => Class::Universal,
            Number::Application(_) => Class::Application,
            Number::ContextSpecific(_) => Class::ContextSpecific,
            Number::Private(_) => Class::Private,
        };
        let (flavor, length) = match &self.payload {
            Payload::Primitive(v) => (Flavor::Primitive, Length::Definite(v.len() as u64)),
            Payload::Constructed(_) => (Flavor::Constructed, Length::Indefinite),
        };
        write_identifiers(w, &class, &flavor, &self.number);
        write_length(w, &length);
        write_payload(w, &self.payload);
        if length == Length::Indefinite {
            w.push(0x00);
            w.push(0x00);
        }
        assert(w@ =~= old(w)@ + encode_tag(self@));
    }
}

} // verus!
