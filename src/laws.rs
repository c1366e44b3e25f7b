use vstd::prelude::*;

use vstd::arithmetic::power2::{lemma2_to64, lemma2_to64_rest, lemma_pow2_adds, pow2};

use crate::err::Kind;
use crate::tag::{
    be_bytes, be_value, byte_count, class_code, class_of, encode_tag, encode_tags, ends_payload,
    ext_bytes, flavor_code, flavor_of_bit, ident_bytes, is_eoc, lemma_parse_ext_advances,
    length_bytes, number_in_class, number_value, parse_children, parse_ext, parse_ident,
    parse_length, parse_payload, parse_tag, type_code, type_of_code, Flavor, Length, MAX_DEPTH,
    Number, Parsed, PayloadModel, TagModel, Type,
};

verus! {

proof fn lemma_ext_len(v: nat)
    ensures
        ext_bytes(v).len() >= 1,
        ext_bytes(v)[0] < 128 <==> v < 128,
    decreases v,
{
    if v >= 128 {
        lemma_ext_len(v / 128);
    }
}

/// Reading back an extended number whose groups fit in the groups left.
proof fn lemma_ext_round_trip(s: Seq<u8>, p: int, v: nat, count: nat, acc: nat)
    requires
        0 <= p,
        count < 8,
        v < pow2((7 * (8 - count)) as nat),
        p + ext_bytes(v).len() <= s.len(),
        s.subrange(p, p + ext_bytes(v).len()) == ext_bytes(v),
    ensures
        parse_ext(s, p, count, acc) == Parsed::<nat>::Ok(
            (acc + v * pow2(7 * count), p + ext_bytes(v).len()),
        ),
    decreases v,
{
    lemma_ext_len(v);
    assert(s[p] == s.subrange(p, p + ext_bytes(v).len())[0]);
    if v < 128 {
        assert(s[p] == v);
    } else {
        let rest = ext_bytes(v / 128);
        assert(ext_bytes(v) == seq![(v % 128 + 128) as u8] + rest);
        assert(s[p] == (v % 128 + 128) as u8);
        lemma_pow2_adds(7 * count, 7);
        lemma_pow2_adds((7 * (8 - (count + 1))) as nat, 7);
        lemma2_to64();
        assert(7 * (8 - count) == 7 * (8 - (count + 1)) + 7);
        let big = pow2((7 * (8 - (count + 1))) as nat);
        assert(v / 128 < big) by (nonlinear_arith)
            requires
                v < big * 128,
        ;
        if count + 1 >= 8 {
            assert(big == 1);
        }
        assert(s.subrange(p + 1, p + 1 + rest.len()) =~= rest) by {
            assert forall|i: int| 0 <= i < rest.len() implies s.subrange(
                p + 1,
                p + 1 + rest.len(),
            )[i] == rest[i] by {
                assert(s[p + 1 + i] == s.subrange(p, p + ext_bytes(v).len())[1 + i]);
            }
        }
        let acc2 = acc + (v % 128) * pow2(7 * count);
        assert((s[p] % 128) as nat == v % 128);
        lemma_ext_round_trip(s, p + 1, v / 128, count + 1, acc2);
        let e = pow2(7 * count);
        assert(acc2 + (v / 128) * (e * 128) == acc + v * e) by (nonlinear_arith)
            requires
                acc2 == acc + (v % 128) * e,
        ;
    }
}

proof fn lemma_type_code_round_trip(t: crate::tag::Type)
    ensures
        type_of_code(type_code(t)) == Some(t),
        type_code(t) < 31,
{
}

/// Whether a tag number's extended form fits in eight 7-bit groups.
pub open spec fn number_fits(n: Number) -> bool {
    match n {
        Number::Universal(_) => true,
        Number::Application(x) | Number::ContextSpecific(x) | Number::Private(x) => number_value(x)
            < 0x100_0000_0000_0000,
    }
}

/// Whether the number's identifier needs the extended form.
pub open spec fn is_extended(n: Number) -> bool {
    match n {
        Number::Universal(_) => false,
        Number::Application(x) | Number::ContextSpecific(x) | Number::Private(x) => number_value(x)
            >= 0x1F,
    }
}

proof fn lemma_ident_at(s: Seq<u8>, p: int, n: Number, f: Flavor)
    requires
        number_fits(n),
        0 <= p,
        p + ident_bytes(n, f).len() <= s.len(),
        s.subrange(p, p + ident_bytes(n, f).len()) == ident_bytes(n, f),
    ensures
        parse_ident(s, p) == Parsed::<(Flavor, Number)>::Ok(
            ((f, n), p + ident_bytes(n, f).len()),
        ),
        ident_bytes(n, f)[0] % 32 == 0x1F <==> is_extended(n),
        ident_bytes(n, f).len() == 1 <==> !is_extended(n),
{
    let id = ident_bytes(n, f);
    let c = class_code(class_of(n));
    let fc = flavor_code(f);
    let head = c * 64 + fc * 32;
    assert(s[p] == s.subrange(p, p + id.len())[0]);
    match n {
        Number::Universal(t) => {
            lemma_type_code_round_trip(t);
            let b = (head + type_code(t)) as u8;
            assert(s[p] == b);
            let tc = type_code(t);
            assert(b / 64 == 0 && b % 32 == tc && flavor_of_bit(b) == f) by (nonlinear_arith)
                requires
                    b == fc * 32 + tc,
                    tc < 31,
                    fc < 2,
                    f == (if fc == 0 { Flavor::Primitive } else { Flavor::Constructed }),
                    flavor_of_bit(b) == (if (b / 32) % 2 == 0 {
                        Flavor::Primitive
                    } else {
                        Flavor::Constructed
                    }),
            ;
        },
        Number::Application(x) | Number::ContextSpecific(x) | Number::Private(x) => {
            let v = number_value(x);
            let field: nat = if v < 0x1F { v } else { 0x1F };
            let b = (head + field) as u8;
            assert(s[p] == b);
            assert(b / 64 == c && b % 32 == field && flavor_of_bit(b) == f) by (nonlinear_arith)
                requires
                    b == c * 64 + fc * 32 + field,
                    1 <= c <= 3,
                    field < 32,
                    fc < 2,
                    f == (if fc == 0 { Flavor::Primitive } else { Flavor::Constructed }),
                    flavor_of_bit(b) == (if (b / 32) % 2 == 0 {
                        Flavor::Primitive
                    } else {
                        Flavor::Constructed
                    }),
            ;
            assert(number_in_class(c as int, v as i64) == n);
            if v >= 0x1F {
                let e = ext_bytes(v);
                assert(id == seq![b] + e);
                lemma2_to64();
                lemma2_to64_rest();
                assert(s.subrange(p + 1, p + 1 + e.len() as int) =~= e) by {
                    assert forall|k: int| 0 <= k < e.len() implies #[trigger] s.subrange(
                        p + 1,
                        p + 1 + e.len() as int,
                    )[k] == e[k] by {
                        assert(s[p + 1 + k] == s.subrange(p, p + id.len())[1 + k]);
                    }
                }
                lemma_ext_round_trip(s, p + 1, v, 0, 0);
                lemma_ext_len(v);
            }
        },
    }
}

/// Every tag number, in either flavor, reads back from its identifier
/// encoding, as long as an extended number fits in eight 7-bit groups.
/// Numbers below `0x1F` take the single identifier byte; from `0x1F` on the
/// field holds the escape and the extended number follows.
pub proof fn lemma_number_round_trip(n: Number, f: Flavor, rest: Seq<u8>)
    requires
        number_fits(n),
    ensures
        parse_ident(ident_bytes(n, f) + rest, 0) == Parsed::<(Flavor, Number)>::Ok(
            ((f, n), ident_bytes(n, f).len() as int),
        ),
        ident_bytes(n, f)[0] % 32 == 0x1F <==> is_extended(n),
        ident_bytes(n, f).len() == 1 <==> !is_extended(n),
{
    let id = ident_bytes(n, f);
    assert((id + rest).subrange(0, id.len() as int) =~= id);
    lemma_ident_at(id + rest, 0, n, f);
}

proof fn lemma_be_len(v: nat, n: nat)
    ensures
        be_bytes(v, n).len() == n,
    decreases n,
{
    if n > 0 {
        lemma_be_len(v / 256, (n - 1) as nat);
    }
}

/// Reading back `n` big-endian bytes of a value that fits in them.
proof fn lemma_be_round_trip(s: Seq<u8>, p: int, v: nat, n: nat)
    requires
        0 <= p,
        p + n <= s.len(),
        s.subrange(p, p + n) == be_bytes(v, n),
        v < pow2(8 * n),
    ensures
        be_value(s, p, n) == v,
    decreases n,
{
    lemma2_to64();
    if n > 0 {
        let m = (n - 1) as nat;
        lemma_be_len(v / 256, m);
        assert(s.subrange(p, p + m) =~= be_bytes(v / 256, m)) by {
            assert forall|i: int| 0 <= i < m implies #[trigger] s.subrange(p, p + m)[i] == be_bytes(
                v / 256,
                m,
            )[i] by {
                assert(s[p + i] == s.subrange(p, p + n)[i]);
            }
        }
        assert(s[p + m] == s.subrange(p, p + n)[m as int]);
        lemma_pow2_adds(8 * m, 8);
        assert(8 * n == 8 * m + 8);
        let big = pow2(8 * m);
        assert(v / 256 < big) by (nonlinear_arith)
            requires
                v < big * 256,
        ;
        lemma_be_round_trip(s, p, v / 256, m);
    }
}

/// The byte count of a length is the least one that holds it.
pub proof fn lemma_byte_count_minimal(v: u64)
    ensures
        1 <= byte_count(v) <= 8,
        v < pow2(8 * byte_count(v)),
        byte_count(v) == 1 || v >= pow2(8 * (byte_count(v) - 1) as nat),
{
    lemma2_to64();
    lemma2_to64_rest();
}

proof fn lemma_length_at(s: Seq<u8>, p: int, l: Length)
    requires
        0 <= p,
        p + length_bytes(l).len() <= s.len(),
        s.subrange(p, p + length_bytes(l).len()) == length_bytes(l),
    ensures
        parse_length(s, p) == Parsed::<Length>::Ok((l, p + length_bytes(l).len())),
        l matches Length::Definite(v) ==> (v < 0x1F <==> length_bytes(l).len() == 1),
        l matches Length::Definite(v) ==> (v >= 0x1F ==> length_bytes(l)[0] == 0x80 + byte_count(
            v,
        ) && length_bytes(l).len() == 1 + byte_count(v)),
{
    let lb = length_bytes(l);
    assert(s[p] == s.subrange(p, p + lb.len())[0]);
    match l {
        Length::Indefinite => {},
        Length::Definite(v) => {
            if v >= 0x1F {
                let n = byte_count(v);
                lemma_byte_count_minimal(v);
                lemma_be_len(v as nat, n);
                assert(s.subrange(p + 1, p + 1 + n as int) =~= be_bytes(v as nat, n)) by {
                    assert forall|k: int| 0 <= k < n implies #[trigger] s.subrange(
                        p + 1,
                        p + 1 + n as int,
                    )[k] == be_bytes(v as nat, n)[k] by {
                        assert(s[p + 1 + k] == s.subrange(p, p + lb.len())[1 + k]);
                    }
                }
                lemma_be_round_trip(s, p + 1, v as nat, n);
            }
        },
    }
}

/// Every length reads back from its encoding. Values below `0x1F` take the
/// one-byte short form; from `0x1F` on, the long form announces the least
/// number of big-endian bytes that hold the value.
pub proof fn lemma_length_round_trip(l: Length, rest: Seq<u8>)
    ensures
        parse_length(length_bytes(l) + rest, 0) == Parsed::<Length>::Ok(
            (l, length_bytes(l).len() as int),
        ),
        l matches Length::Definite(v) ==> (v < 0x1F <==> length_bytes(l).len() == 1),
        l matches Length::Definite(v) ==> (v >= 0x1F ==> length_bytes(l)[0] == 0x80 + byte_count(
            v,
        ) && length_bytes(l).len() == 1 + byte_count(v)),
{
    let lb = length_bytes(l);
    assert((lb + rest).subrange(0, lb.len() as int) =~= lb);
    lemma_length_at(lb + rest, 0, l);
}

proof fn lemma_ext_overflow(s: Seq<u8>, p: int, count: nat, acc: nat)
    requires
        0 <= p,
        count <= 8,
        p + (8 - count) <= s.len(),
        forall|i: int| p <= i < p + (8 - count) ==> s[i] >= 128,
    ensures
        parse_ext(s, p, count, acc) == Parsed::<nat>::Err((Kind::NumberOverflow, p + (8 - count))),
    decreases 8 - count,
{
    if count < 8 {
        let acc2 = acc + (s[p] % 128) as nat * pow2(7 * count);
        lemma_ext_overflow(s, p + 1, count + 1, acc2);
    }
}

proof fn lemma_ext_bound(s: Seq<u8>, p: int, count: nat, acc: nat)
    requires
        count <= 8,
        acc < pow2(7 * count),
    ensures
        parse_ext(s, p, count, acc) matches Ok((v, q)) ==> v < 0x100_0000_0000_0000,
    decreases 8 - count,
{
    lemma2_to64();
    lemma2_to64_rest();
    if count < 8 && 0 <= p < s.len() {
        let e = pow2(7 * count);
        let acc2 = acc + (s[p] % 128) as nat * e;
        lemma_pow2_adds(7 * count, 7);
        assert(acc2 < e * 128) by (nonlinear_arith)
            requires
                acc < e,
                acc2 == acc + (s[p] % 128) as nat * e,
        ;
        assert(7 * (count + 1) == 7 * count + 7);
        if count + 1 == 8 {
            assert(acc2 < 0x100_0000_0000_0000);
        }
        lemma_ext_bound(s, p + 1, count + 1, acc2);
    }
}

/// Tag numbers read from an identifier fit in eight 7-bit groups.
proof fn lemma_ident_number_bound(s: Seq<u8>, p: int)
    ensures
        parse_ident(s, p) matches Ok(((f, n), q)) ==> number_fits(n),
{
    lemma2_to64();
    lemma_ext_bound(s, p + 1, 0, 0);
}

/// A long-form length byte that announces more than 8 bytes is refused with
/// `NumberOverflow`, detected right after that byte: no byte after it is read.
pub proof fn lemma_long_length_overflow(s: Seq<u8>, p: int, depth: nat)
    requires
        parse_ident(s, p) is Ok,
        0 <= parse_ident(s, p)->Ok_0.1 < s.len(),
        s[parse_ident(s, p)->Ok_0.1] > 0x88,
    ensures
        parse_tag(s, p, depth) == Parsed::<TagModel>::Err(
            (Kind::NumberOverflow, parse_ident(s, p)->Ok_0.1 + 1),
        ),
{
}

/// An extended tag number whose eight groups all carry the continuation bit
/// is refused with `NumberOverflow`, detected after those eight bytes: the
/// ninth is not read.
pub proof fn lemma_extended_number_overflow(s: Seq<u8>, p: int, depth: nat)
    requires
        0 <= p,
        p + 9 <= s.len(),
        s[p] / 64 != 0,
        s[p] % 32 == 0x1F,
        forall|i: int| p + 1 <= i < p + 9 ==> s[i] >= 128,
    ensures
        parse_tag(s, p, depth) == Parsed::<TagModel>::Err((Kind::NumberOverflow, p + 9)),
{
    lemma_ext_overflow(s, p + 1, 0, 0);
}

/// A primitive identifier followed by the indefinite length byte `0x80` is
/// refused with `InvalidLength`, detected after the length byte.
pub proof fn lemma_indefinite_primitive_rejected(s: Seq<u8>, p: int, depth: nat)
    requires
        parse_ident(s, p) is Ok,
        parse_ident(s, p)->Ok_0.0.0 == Flavor::Primitive,
        0 <= parse_ident(s, p)->Ok_0.1 < s.len(),
        s[parse_ident(s, p)->Ok_0.1] == 0x80,
    ensures
        parse_tag(s, p, depth) == Parsed::<TagModel>::Err(
            (Kind::InvalidLength, parse_ident(s, p)->Ok_0.1 + 1),
        ),
{
}

/// An identifier byte of the universal class that holds the escape `0x1F`
/// is refused with `InvalidTypeAndFlavor`, detected right after that byte.
pub proof fn lemma_universal_escape_rejected(s: Seq<u8>, p: int, depth: nat)
    requires
        0 <= p < s.len(),
        s[p] / 64 == 0,
        s[p] % 32 == 0x1F,
    ensures
        parse_tag(s, p, depth) == Parsed::<TagModel>::Err((Kind::InvalidTypeAndFlavor, p + 1)),
{
}

/// A constructed tag decoded from an encoding with a definite length is
/// encoded again with the indefinite length: `0x80` right after the
/// identifier and the End-of-Contents bytes at the end. So the bytes read are
/// never reproduced.
pub proof fn lemma_definite_reencoded_indefinite(s: Seq<u8>)
    requires
        parse_tag(s, 0, 0) is Ok,
        parse_tag(s, 0, 0)->Ok_0.0.payload is Constructed,
        s[parse_ident(s, 0)->Ok_0.1] != 0x80,
    ensures
        ({
            let t = parse_tag(s, 0, 0)->Ok_0.0;
            let end = parse_tag(s, 0, 0)->Ok_0.1;
            let e = encode_tag(t);
            let k = ident_bytes(t.number, Flavor::Constructed).len() as int;
            &&& e[k] == 0x80
            &&& e[e.len() - 2] == 0 && e[e.len() - 1] == 0
            &&& e != s.subrange(0, end)
        }),
{
    let t = parse_tag(s, 0, 0)->Ok_0.0;
    let end = parse_tag(s, 0, 0)->Ok_0.1;
    let cs = t.payload->Constructed_0;
    let id = ident_bytes(t.number, Flavor::Constructed);
    let e = encode_tag(t);
    assert(e == id + seq![0x80u8] + encode_tags(cs) + seq![0u8, 0u8]);
    let k = id.len() as int;
    assert(e[k] == 0x80);
    let q1 = parse_ident(s, 0)->Ok_0.1;
    lemma_parse_tag_within(s, 0, 0);
    assert(parse_ident(s, 0)->Ok_0.0 == (Flavor::Constructed, t.number));
    if e == s.subrange(0, end) {
        let tail = e.subrange(k, e.len() as int) + s.subrange(end, s.len() as int);
        assert(e.subrange(0, k) =~= id);
        assert(e =~= id + e.subrange(k, e.len() as int));
        assert(s =~= s.subrange(0, end) + s.subrange(end, s.len() as int));
        assert(s =~= id + tail);
        lemma_ident_number_bound(s, 0);
        lemma_number_round_trip(t.number, Flavor::Constructed, tail);
        assert(q1 == k);
        assert(s[k] == e[k]);
    }
}

proof fn lemma_parse_ext_within(s: Seq<u8>, p: int, count: nat, acc: nat)
    ensures
        parse_ext(s, p, count, acc) matches Ok((v, q)) ==> q <= s.len(),
    decreases 8 - count,
{
    if count < 8 && 0 <= p < s.len() && s[p] >= 128 {
        let acc2 = acc + (s[p] % 128) as nat * pow2(7 * count);
        lemma_parse_ext_within(s, p + 1, count + 1, acc2);
    }
}

/// A tag read at `p` ends after `p` and within the bytes.
proof fn lemma_parse_tag_within(s: Seq<u8>, p: int, depth: nat)
    ensures
        parse_tag(s, p, depth) matches Ok((t, q)) ==> p < q <= s.len(),
    decreases (s.len() - p) as nat, 0nat,
{
    if 0 <= p < s.len() {
        lemma_parse_ext_advances(s, p + 1, 0, 0);
        lemma_parse_ext_within(s, p + 1, 0, 0);
        if let Ok(((f, n), q1)) = parse_ident(s, p) {
            if let Ok((len, q2)) = parse_length(s, q1) {
                lemma_parse_payload_within(s, q2, f, len, depth);
            }
        }
    }
}

proof fn lemma_parse_payload_within(s: Seq<u8>, p: int, f: Flavor, len: Length, depth: nat)
    ensures
        parse_payload(s, p, f, len, depth) matches Ok((pl, q)) ==> p <= q <= s.len(),
    decreases (s.len() - p) as nat, 2nat,
{
    if f == Flavor::Constructed {
        lemma_parse_children_within(s, p, len, p, depth + 1);
    }
}

proof fn lemma_parse_children_within(s: Seq<u8>, p: int, len: Length, start: int, depth: nat)
    ensures
        parse_children(s, p, len, start, depth) matches Ok((cs, q)) ==> p < q <= s.len(),
    decreases (s.len() - p) as nat, 1nat,
{
    if 0 <= p < s.len() {
        lemma_parse_tag_within(s, p, depth);
        if let Ok((c, q)) = parse_tag(s, p, depth) {
            if q > p && q <= s.len() {
                lemma_parse_children_within(s, q, len, start, depth);
            }
        }
    }
}

/// Whether a tag at nesting level `depth` reads back from its encoding:
/// every number fits in eight 7-bit groups, every primitive payload's length
/// fits in 64 bits, the tree stays below `MAX_DEPTH` levels, and no child of
/// a constructed payload is numbered End-of-Contents (which would close its
/// parent's payload early).
pub open spec fn encodable(t: TagModel, depth: nat) -> bool
    decreases t,
{
    &&& number_fits(t.number)
    &&& match t.payload {
        PayloadModel::Primitive(b) => b.len() <= 0xFFFF_FFFF_FFFF_FFFF,
        PayloadModel::Constructed(cs) => depth + 1 < MAX_DEPTH && forall|i: int|
            0 <= i < cs.len() ==> #[trigger] cs[i].number != Number::Universal(Type::Eoc)
                && encodable(cs[i], depth + 1),
    }
}

proof fn lemma_encode_tags_front(cs: Seq<TagModel>)
    requires
        cs.len() > 0,
    ensures
        encode_tags(cs) == encode_tag(cs[0]) + encode_tags(cs.subrange(1, cs.len() as int)),
    decreases cs.len(),
{
    let rest = cs.subrange(1, cs.len() as int);
    if cs.len() == 1 {
        assert(cs.drop_last() =~= Seq::<TagModel>::empty());
        assert(rest =~= Seq::<TagModel>::empty());
        assert(encode_tags(cs) =~= encode_tag(cs[0]) + encode_tags(rest));
    } else {
        let d = cs.drop_last();
        lemma_encode_tags_front(d);
        assert(d.subrange(1, d.len() as int) =~= rest.drop_last());
        assert(rest.last() == cs.last());
        assert(encode_tags(cs) =~= encode_tag(cs[0]) + encode_tags(rest));
    }
}

proof fn lemma_sub_of_sub(s: Seq<u8>, p: int, n: int, a: Seq<u8>, b: Seq<u8>)
    requires
        0 <= p,
        p + n <= s.len(),
        s.subrange(p, p + n) == a + b,
        n == a.len() + b.len(),
    ensures
        s.subrange(p, p + a.len()) == a,
        s.subrange(p + a.len(), p + n) == b,
{
    assert forall|k: int| 0 <= k < a.len() implies #[trigger] s.subrange(p, p + a.len())[k]
        == a[k] by {
        assert(s[p + k] == s.subrange(p, p + n)[k]);
    }
    assert forall|k: int| 0 <= k < b.len() implies #[trigger] s.subrange(p + a.len(), p + n)[k]
        == b[k] by {
        assert(s[p + a.len() + k] == s.subrange(p, p + n)[a.len() + k]);
    }
    assert(s.subrange(p, p + a.len()) =~= a);
    assert(s.subrange(p + a.len(), p + n) =~= b);
}

/// An encodable tag reads back from its encoding, wherever it stands, to a
/// tag with the same encoding.
proof fn lemma_tag_round_trip_at(s: Seq<u8>, p: int, t: TagModel, depth: nat)
    requires
        encodable(t, depth),
        0 <= p,
        p + encode_tag(t).len() <= s.len(),
        s.subrange(p, p + encode_tag(t).len()) == encode_tag(t),
    ensures
        parse_tag(s, p, depth) is Ok,
        parse_tag(s, p, depth)->Ok_0.1 == p + encode_tag(t).len(),
        parse_tag(s, p, depth)->Ok_0.0.number == t.number,
        encode_tag(parse_tag(s, p, depth)->Ok_0.0) == encode_tag(t),
    decreases t,
{
    let e = encode_tag(t);
    match t.payload {
        PayloadModel::Primitive(b) => {
            let id = ident_bytes(t.number, Flavor::Primitive);
            let l = Length::Definite(b.len() as u64);
            let lb = length_bytes(l);
            assert(e == id + lb + b);
            assert(e =~= id + (lb + b));
            lemma_sub_of_sub(s, p, e.len() as int, id, lb + b);
            lemma_sub_of_sub(s, p + id.len(), (lb + b).len() as int, lb, b);
            lemma_ident_at(s, p, t.number, Flavor::Primitive);
            lemma_length_at(s, p + id.len(), l);
        },
        PayloadModel::Constructed(cs) => {
            let id = ident_bytes(t.number, Flavor::Constructed);
            let body = encode_tags(cs) + seq![0u8, 0u8];
            assert(e =~= id + (seq![0x80u8] + body));
            lemma_sub_of_sub(s, p, e.len() as int, id, seq![0x80u8] + body);
            lemma_sub_of_sub(
                s,
                p + id.len(),
                (seq![0x80u8] + body).len() as int,
                seq![0x80u8],
                body,
            );
            lemma_ident_at(s, p, t.number, Flavor::Constructed);
            lemma_length_at(s, p + id.len(), Length::Indefinite);
            let q2 = p + id.len() + 1;
            lemma_children_round_trip_at(s, q2, cs, q2, depth + 1);
            let cs2 = parse_children(s, q2, Length::Indefinite, q2, depth + 1)->Ok_0.0;
            let t2 = parse_tag(s, p, depth)->Ok_0.0;
            assert(t2.payload == PayloadModel::Constructed(cs2));
            assert(encode_tag(t2) =~= id + seq![0x80u8] + encode_tags(cs2) + seq![0u8, 0u8]);
        },
    }
}

/// The children of an indefinite payload read back from their encodings,
/// followed by the End-of-Contents bytes.
proof fn lemma_children_round_trip_at(
    s: Seq<u8>,
    p: int,
    cs: Seq<TagModel>,
    start: int,
    depth: nat,
)
    requires
        forall|i: int|
            0 <= i < cs.len() ==> #[trigger] cs[i].number != Number::Universal(Type::Eoc)
                && encodable(cs[i], depth),
        0 <= p,
        p + encode_tags(cs).len() + 2 <= s.len(),
        s.subrange(p, p + encode_tags(cs).len() + 2) == encode_tags(cs) + seq![0u8, 0u8],
    ensures
        parse_children(s, p, Length::Indefinite, start, depth) is Ok,
        parse_children(s, p, Length::Indefinite, start, depth)->Ok_0.1 == p + encode_tags(cs).len()
            + 2,
        encode_tags(parse_children(s, p, Length::Indefinite, start, depth)->Ok_0.0) == encode_tags(
            cs,
        ),
    decreases cs,
{
    let body = encode_tags(cs) + seq![0u8, 0u8];
    if cs.len() == 0 {
        assert(encode_tags(cs) =~= Seq::<u8>::empty());
        assert(s[p] == body[0]);
        assert(s[p + 1] == body[1]);
        assert(type_of_code(0) == Some(Type::Eoc));
        assert(parse_ident(s, p) == Parsed::<(Flavor, Number)>::Ok(
            ((Flavor::Primitive, Number::Universal(Type::Eoc)), p + 1),
        ));
        assert(parse_length(s, p + 1) == Parsed::<Length>::Ok((Length::Definite(0), p + 2)));
        assert(s.subrange(p + 2, p + 2) =~= Seq::<u8>::empty());
        assert(parse_tag(s, p, depth) is Ok);
        assert(encode_tags(Seq::<TagModel>::empty()) =~= Seq::<u8>::empty());
    } else {
        let c = cs[0];
        let rest = cs.subrange(1, cs.len() as int);
        lemma_encode_tags_front(cs);
        let ec = encode_tag(c);
        let tail = encode_tags(rest) + seq![0u8, 0u8];
        assert(body =~= ec + tail);
        lemma_sub_of_sub(s, p, body.len() as int, ec, tail);
        lemma_tag_round_trip_at(s, p, c, depth);
        let q = p + ec.len();
        assert(ec.len() > 0) by {
            lemma_parse_tag_within(s, p, depth);
        }
        assert forall|i: int| 0 <= i < rest.len() implies #[trigger] rest[i].number
            != Number::Universal(Type::Eoc) && encodable(rest[i], depth) by {
            assert(rest[i] == cs[i + 1]);
        }
        lemma_children_round_trip_at(s, q, rest, start, depth);
        let c2 = parse_tag(s, p, depth)->Ok_0.0;
        let rest2 = parse_children(s, q, Length::Indefinite, start, depth)->Ok_0.0;
        assert(!is_eoc(Length::Indefinite, c2));
        assert(!ends_payload(Length::Indefinite, c2, q, start));
        lemma_parse_tag_within(s, p, depth);
        let cs2 = seq![c2] + rest2;
        assert(parse_children(s, p, Length::Indefinite, start, depth)->Ok_0.0 == cs2);
        lemma_encode_tags_front(cs2);
        assert(cs2[0] == c2);
        assert(cs2.subrange(1, cs2.len() as int) =~= rest2);
    }
}

/// Decoding the encoding of an encodable tag and encoding the result again
/// gives back the same bytes, whatever follows them; the decoder consumes
/// exactly the encoding. The encoding is the indefinite form, so every
/// encoding in that form that this library writes survives a round trip.
pub proof fn lemma_indefinite_round_trip(t: TagModel, rest: Seq<u8>)
    requires
        encodable(t, 0),
    ensures
        parse_tag(encode_tag(t) + rest, 0, 0) is Ok,
        parse_tag(encode_tag(t) + rest, 0, 0)->Ok_0.1 == encode_tag(t).len(),
        encode_tag(parse_tag(encode_tag(t) + rest, 0, 0)->Ok_0.0) == encode_tag(t),
{
    let e = encode_tag(t);
    assert((e + rest).subrange(0, e.len() as int) =~= e);
    lemma_tag_round_trip_at(e + rest, 0, t, 0);
}

} // verus!
