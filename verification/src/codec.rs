//! The binary encoding contract for protocol messages.
//!
//! The format is compact, schema-less and field-order-dependent: an
//! outer variant tag, fields in declaration order, list lengths as
//! little-endian base-128 varints, digests and identities as raw
//! fixed-size bytes, and single-byte tags for enums and booleans. There
//! is no length prefix around a whole message; the transport's
//! end-of-stream marks the message boundary. Encoding and decoding are
//! exact inverses, and the decoder accepts only canonical encodings.
use vstd::prelude::*;

use crate::model::{
    is_canonical, lemma_canonical_unique, strictly_sorted, AddrV, BlobFormat, ContentHash,
    HashAndFormat, NodeId, ID_LEN,
};
use crate::protocol::{
    Announce, AnnounceKind, AnnounceV, Query, QueryFlags, QueryResponse, QueryResponseV, QueryV,
    Request, RequestV, Response, ResponseV,
};

verus! {

// ---------------------------------------------------------------------
// Varints: unsigned 64-bit values, 7 bits per byte, least significant
// group first, high bit of a byte set when more bytes follow. The
// encoding is minimal, and the decoder rejects non-minimal forms.
// ---------------------------------------------------------------------

/// The bytes of the varint encoding of `n`.
pub open spec fn enc_varint(n: u64) -> Seq<u8>
    decreases n,
{
    if n < 128 {
        seq![n as u8]
    } else {
        seq![(n % 128 + 128) as u8] + enc_varint(n / 128)
    }
}

/// Decode a varint at `pos`; the value and the position after it.
pub open spec fn dec_varint(b: Seq<u8>, pos: int) -> Option<(u64, int)>
    decreases b.len() - pos,
{
    if pos < 0 || pos >= b.len() {
        None
    } else if b[pos] < 128 {
        Some((b[pos] as u64, pos + 1))
    } else {
        match dec_varint(b, pos + 1) {
            None => None,
            Some((v, p)) => {
                let low = b[pos] - 128;
                if v == 0 {
                    // a continuation byte followed by value zero would be
                    // a non-minimal encoding
                    None
                } else if v <= (u64::MAX - low) / 128 {
                    Some(((low + 128 * v) as u64, p))
                } else {
                    None
                }
            },
        }
    }
}

/// Append the varint encoding of `n` to `out`.
pub fn write_varint(out: &mut Vec<u8>, n: u64)
    ensures
        final(out)@ == old(out)@ + enc_varint(n),
    decreases n,
{
    if n < 128 {
        out.push(n as u8);
        assert(out@ =~= old(out)@ + enc_varint(n));
    } else {
        let ghost prefix = out@;
        out.push((n % 128) as u8 + 128);
        write_varint(out, n / 128);
        assert(out@ =~= prefix + enc_varint(n));
    }
}

/// Read a varint at `pos`, exactly as the specification decoder does.
pub fn read_varint(b: &Vec<u8>, pos: usize) -> (r: Option<(u64, usize)>)
    ensures
        match dec_varint(b@, pos as int) {
            Some((v, p)) => r matches Some(x) && x.0 == v && x.1 == p,
            None => r is None,
        },
    decreases b@.len() - pos as int,
{
    if pos >= b.len() {
        return None;
    }
    let byte = b[pos];
    if byte < 128 {
        Some((byte as u64, pos + 1))
    } else {
        match read_varint(b, pos + 1) {
            None => None,
            Some((v, p)) => {
                let low = (byte - 128) as u64;
                if v == 0 {
                    None
                } else if v <= (u64::MAX - low) / 128 {
                    assert(low + 128 * v <= u64::MAX) by {
                        lemma_mul_div_le(v as int, u64::MAX - low);
                    };
                    Some((low + 128 * v, p))
                } else {
                    None
                }
            },
        }
    }
}

/// For `0 <= v` and `0 <= d`: a value no more than `d / 128` scaled
/// back by 128 stays no more than `d`.
proof fn lemma_mul_div_le(v: int, d: int)
    requires
        0 <= v,
        0 <= d,
        v <= d / 128,
    ensures
        128 * v <= d,
{
    assert(128 * (d / 128) <= d) by (nonlinear_arith)
        requires 0 <= d;
    assert(128 * v <= 128 * (d / 128)) by (nonlinear_arith)
        requires v <= d / 128;
}

/// Decoding from any buffer that carries `enc_varint(n)` at `pos`
/// recovers `n` and stops right after it.
pub proof fn lemma_varint_rt(b: Seq<u8>, pos: int, n: u64)
    requires
        0 <= pos,
        pos + enc_varint(n).len() <= b.len(),
        b.subrange(pos, pos + enc_varint(n).len() as int) == enc_varint(n),
    ensures
        dec_varint(b, pos) == Some((n, pos + enc_varint(n).len() as int)),
    decreases n,
{
    let e = enc_varint(n);
    assert(b.subrange(pos, pos + e.len() as int)[0] == b[pos]);
    if n < 128 {
        assert(b[pos] == e[0]);
    } else {
        assert(b[pos] == e[0]);
        let m = n / 128;
        let e2 = enc_varint(m);
        assert(e == seq![(n % 128 + 128) as u8] + e2);
        assert forall|i: int| 0 <= i < e2.len() implies b.subrange(
            pos + 1,
            pos + 1 + e2.len() as int,
        )[i] == e2[i] by {
            assert(b.subrange(pos, pos + e.len() as int)[i + 1] == e2[i]);
            assert(b.subrange(pos + 1, pos + 1 + e2.len() as int)[i] == b[pos + 1 + i]);
        };
        assert(b.subrange(pos + 1, pos + 1 + e2.len() as int) =~= e2);
        lemma_varint_rt(b, pos + 1, m);
        assert(m >= 1);
        let low = b[pos] - 128;
        assert(low == n % 128);
        assert(n == 128 * m + n % 128) by (nonlinear_arith)
            requires m == n as int / 128;
        assert(m <= (u64::MAX - low) / 128) by {
            assert(128 * m <= u64::MAX - low);
            lemma_div_ordered(128 * m, (u64::MAX - low) as int);
            assert((128 * m) / 128 == m) by (nonlinear_arith);
        };
        assert(low + 128 * m == n);
    }
}

/// Integer division by 128 keeps order.
proof fn lemma_div_ordered(x: int, y: int)
    requires
        0 <= x <= y,
    ensures
        x / 128 <= y / 128,
{
    assert(x / 128 <= y / 128) by (nonlinear_arith)
        requires 0 <= x <= y;
}

// ---------------------------------------------------------------------
// Fixed-size byte strings: digests and peer identities travel as their
// raw bytes, no length prefix.
// ---------------------------------------------------------------------

/// Decode `n` raw bytes at `pos`.
pub open spec fn dec_fixed(b: Seq<u8>, pos: int, n: int) -> Option<(Seq<u8>, int)> {
    if pos < 0 || n < 0 || pos + n > b.len() {
        None
    } else {
        Some((b.subrange(pos, pos + n), pos + n))
    }
}

/// Append all of `src` to `out`.
pub fn write_bytes(out: &mut Vec<u8>, src: &Vec<u8>)
    ensures
        final(out)@ == old(out)@ + src@,
{
    let ghost prefix = out@;
    let mut i: usize = 0;
    while i < src.len()
        invariant
            i <= src@.len(),
            out@ == prefix + src@.subrange(0, i as int),
        decreases src@.len() - i,
    {
        out.push(src[i]);
        assert(out@ =~= prefix + src@.subrange(0, i + 1));
        i = i + 1;
    }
    assert(out@ =~= prefix + src@);
}

/// Read `ID_LEN` raw bytes at `pos`, exactly as the specification
/// decoder does.
pub fn read_id(b: &Vec<u8>, pos: usize) -> (r: Option<(Vec<u8>, usize)>)
    ensures
        match dec_fixed(b@, pos as int, ID_LEN as int) {
            Some((s, p)) => r matches Some(x) && x.0@ == s && x.1 == p,
            None => r is None,
        },
{
    let blen = b.len();
    if blen < ID_LEN || pos > blen - ID_LEN {
        return None;
    }
    let mut v: Vec<u8> = Vec::new();
    let mut i: usize = 0;
    while i < ID_LEN
        invariant
            i <= ID_LEN,
            blen == b@.len(),
            pos + ID_LEN <= blen,
            v@ == b@.subrange(pos as int, pos as int + i as int),
        decreases ID_LEN - i,
    {
        v.push(b[pos + i]);
        assert(v@ =~= b@.subrange(pos as int, pos as int + i + 1));
        i = i + 1;
    }
    Some((v, pos + ID_LEN))
}

// ---------------------------------------------------------------------
// One-byte tags: formats, announce kinds, booleans.
// ---------------------------------------------------------------------

/// The wire tag of a format.
pub open spec fn format_tag(f: BlobFormat) -> u8 {
    match f {
        BlobFormat::Raw => 0u8,
        BlobFormat::HashSeq => 1u8,
    }
}

/// The wire tag of an announce kind.
pub open spec fn kind_tag(k: AnnounceKind) -> u8 {
    match k {
        AnnounceKind::Partial => 0u8,
        AnnounceKind::Complete => 1u8,
    }
}

/// The wire tag of a boolean.
pub open spec fn bool_tag(v: bool) -> u8 {
    if v {
        1u8
    } else {
        0u8
    }
}

/// Decode a format tag at `pos`.
pub open spec fn dec_format(b: Seq<u8>, pos: int) -> Option<(BlobFormat, int)> {
    if pos < 0 || pos >= b.len() {
        None
    } else if b[pos] == 0 {
        Some((BlobFormat::Raw, pos + 1))
    } else if b[pos] == 1 {
        Some((BlobFormat::HashSeq, pos + 1))
    } else {
        None
    }
}

/// Decode an announce kind tag at `pos`.
pub open spec fn dec_kind(b: Seq<u8>, pos: int) -> Option<(AnnounceKind, int)> {
    if pos < 0 || pos >= b.len() {
        None
    } else if b[pos] == 0 {
        Some((AnnounceKind::Partial, pos + 1))
    } else if b[pos] == 1 {
        Some((AnnounceKind::Complete, pos + 1))
    } else {
        None
    }
}

/// Decode a boolean tag at `pos`.
pub open spec fn dec_bool(b: Seq<u8>, pos: int) -> Option<(bool, int)> {
    if pos < 0 || pos >= b.len() {
        None
    } else if b[pos] == 0 {
        Some((false, pos + 1))
    } else if b[pos] == 1 {
        Some((true, pos + 1))
    } else {
        None
    }
}

/// Read a format tag, exactly as the specification decoder does.
pub fn read_format(b: &Vec<u8>, pos: usize) -> (r: Option<(BlobFormat, usize)>)
    ensures
        match dec_format(b@, pos as int) {
            Some((f, p)) => r matches Some(x) && x.0 == f && x.1 == p,
            None => r is None,
        },
{
    if pos >= b.len() {
        None
    } else if b[pos] == 0 {
        Some((BlobFormat::Raw, pos + 1))
    } else if b[pos] == 1 {
        Some((BlobFormat::HashSeq, pos + 1))
    } else {
        None
    }
}

/// Read an announce kind tag, exactly as the specification decoder does.
pub fn read_kind(b: &Vec<u8>, pos: usize) -> (r: Option<(AnnounceKind, usize)>)
    ensures
        match dec_kind(b@, pos as int) {
            Some((k, p)) => r matches Some(x) && x.0 == k && x.1 == p,
            None => r is None,
        },
{
    if pos >= b.len() {
        None
    } else if b[pos] == 0 {
        Some((AnnounceKind::Partial, pos + 1))
    } else if b[pos] == 1 {
        Some((AnnounceKind::Complete, pos + 1))
    } else {
        None
    }
}

/// Read a boolean tag, exactly as the specification decoder does.
pub fn read_bool(b: &Vec<u8>, pos: usize) -> (r: Option<(bool, usize)>)
    ensures
        match dec_bool(b@, pos as int) {
            Some((v, p)) => r matches Some(x) && x.0 == v && x.1 == p,
            None => r is None,
        },
{
    if pos >= b.len() {
        None
    } else if b[pos] == 0 {
        Some((false, pos + 1))
    } else if b[pos] == 1 {
        Some((true, pos + 1))
    } else {
        None
    }
}

// ---------------------------------------------------------------------
// Content addresses: a digest followed by a format tag.
// ---------------------------------------------------------------------

/// The bytes of an address: the digest, then the format tag.
pub open spec fn enc_addr(a: AddrV) -> Seq<u8> {
    a.hash + seq![format_tag(a.format)]
}

/// Decode an address at `pos`.
pub open spec fn dec_addr(b: Seq<u8>, pos: int) -> Option<(AddrV, int)> {
    match dec_fixed(b, pos, ID_LEN as int) {
        None => None,
        Some((h, p1)) => match dec_format(b, p1) {
            None => None,
            Some((f, p2)) => Some((AddrV { hash: h, format: f }, p2)),
        },
    }
}

/// Append the encoding of an address to `out`.
pub fn write_addr(out: &mut Vec<u8>, a: &HashAndFormat)
    requires
        a.wf(),
    ensures
        final(out)@ == old(out)@ + enc_addr(a@),
{
    let ghost prefix = out@;
    write_bytes(out, &a.hash.bytes);
    let tag: u8 = match a.format {
        BlobFormat::Raw => 0,
        BlobFormat::HashSeq => 1,
    };
    out.push(tag);
    assert(out@ =~= prefix + enc_addr(a@));
}

/// Read an address, exactly as the specification decoder does.
pub fn read_addr(b: &Vec<u8>, pos: usize) -> (r: Option<(HashAndFormat, usize)>)
    ensures
        match dec_addr(b@, pos as int) {
            Some((a, p)) => r matches Some(x) && x.0@ == a && x.0.wf() && x.1 == p,
            None => r is None,
        },
{
    let (h, p1) = match read_id(b, pos) {
        None => { return None; },
        Some(x) => x,
    };
    let (f, p2) = match read_format(b, p1) {
        None => { return None; },
        Some(x) => x,
    };
    let a = HashAndFormat { hash: ContentHash { bytes: h }, format: f };
    proof {
        assert(a@ =~= dec_addr(b@, pos as int)->Some_0.0);
    }
    Some((a, p2))
}

// ---------------------------------------------------------------------
// Lists: a varint count written by the caller, then the elements one
// after the other.
// ---------------------------------------------------------------------

/// The bytes of a list of addresses, one encoding after the other.
pub open spec fn enc_addr_list(s: Seq<AddrV>) -> Seq<u8>
    decreases s.len(),
{
    if s.len() == 0 {
        Seq::empty()
    } else {
        enc_addr(s[0]) + enc_addr_list(s.drop_first())
    }
}

/// Decode `n` addresses starting at `pos`.
pub open spec fn dec_addr_list(b: Seq<u8>, pos: int, n: int) -> Option<(Seq<AddrV>, int)>
    decreases n,
{
    if n <= 0 {
        Some((Seq::empty(), pos))
    } else {
        match dec_addr(b, pos) {
            None => None,
            Some((a, p)) => match dec_addr_list(b, p, n - 1) {
                None => None,
                Some((s, p2)) => Some((seq![a] + s, p2)),
            },
        }
    }
}

/// The bytes of a list of identities, one after the other.
pub open spec fn enc_id_list(s: Seq<Seq<u8>>) -> Seq<u8>
    decreases s.len(),
{
    if s.len() == 0 {
        Seq::empty()
    } else {
        s[0] + enc_id_list(s.drop_first())
    }
}

/// Decode `n` identities starting at `pos`.
pub open spec fn dec_id_list(b: Seq<u8>, pos: int, n: int) -> Option<(Seq<Seq<u8>>, int)>
    decreases n,
{
    if n <= 0 {
        Some((Seq::empty(), pos))
    } else {
        match dec_fixed(b, pos, ID_LEN as int) {
            None => None,
            Some((h, p)) => match dec_id_list(b, p, n - 1) {
                None => None,
                Some((s, p2)) => Some((seq![h] + s, p2)),
            },
        }
    }
}

/// Appending an element appends its encoding.
proof fn lemma_enc_addr_list_push(s: Seq<AddrV>, a: AddrV)
    ensures
        enc_addr_list(s.push(a)) == enc_addr_list(s) + enc_addr(a),
    decreases s.len(),
{
    let sp = s.push(a);
    if s.len() == 0 {
        assert(sp.drop_first() =~= Seq::<AddrV>::empty());
        assert(sp[0] == a);
        assert(enc_addr_list(sp.drop_first()) == Seq::<u8>::empty());
        assert(enc_addr_list(sp) == enc_addr(a) + Seq::<u8>::empty());
        assert(enc_addr(a) + Seq::<u8>::empty() =~= enc_addr(a));
        assert(Seq::<u8>::empty() + enc_addr(a) =~= enc_addr(a));
    } else {
        assert(sp.drop_first() =~= s.drop_first().push(a));
        lemma_enc_addr_list_push(s.drop_first(), a);
        assert(enc_addr_list(sp.drop_first()) == enc_addr_list(s.drop_first()) + enc_addr(a));
        assert(sp[0] == s[0]);
        assert(enc_addr_list(sp) == enc_addr(s[0]) + (enc_addr_list(s.drop_first()) + enc_addr(
            a,
        )));
        assert(enc_addr_list(s) == enc_addr(s[0]) + enc_addr_list(s.drop_first()));
        assert(enc_addr(s[0]) + (enc_addr_list(s.drop_first()) + enc_addr(a)) =~= (enc_addr(
            s[0],
        ) + enc_addr_list(s.drop_first())) + enc_addr(a));
    }
}

/// Appending an identity appends its bytes.
proof fn lemma_enc_id_list_push(s: Seq<Seq<u8>>, h: Seq<u8>)
    ensures
        enc_id_list(s.push(h)) == enc_id_list(s) + h,
    decreases s.len(),
{
    let sp = s.push(h);
    if s.len() == 0 {
        assert(sp.drop_first() =~= Seq::<Seq<u8>>::empty());
        assert(sp[0] == h);
        assert(enc_id_list(sp.drop_first()) == Seq::<u8>::empty());
        assert(enc_id_list(sp) == h + Seq::<u8>::empty());
        assert(h + Seq::<u8>::empty() =~= h);
        assert(Seq::<u8>::empty() + h =~= h);
    } else {
        assert(sp.drop_first() =~= s.drop_first().push(h));
        lemma_enc_id_list_push(s.drop_first(), h);
        assert(enc_id_list(sp.drop_first()) == enc_id_list(s.drop_first()) + h);
        assert(sp[0] == s[0]);
        assert(enc_id_list(sp) == s[0] + (enc_id_list(s.drop_first()) + h));
        assert(enc_id_list(s) == s[0] + enc_id_list(s.drop_first()));
        assert(s[0] + (enc_id_list(s.drop_first()) + h) =~= (s[0] + enc_id_list(
            s.drop_first(),
        )) + h);
    }
}

/// Append the encodings of all addresses in `s` to `out`.
pub fn write_addr_list(out: &mut Vec<u8>, s: &Vec<HashAndFormat>)
    requires
        forall|i: int| 0 <= i < s@.len() ==> (#[trigger] s@[i])@.wf(),
    ensures
        final(out)@ == old(out)@ + enc_addr_list(s@.map_values(|a: HashAndFormat| a@)),
{
    let ghost prefix = out@;
    let ghost sv = s@.map_values(|a: HashAndFormat| a@);
    let mut i: usize = 0;
    while i < s.len()
        invariant
            i <= s@.len(),
            sv == s@.map_values(|a: HashAndFormat| a@),
            forall|j: int| 0 <= j < s@.len() ==> (#[trigger] s@[j])@.wf(),
            out@ == prefix + enc_addr_list(sv.take(i as int)),
        decreases s@.len() - i,
    {
        write_addr(out, &s[i]);
        proof {
            lemma_enc_addr_list_push(sv.take(i as int), sv[i as int]);
            assert(sv.take(i as int).push(sv[i as int]) =~= sv.take(i + 1));
            assert(out@ =~= prefix + enc_addr_list(sv.take(i + 1)));
        }
        i = i + 1;
    }
    assert(sv.take(s@.len() as int) =~= sv);
}

/// Append the identity bytes of all hosts in `s` to `out`.
pub fn write_id_list(out: &mut Vec<u8>, s: &Vec<NodeId>)
    requires
        forall|i: int| 0 <= i < s@.len() ==> (#[trigger] s@[i])@.len() == ID_LEN,
    ensures
        final(out)@ == old(out)@ + enc_id_list(s@.map_values(|n: NodeId| n@)),
{
    let ghost prefix = out@;
    let ghost sv = s@.map_values(|n: NodeId| n@);
    let mut i: usize = 0;
    while i < s.len()
        invariant
            i <= s@.len(),
            sv == s@.map_values(|n: NodeId| n@),
            forall|j: int| 0 <= j < s@.len() ==> (#[trigger] s@[j])@.len() == ID_LEN,
            out@ == prefix + enc_id_list(sv.take(i as int)),
        decreases s@.len() - i,
    {
        write_bytes(out, &s[i].bytes);
        proof {
            lemma_enc_id_list_push(sv.take(i as int), sv[i as int]);
            assert(sv.take(i as int).push(sv[i as int]) =~= sv.take(i + 1));
            assert(out@ =~= prefix + enc_id_list(sv.take(i + 1)));
        }
        i = i + 1;
    }
    assert(sv.take(s@.len() as int) =~= sv);
}

/// Read `count` addresses, exactly as the specification decoder does.
pub fn read_addr_list(b: &Vec<u8>, pos: usize, count: u64) -> (r: Option<
    (Vec<HashAndFormat>, usize),
>)
    ensures
        match dec_addr_list(b@, pos as int, count as int) {
            Some((s, p)) => r matches Some(x) && x.0@.map_values(|a: HashAndFormat| a@) == s
                && x.1 == p && x.0@.len() <= u64::MAX && (forall|i: int|
                0 <= i < x.0@.len() ==> (#[trigger] x.0@[i]).wf()),
            None => r is None,
        },
{
    let mut acc: Vec<HashAndFormat> = Vec::new();
    let mut cur: usize = pos;
    let mut i: u64 = 0;
    while i < count
        invariant
            i <= count,
            acc@.len() == i,
            forall|j: int| 0 <= j < acc@.len() ==> (#[trigger] acc@[j]).wf(),
            match dec_addr_list(b@, cur as int, (count - i) as int) {
                Some((s, p)) => dec_addr_list(b@, pos as int, count as int) == Some(
                    (acc@.map_values(|a: HashAndFormat| a@) + s, p),
                ),
                None => dec_addr_list(b@, pos as int, count as int) is None,
            },
        decreases count - i,
    {
        let ghost accv = acc@.map_values(|a: HashAndFormat| a@);
        match read_addr(b, cur) {
            None => {
                return None;
            },
            Some((a, p)) => {
                proof {
                    let k = (count - i) as int;
                    match dec_addr_list(b@, p as int, k - 1) {
                        Some((s2, p2)) => {
                            assert(accv + (seq![a@] + s2) =~= accv.push(a@) + s2);
                        },
                        None => {},
                    }
                }
                acc.push(a);
                proof {
                    assert(acc@.map_values(|x: HashAndFormat| x@) =~= accv.push(a@));
                }
                cur = p;
                i = i + 1;
            },
        }
    }
    proof {
        let accv = acc@.map_values(|a: HashAndFormat| a@);
        assert(accv + Seq::<AddrV>::empty() =~= accv);
    }
    Some((acc, cur))
}

/// Read `count` identities, exactly as the specification decoder does.
pub fn read_id_list(b: &Vec<u8>, pos: usize, count: u64) -> (r: Option<(Vec<NodeId>, usize)>)
    ensures
        match dec_id_list(b@, pos as int, count as int) {
            Some((s, p)) => r matches Some(x) && x.0@.map_values(|n: NodeId| n@) == s && x.1 == p
                && x.0@.len() <= u64::MAX && (forall|i: int|
                0 <= i < x.0@.len() ==> (#[trigger] x.0@[i])@.len() == ID_LEN),
            None => r is None,
        },
{
    let mut acc: Vec<NodeId> = Vec::new();
    let mut cur: usize = pos;
    let mut i: u64 = 0;
    while i < count
        invariant
            i <= count,
            acc@.len() == i,
            forall|j: int| 0 <= j < acc@.len() ==> (#[trigger] acc@[j])@.len() == ID_LEN,
            match dec_id_list(b@, cur as int, (count - i) as int) {
                Some((s, p)) => dec_id_list(b@, pos as int, count as int) == Some(
                    (acc@.map_values(|n: NodeId| n@) + s, p),
                ),
                None => dec_id_list(b@, pos as int, count as int) is None,
            },
        decreases count - i,
    {
        let ghost accv = acc@.map_values(|n: NodeId| n@);
        match read_id(b, cur) {
            None => {
                return None;
            },
            Some((h, p)) => {
                let n = NodeId { bytes: h };
                proof {
                    let k = (count - i) as int;
                    match dec_id_list(b@, p as int, k - 1) {
                        Some((s2, p2)) => {
                            assert(accv + (seq![n@] + s2) =~= accv.push(n@) + s2);
                        },
                        None => {},
                    }
                }
                acc.push(n);
                proof {
                    assert(acc@.map_values(|x: NodeId| x@) =~= accv.push(n@));
                }
                cur = p;
                i = i + 1;
            },
        }
    }
    proof {
        let accv = acc@.map_values(|n: NodeId| n@);
        assert(accv + Seq::<Seq<u8>>::empty() =~= accv);
    }
    Some((acc, cur))
}

// ---------------------------------------------------------------------
// Messages: fields in declaration order behind the outer variant tag.
// ---------------------------------------------------------------------

/// The bytes of an announce: host identity, address count, addresses,
/// kind tag.
pub open spec fn enc_announce(a: AnnounceV) -> Seq<u8> {
    a.host + enc_varint(a.content.len() as u64) + enc_addr_list(a.content) + seq![
        kind_tag(a.kind),
    ]
}

/// Decode an announce at `pos`.
pub open spec fn dec_announce(b: Seq<u8>, pos: int) -> Option<(AnnounceV, int)> {
    match dec_fixed(b, pos, ID_LEN as int) {
        None => None,
        Some((host, p1)) => match dec_varint(b, p1) {
            None => None,
            Some((n, p2)) => match dec_addr_list(b, p2, n as int) {
                None => None,
                Some((content, p3)) => if !strictly_sorted(content) {
                    // only the canonical set encoding is accepted:
                    // strictly ascending, duplicate-free addresses
                    None
                } else {
                    match dec_kind(b, p3) {
                        None => None,
                        Some((kind, p4)) => Some((AnnounceV { host, content, kind }, p4)),
                    }
                },
            },
        },
    }
}

/// The bytes of a query: the address, then the two flag bytes.
pub open spec fn enc_query(q: QueryV) -> Seq<u8> {
    enc_addr(q.content) + seq![bool_tag(q.flags.complete), bool_tag(q.flags.verified)]
}

/// Decode a query at `pos`.
pub open spec fn dec_query(b: Seq<u8>, pos: int) -> Option<(QueryV, int)> {
    match dec_addr(b, pos) {
        None => None,
        Some((content, p1)) => match dec_bool(b, p1) {
            None => None,
            Some((complete, p2)) => match dec_bool(b, p2) {
                None => None,
                Some((verified, p3)) => Some(
                    (QueryV { content, flags: QueryFlags { complete, verified } }, p3),
                ),
            },
        },
    }
}

/// The bytes of a query response: the address, the host count, the
/// host identities.
pub open spec fn enc_query_response(r: QueryResponseV) -> Seq<u8> {
    enc_addr(r.content) + enc_varint(r.hosts.len() as u64) + enc_id_list(r.hosts)
}

/// Decode a query response at `pos`.
pub open spec fn dec_query_response(b: Seq<u8>, pos: int) -> Option<(QueryResponseV, int)> {
    match dec_addr(b, pos) {
        None => None,
        Some((content, p1)) => match dec_varint(b, p1) {
            None => None,
            Some((n, p2)) => match dec_id_list(b, p2, n as int) {
                None => None,
                Some((hosts, p3)) => Some((QueryResponseV { content, hosts }, p3)),
            },
        },
    }
}

/// The bytes of a whole request: the variant tag, then the message.
pub open spec fn enc_request(r: RequestV) -> Seq<u8> {
    match r {
        RequestV::Announce(a) => seq![0u8] + enc_announce(a),
        RequestV::Query(q) => seq![1u8] + enc_query(q),
    }
}

/// Decode a whole request: the variant tag, the message, and nothing
/// after it. An unknown tag decodes to nothing rather than being
/// misread as a known variant.
pub open spec fn dec_request(b: Seq<u8>) -> Option<RequestV> {
    if b.len() < 1 {
        None
    } else if b[0] == 0 {
        match dec_announce(b, 1) {
            None => None,
            Some((a, p)) => if p == b.len() {
                Some(RequestV::Announce(a))
            } else {
                None
            },
        }
    } else if b[0] == 1 {
        match dec_query(b, 1) {
            None => None,
            Some((q, p)) => if p == b.len() {
                Some(RequestV::Query(q))
            } else {
                None
            },
        }
    } else {
        None
    }
}

/// The bytes of a whole response: the variant tag, then the message.
pub open spec fn enc_response(r: ResponseV) -> Seq<u8> {
    match r {
        ResponseV::QueryResponse(q) => seq![0u8] + enc_query_response(q),
    }
}

/// Decode a whole response: the variant tag, the message, and nothing
/// after it.
pub open spec fn dec_response(b: Seq<u8>) -> Option<ResponseV> {
    if b.len() < 1 {
        None
    } else if b[0] == 0 {
        match dec_query_response(b, 1) {
            None => None,
            Some((q, p)) => if p == b.len() {
                Some(ResponseV::QueryResponse(q))
            } else {
                None
            },
        }
    } else {
        None
    }
}

/// Append the encoding of an announce to `out`.
pub fn write_announce(out: &mut Vec<u8>, a: &Announce)
    requires
        a.wf(),
    ensures
        final(out)@ == old(out)@ + enc_announce(a@),
{
    let ghost prefix = out@;
    proof {
        assert forall|i: int| 0 <= i < a.content@.len() implies (#[trigger] a.content@[i])@.wf()
        by {
            assert(a@.content[i] == a.content@[i]@);
            assert(a@.content[i].wf());
        };
    }
    write_bytes(out, &a.host.bytes);
    write_varint(out, a.content.len() as u64);
    write_addr_list(out, &a.content);
    let tag: u8 = match a.kind {
        AnnounceKind::Partial => 0,
        AnnounceKind::Complete => 1,
    };
    out.push(tag);
    assert(out@ =~= prefix + enc_announce(a@));
}

/// Append the encoding of a query to `out`.
pub fn write_query(out: &mut Vec<u8>, q: &Query)
    requires
        q.wf(),
    ensures
        final(out)@ == old(out)@ + enc_query(q@),
{
    let ghost prefix = out@;
    write_addr(out, &q.content);
    let c: u8 = if q.flags.complete {
        1
    } else {
        0
    };
    let v: u8 = if q.flags.verified {
        1
    } else {
        0
    };
    out.push(c);
    out.push(v);
    assert(out@ =~= prefix + enc_query(q@));
}

/// Append the encoding of a query response to `out`.
pub fn write_query_response(out: &mut Vec<u8>, r: &QueryResponse)
    requires
        r.wf(),
    ensures
        final(out)@ == old(out)@ + enc_query_response(r@),
{
    let ghost prefix = out@;
    proof {
        assert forall|i: int| 0 <= i < r.hosts@.len() implies (#[trigger] r.hosts@[i])@.len()
            == ID_LEN by {
            assert(r@.hosts[i] == r.hosts@[i]@);
        };
    }
    write_addr(out, &r.content);
    write_varint(out, r.hosts.len() as u64);
    write_id_list(out, &r.hosts);
    assert(out@ =~= prefix + enc_query_response(r@));
}

/// Encode a whole request.
pub fn encode_request(r: &Request) -> (out: Vec<u8>)
    requires
        r.wf(),
    ensures
        out@ == enc_request(r@),
{
    let mut out: Vec<u8> = Vec::new();
    match r {
        Request::Announce(a) => {
            out.push(0u8);
            write_announce(&mut out, a);
            assert(out@ =~= enc_request(r@));
        },
        Request::Query(q) => {
            out.push(1u8);
            write_query(&mut out, q);
            assert(out@ =~= enc_request(r@));
        },
    }
    out
}

/// Encode a whole response.
pub fn encode_response(r: &Response) -> (out: Vec<u8>)
    requires
        r.wf(),
    ensures
        out@ == enc_response(r@),
{
    let mut out: Vec<u8> = Vec::new();
    match r {
        Response::QueryResponse(q) => {
            out.push(0u8);
            write_query_response(&mut out, q);
            assert(out@ =~= enc_response(r@));
        },
    }
    out
}

/// Read an announce, exactly as the specification decoder does.
pub fn read_announce(b: &Vec<u8>, pos: usize) -> (r: Option<(Announce, usize)>)
    ensures
        match dec_announce(b@, pos as int) {
            Some((v, p)) => r matches Some(x) && x.0@ == v && x.0.wf() && x.1 == p,
            None => r is None,
        },
{
    let (host, p1) = match read_id(b, pos) {
        None => { return None; },
        Some(x) => x,
    };
    let (count, p2) = match read_varint(b, p1) {
        None => { return None; },
        Some(x) => x,
    };
    let (content, p3) = match read_addr_list(b, p2, count) {
        None => { return None; },
        Some(x) => x,
    };
    if !is_canonical(&content) {
        return None;
    }
    let (kind, p4) = match read_kind(b, p3) {
        None => { return None; },
        Some(x) => x,
    };
    let ann = Announce { host: NodeId { bytes: host }, content, kind };
    proof {
        assert(ann@ =~= dec_announce(b@, pos as int)->Some_0.0);
    }
    Some((ann, p4))
}

/// Read a query, exactly as the specification decoder does.
pub fn read_query(b: &Vec<u8>, pos: usize) -> (r: Option<(Query, usize)>)
    ensures
        match dec_query(b@, pos as int) {
            Some((v, p)) => r matches Some(x) && x.0@ == v && x.0.wf() && x.1 == p,
            None => r is None,
        },
{
    let (content, p1) = match read_addr(b, pos) {
        None => { return None; },
        Some(x) => x,
    };
    let (complete, p2) = match read_bool(b, p1) {
        None => { return None; },
        Some(x) => x,
    };
    let (verified, p3) = match read_bool(b, p2) {
        None => { return None; },
        Some(x) => x,
    };
    let q = Query { content, flags: QueryFlags { complete, verified } };
    proof {
        assert(q@ =~= dec_query(b@, pos as int)->Some_0.0);
    }
    Some((q, p3))
}

/// Read a query response, exactly as the specification decoder does.
pub fn read_query_response(b: &Vec<u8>, pos: usize) -> (r: Option<(QueryResponse, usize)>)
    ensures
        match dec_query_response(b@, pos as int) {
            Some((v, p)) => r matches Some(x) && x.0@ == v && x.0.wf() && x.1 == p,
            None => r is None,
        },
{
    let (content, p1) = match read_addr(b, pos) {
        None => { return None; },
        Some(x) => x,
    };
    let (count, p2) = match read_varint(b, p1) {
        None => { return None; },
        Some(x) => x,
    };
    let (hosts, p3) = match read_id_list(b, p2, count) {
        None => { return None; },
        Some(x) => x,
    };
    let resp = QueryResponse { content, hosts };
    proof {
        assert(resp@ =~= dec_query_response(b@, pos as int)->Some_0.0);
    }
    Some((resp, p3))
}

/// Decode a whole request, exactly as the specification decoder does.
pub fn decode_request(b: &Vec<u8>) -> (r: Option<Request>)
    ensures
        match dec_request(b@) {
            Some(v) => r matches Some(x) && x@ == v && x.wf(),
            None => r is None,
        },
{
    if b.len() < 1 {
        return None;
    }
    let tag = b[0];
    if tag == 0 {
        match read_announce(b, 1) {
            None => None,
            Some((a, p)) => if p == b.len() {
                Some(Request::Announce(a))
            } else {
                None
            },
        }
    } else if tag == 1 {
        match read_query(b, 1) {
            None => None,
            Some((q, p)) => if p == b.len() {
                Some(Request::Query(q))
            } else {
                None
            },
        }
    } else {
        None
    }
}

/// Decode a whole response, exactly as the specification decoder does.
pub fn decode_response(b: &Vec<u8>) -> (r: Option<Response>)
    ensures
        match dec_response(b@) {
            Some(v) => r matches Some(x) && x@ == v && x.wf(),
            None => r is None,
        },
{
    if b.len() < 1 {
        return None;
    }
    let tag = b[0];
    if tag == 0 {
        match read_query_response(b, 1) {
            None => None,
            Some((q, p)) => if p == b.len() {
                Some(Response::QueryResponse(q))
            } else {
                None
            },
        }
    } else {
        None
    }
}

// ---------------------------------------------------------------------
// Round trip: decoding an encoding yields the encoded value. Stated
// for every well-formed message value, over the same specification
// functions that pin down the executable encoder and decoder.
// ---------------------------------------------------------------------

/// A buffer that carries the bytes `e1 + e2` at `pos` carries `e1` at
/// `pos` and `e2` right after it.
proof fn lemma_subrange_split(b: Seq<u8>, pos: int, e1: Seq<u8>, e2: Seq<u8>)
    requires
        0 <= pos,
        pos + e1.len() + e2.len() <= b.len(),
        b.subrange(pos, pos + e1.len() + e2.len()) == e1 + e2,
    ensures
        b.subrange(pos, pos + e1.len() as int) == e1,
        b.subrange(pos + e1.len() as int, pos + e1.len() + e2.len()) == e2,
{
    let whole = b.subrange(pos, pos + e1.len() + e2.len());
    assert forall|i: int| 0 <= i < e1.len() implies b.subrange(pos, pos + e1.len() as int)[i]
        == e1[i] by {
        assert(whole[i] == (e1 + e2)[i]);
        assert(b.subrange(pos, pos + e1.len() as int)[i] == b[pos + i]);
    };
    assert(b.subrange(pos, pos + e1.len() as int) =~= e1);
    assert forall|i: int| 0 <= i < e2.len() implies b.subrange(
        pos + e1.len() as int,
        pos + e1.len() + e2.len(),
    )[i] == e2[i] by {
        assert(whole[e1.len() + i] == (e1 + e2)[e1.len() + i]);
        assert(b.subrange(pos + e1.len() as int, pos + e1.len() + e2.len())[i] == b[pos
            + e1.len() + i]);
    };
    assert(b.subrange(pos + e1.len() as int, pos + e1.len() + e2.len()) =~= e2);
}

/// A buffer that carries `enc_addr(a)` at `pos` decodes to `a` there.
proof fn lemma_addr_rt(b: Seq<u8>, pos: int, a: AddrV)
    requires
        0 <= pos,
        a.wf(),
        pos + enc_addr(a).len() <= b.len(),
        b.subrange(pos, pos + enc_addr(a).len() as int) == enc_addr(a),
    ensures
        dec_addr(b, pos) == Some((a, pos + enc_addr(a).len() as int)),
{
    let tail = seq![format_tag(a.format)];
    lemma_subrange_split(b, pos, a.hash, tail);
    let p1 = pos + ID_LEN as int;
    assert(b.subrange(p1, p1 + 1)[0] == b[p1]);
    assert(b[p1] == format_tag(a.format));
    assert(dec_addr(b, pos) matches Some((d, p)) && p == p1 + 1 && d =~= a);
}

/// A buffer that carries `enc_addr_list(s)` at `pos` decodes to `s`.
proof fn lemma_addr_list_rt(b: Seq<u8>, pos: int, s: Seq<AddrV>)
    requires
        0 <= pos,
        forall|i: int| 0 <= i < s.len() ==> (#[trigger] s[i]).wf(),
        pos + enc_addr_list(s).len() <= b.len(),
        b.subrange(pos, pos + enc_addr_list(s).len() as int) == enc_addr_list(s),
    ensures
        dec_addr_list(b, pos, s.len() as int) == Some(
            (s, pos + enc_addr_list(s).len() as int),
        ),
    decreases s.len(),
{
    if s.len() == 0 {
        assert(s =~= Seq::<AddrV>::empty());
    } else {
        let e1 = enc_addr(s[0]);
        let e2 = enc_addr_list(s.drop_first());
        assert(enc_addr_list(s) == e1 + e2);
        lemma_subrange_split(b, pos, e1, e2);
        lemma_addr_rt(b, pos, s[0]);
        lemma_addr_list_rt(b, pos + e1.len() as int, s.drop_first());
        assert(seq![s[0]] + s.drop_first() =~= s);
    }
}

/// A buffer that carries `enc_id_list(s)` at `pos` decodes to `s`.
proof fn lemma_id_list_rt(b: Seq<u8>, pos: int, s: Seq<Seq<u8>>)
    requires
        0 <= pos,
        forall|i: int| 0 <= i < s.len() ==> (#[trigger] s[i]).len() == ID_LEN,
        pos + enc_id_list(s).len() <= b.len(),
        b.subrange(pos, pos + enc_id_list(s).len() as int) == enc_id_list(s),
    ensures
        dec_id_list(b, pos, s.len() as int) == Some((s, pos + enc_id_list(s).len() as int)),
    decreases s.len(),
{
    if s.len() == 0 {
        assert(s =~= Seq::<Seq<u8>>::empty());
    } else {
        let e1 = s[0];
        let e2 = enc_id_list(s.drop_first());
        assert(enc_id_list(s) == e1 + e2);
        lemma_subrange_split(b, pos, e1, e2);
        lemma_id_list_rt(b, pos + e1.len() as int, s.drop_first());
        assert(seq![s[0]] + s.drop_first() =~= s);
    }
}

/// A buffer that carries `enc_announce(a)` at `pos` decodes to `a`.
proof fn lemma_announce_rt(b: Seq<u8>, pos: int, a: AnnounceV)
    requires
        0 <= pos,
        a.wf(),
        pos + enc_announce(a).len() <= b.len(),
        b.subrange(pos, pos + enc_announce(a).len() as int) == enc_announce(a),
    ensures
        dec_announce(b, pos) == Some((a, pos + enc_announce(a).len() as int)),
{
    let n = a.content.len() as u64;
    let ev = enc_varint(n);
    let el = enc_addr_list(a.content);
    let ek = seq![kind_tag(a.kind)];
    let e = enc_announce(a);
    assert(e =~= a.host + (ev + (el + ek)));
    lemma_subrange_split(b, pos, a.host, ev + (el + ek));
    let p1 = pos + ID_LEN as int;
    lemma_subrange_split(b, p1, ev, el + ek);
    lemma_varint_rt(b, p1, n);
    let p2 = p1 + ev.len() as int;
    lemma_subrange_split(b, p2, el, ek);
    lemma_addr_list_rt(b, p2, a.content);
    let p3 = p2 + el.len() as int;
    assert(b.subrange(p3, p3 + 1)[0] == b[p3]);
    assert(b[p3] == kind_tag(a.kind));
    assert(dec_announce(b, pos) matches Some((d, p)) && p == p3 + 1 && d =~= a);
    assert(pos + e.len() == p3 + 1);
}

/// A buffer that carries `enc_query(q)` at `pos` decodes to `q`.
proof fn lemma_query_rt(b: Seq<u8>, pos: int, q: QueryV)
    requires
        0 <= pos,
        q.wf(),
        pos + enc_query(q).len() <= b.len(),
        b.subrange(pos, pos + enc_query(q).len() as int) == enc_query(q),
    ensures
        dec_query(b, pos) == Some((q, pos + enc_query(q).len() as int)),
{
    let ea = enc_addr(q.content);
    let ef = seq![bool_tag(q.flags.complete), bool_tag(q.flags.verified)];
    assert(enc_query(q) == ea + ef);
    lemma_subrange_split(b, pos, ea, ef);
    lemma_addr_rt(b, pos, q.content);
    let p1 = pos + ea.len() as int;
    assert(b.subrange(p1, p1 + 2)[0] == b[p1]);
    assert(b.subrange(p1, p1 + 2)[1] == b[p1 + 1]);
    assert(b[p1] == bool_tag(q.flags.complete));
    assert(b[p1 + 1] == bool_tag(q.flags.verified));
    assert(dec_query(b, pos) matches Some((d, p)) && p == p1 + 2 && d =~= q);
}

/// A buffer that carries `enc_query_response(r)` at `pos` decodes to
/// `r`.
proof fn lemma_query_response_rt(b: Seq<u8>, pos: int, r: QueryResponseV)
    requires
        0 <= pos,
        r.wf(),
        pos + enc_query_response(r).len() <= b.len(),
        b.subrange(pos, pos + enc_query_response(r).len() as int) == enc_query_response(r),
    ensures
        dec_query_response(b, pos) == Some((r, pos + enc_query_response(r).len() as int)),
{
    let n = r.hosts.len() as u64;
    let ea = enc_addr(r.content);
    let ev = enc_varint(n);
    let el = enc_id_list(r.hosts);
    let e = enc_query_response(r);
    assert(e =~= ea + (ev + el));
    lemma_subrange_split(b, pos, ea, ev + el);
    lemma_addr_rt(b, pos, r.content);
    let p1 = pos + ea.len() as int;
    lemma_subrange_split(b, p1, ev, el);
    lemma_varint_rt(b, p1, n);
    let p2 = p1 + ev.len() as int;
    lemma_id_list_rt(b, p2, r.hosts);
    let p3 = p2 + el.len() as int;
    assert(dec_query_response(b, pos) matches Some((d, p)) && p == p3 && d =~= r);
    assert(pos + e.len() == p3);
}

/// Round trip for requests: decoding the encoding of any well-formed
/// request value yields exactly that value.
pub proof fn lemma_request_round_trip(r: RequestV)
    requires
        r.wf(),
    ensures
        dec_request(enc_request(r)) == Some(r),
{
    let b = enc_request(r);
    match r {
        RequestV::Announce(a) => {
            let e = enc_announce(a);
            assert(b == seq![0u8] + e);
            assert(b[0] == 0);
            assert(b.subrange(1, 1 + e.len() as int) =~= e);
            lemma_announce_rt(b, 1, a);
        },
        RequestV::Query(q) => {
            let e = enc_query(q);
            assert(b == seq![1u8] + e);
            assert(b[0] == 1);
            assert(b.subrange(1, 1 + e.len() as int) =~= e);
            lemma_query_rt(b, 1, q);
        },
    }
}

/// Round trip for responses: decoding the encoding of any well-formed
/// response value yields exactly that value.
pub proof fn lemma_response_round_trip(r: ResponseV)
    requires
        r.wf(),
    ensures
        dec_response(enc_response(r)) == Some(r),
{
    let b = enc_response(r);
    match r {
        ResponseV::QueryResponse(q) => {
            let e = enc_query_response(q);
            assert(b == seq![0u8] + e);
            assert(b[0] == 0);
            assert(b.subrange(1, 1 + e.len() as int) =~= e);
            lemma_query_response_rt(b, 1, q);
        },
    }
}

/// Announce kind fidelity: encoding an announce and decoding it back
/// preserves the kind exactly.
pub proof fn lemma_announce_kind_fidelity(a: AnnounceV)
    requires
        a.wf(),
    ensures
        dec_request(enc_request(RequestV::Announce(a))) matches Some(
            RequestV::Announce(d),
        ) && d.kind == a.kind,
{
    lemma_request_round_trip(RequestV::Announce(a));
}

/// Response ordering: the hosts of a decoded query response are
/// exactly the hosts that were encoded, in the same order, with
/// nothing sorted, deduplicated or reordered.
pub proof fn lemma_response_host_order(q: QueryResponseV)
    requires
        q.wf(),
    ensures
        dec_response(enc_response(ResponseV::QueryResponse(q))) matches Some(
            ResponseV::QueryResponse(d),
        ) && d.hosts == q.hosts,
{
    lemma_response_round_trip(ResponseV::QueryResponse(q));
}

// ---------------------------------------------------------------------
// Canonicity: the decoders accept nothing but encodings. Together with
// the round trip above, encoding is a bijection between well-formed
// message values and the byte strings the decoders accept.
// ---------------------------------------------------------------------

/// Adjacent subranges concatenate to the enclosing one.
proof fn lemma_subrange_join(b: Seq<u8>, p0: int, p1: int, p2: int)
    requires
        0 <= p0 <= p1 <= p2 <= b.len(),
    ensures
        b.subrange(p0, p2) == b.subrange(p0, p1) + b.subrange(p1, p2),
{
    assert(b.subrange(p0, p2) =~= b.subrange(p0, p1) + b.subrange(p1, p2));
}

/// What `dec_varint` accepts at `pos` is exactly `enc_varint` of its
/// value.
proof fn lemma_varint_canon(b: Seq<u8>, pos: int, v: u64, p: int)
    requires
        dec_varint(b, pos) == Some((v, p)),
    ensures
        0 <= pos < p <= b.len(),
        b.subrange(pos, p) == enc_varint(v),
    decreases b.len() - pos,
{
    if b[pos] < 128 {
        assert(b.subrange(pos, p) =~= seq![b[pos]]);
    } else {
        let inner = dec_varint(b, pos + 1);
        assert(inner is Some);
        let (v2, p2) = inner->Some_0;
        let low = b[pos] - 128;
        assert(v == low + 128 * v2);
        assert(v2 >= 1);
        lemma_varint_canon(b, pos + 1, v2, p2);
        assert(v >= 128);
        assert(v % 128 == low && v / 128 == v2) by (nonlinear_arith)
            requires v == low + 128 * v2, 0 <= low < 128;
        assert(enc_varint(v) == seq![(v % 128 + 128) as u8] + enc_varint(v2));
        lemma_subrange_join(b, pos, pos + 1, p);
        assert(b.subrange(pos, pos + 1) =~= seq![b[pos]]);
    }
}

/// What `dec_addr` accepts at `pos` is exactly `enc_addr` of its
/// value, which is well formed.
proof fn lemma_addr_canon(b: Seq<u8>, pos: int, a: AddrV, p: int)
    requires
        dec_addr(b, pos) == Some((a, p)),
    ensures
        0 <= pos < p <= b.len(),
        a.wf(),
        b.subrange(pos, p) == enc_addr(a),
{
    let p1 = pos + ID_LEN as int;
    assert(a.hash == b.subrange(pos, p1));
    assert(b[p1] == format_tag(a.format));
    lemma_subrange_join(b, pos, p1, p);
    assert(b.subrange(p1, p) =~= seq![b[p1]]);
}

/// What `dec_addr_list` accepts at `pos` is exactly `enc_addr_list`
/// of its value, which has one well-formed address per counted item.
proof fn lemma_addr_list_canon(b: Seq<u8>, pos: int, n: int, s: Seq<AddrV>, p: int)
    requires
        0 <= pos <= b.len(),
        dec_addr_list(b, pos, n) == Some((s, p)),
    ensures
        pos <= p <= b.len(),
        s.len() == if n <= 0 { 0 } else { n },
        forall|i: int| 0 <= i < s.len() ==> (#[trigger] s[i]).wf(),
        b.subrange(pos, p) == enc_addr_list(s),
    decreases n,
{
    if n <= 0 {
        assert(b.subrange(pos, pos) =~= Seq::<u8>::empty());
    } else {
        let inner = dec_addr(b, pos);
        assert(inner is Some);
        let (a, p1) = inner->Some_0;
        lemma_addr_canon(b, pos, a, p1);
        let rest = dec_addr_list(b, p1, n - 1);
        assert(rest is Some);
        let (s2, p2) = rest->Some_0;
        lemma_addr_list_canon(b, p1, n - 1, s2, p2);
        assert(s == seq![a] + s2);
        assert(s.drop_first() =~= s2);
        assert(s[0] == a);
        assert(enc_addr_list(s) == enc_addr(a) + enc_addr_list(s2));
        lemma_subrange_join(b, pos, p1, p);
    }
}

/// What `dec_id_list` accepts at `pos` is exactly `enc_id_list` of
/// its value, which has one full-length identity per counted item.
proof fn lemma_id_list_canon(b: Seq<u8>, pos: int, n: int, s: Seq<Seq<u8>>, p: int)
    requires
        0 <= pos <= b.len(),
        dec_id_list(b, pos, n) == Some((s, p)),
    ensures
        pos <= p <= b.len(),
        s.len() == if n <= 0 { 0 } else { n },
        forall|i: int| 0 <= i < s.len() ==> (#[trigger] s[i]).len() == ID_LEN,
        b.subrange(pos, p) == enc_id_list(s),
    decreases n,
{
    if n <= 0 {
        assert(b.subrange(pos, pos) =~= Seq::<u8>::empty());
    } else {
        let inner = dec_fixed(b, pos, ID_LEN as int);
        assert(inner is Some);
        let (h, p1) = inner->Some_0;
        let rest = dec_id_list(b, p1, n - 1);
        assert(rest is Some);
        let (s2, p2) = rest->Some_0;
        lemma_id_list_canon(b, p1, n - 1, s2, p2);
        assert(s == seq![h] + s2);
        assert(s.drop_first() =~= s2);
        assert(s[0] == h);
        assert(enc_id_list(s) == h + enc_id_list(s2));
        lemma_subrange_join(b, pos, p1, p);
    }
}

/// What `dec_announce` accepts at `pos` is exactly `enc_announce` of
/// its value, which is well formed.
proof fn lemma_announce_canon(b: Seq<u8>, pos: int, a: AnnounceV, p: int)
    requires
        dec_announce(b, pos) == Some((a, p)),
    ensures
        0 <= pos < p <= b.len(),
        a.wf(),
        b.subrange(pos, p) == enc_announce(a),
{
    let p1 = pos + ID_LEN as int;
    assert(a.host == b.subrange(pos, p1));
    let vr = dec_varint(b, p1);
    assert(vr is Some);
    let (n, p2) = vr->Some_0;
    lemma_varint_canon(b, p1, n, p2);
    let lr = dec_addr_list(b, p2, n as int);
    assert(lr is Some);
    let (content, p3) = lr->Some_0;
    lemma_addr_list_canon(b, p2, n as int, content, p3);
    assert(content.len() as u64 == n);
    assert(b[p3] == kind_tag(a.kind));
    assert(b.subrange(p3, p) =~= seq![kind_tag(a.kind)]);
    lemma_subrange_join(b, pos, p1, p2);
    lemma_subrange_join(b, pos, p2, p3);
    lemma_subrange_join(b, pos, p3, p);
}

/// What `dec_query` accepts at `pos` is exactly `enc_query` of its
/// value, which is well formed.
proof fn lemma_query_canon(b: Seq<u8>, pos: int, q: QueryV, p: int)
    requires
        dec_query(b, pos) == Some((q, p)),
    ensures
        0 <= pos < p <= b.len(),
        q.wf(),
        b.subrange(pos, p) == enc_query(q),
{
    let ar = dec_addr(b, pos);
    assert(ar is Some);
    let (content, p1) = ar->Some_0;
    lemma_addr_canon(b, pos, content, p1);
    assert(b[p1] == bool_tag(q.flags.complete));
    assert(b[p1 + 1] == bool_tag(q.flags.verified));
    assert(b.subrange(p1, p) =~= seq![bool_tag(q.flags.complete), bool_tag(q.flags.verified)]);
    lemma_subrange_join(b, pos, p1, p);
}

/// What `dec_query_response` accepts at `pos` is exactly
/// `enc_query_response` of its value, which is well formed.
proof fn lemma_query_response_canon(b: Seq<u8>, pos: int, r: QueryResponseV, p: int)
    requires
        dec_query_response(b, pos) == Some((r, p)),
    ensures
        0 <= pos < p <= b.len(),
        r.wf(),
        b.subrange(pos, p) == enc_query_response(r),
{
    let ar = dec_addr(b, pos);
    assert(ar is Some);
    let (content, p1) = ar->Some_0;
    lemma_addr_canon(b, pos, content, p1);
    let vr = dec_varint(b, p1);
    assert(vr is Some);
    let (n, p2) = vr->Some_0;
    lemma_varint_canon(b, p1, n, p2);
    let lr = dec_id_list(b, p2, n as int);
    assert(lr is Some);
    let (hosts, p3) = lr->Some_0;
    lemma_id_list_canon(b, p2, n as int, hosts, p3);
    assert(hosts.len() as u64 == n);
    lemma_subrange_join(b, pos, p1, p2);
    lemma_subrange_join(b, pos, p2, p);
}

/// The request decoder accepts nothing but encodings: bytes that
/// decode to a request are exactly that request's encoding, and the
/// request is well formed.
pub proof fn lemma_request_decode_canonical(b: Seq<u8>, r: RequestV)
    requires
        dec_request(b) == Some(r),
    ensures
        r.wf(),
        b == enc_request(r),
{
    if b[0] == 0 {
        let inner = dec_announce(b, 1);
        assert(inner is Some);
        let (a, p) = inner->Some_0;
        lemma_announce_canon(b, 1, a, p);
        assert(b =~= seq![b[0]] + b.subrange(1, b.len() as int));
    } else {
        let inner = dec_query(b, 1);
        assert(inner is Some);
        let (q, p) = inner->Some_0;
        lemma_query_canon(b, 1, q, p);
        assert(b =~= seq![b[0]] + b.subrange(1, b.len() as int));
    }
}

/// The response decoder accepts nothing but encodings: bytes that
/// decode to a response are exactly that response's encoding, and the
/// response is well formed.
pub proof fn lemma_response_decode_canonical(b: Seq<u8>, r: ResponseV)
    requires
        dec_response(b) == Some(r),
    ensures
        r.wf(),
        b == enc_response(r),
{
    let inner = dec_query_response(b, 1);
    assert(inner is Some);
    let (q, p) = inner->Some_0;
    lemma_query_response_canon(b, 1, q, p);
    assert(b =~= seq![b[0]] + b.subrange(1, b.len() as int));
}

/// Equal content sets encode identically: two well-formed announces
/// with the same host and kind whose contents hold the same addresses
/// are the same message, and so encode to the same bytes, however
/// their contents were built.
pub proof fn lemma_equal_sets_equal_encoding(a1: AnnounceV, a2: AnnounceV)
    requires
        a1.wf(),
        a2.wf(),
        a1.host == a2.host,
        a1.kind == a2.kind,
        forall|x: AddrV| #![trigger a1.content.contains(x)]
            a1.content.contains(x) <==> a2.content.contains(x),
    ensures
        a1 == a2,
        enc_announce(a1) == enc_announce(a2),
{
    lemma_canonical_unique(a1.content, a2.content);
    assert(a1 =~= a2);
}

} // verus!
