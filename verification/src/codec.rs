//! The binary persistence format: `(dimension, next identity, flat
//! vector store, tree)` in fixed field order. Unsigned integers are
//! eight little-endian bytes, coordinates four little-endian bytes,
//! strings are length-prefixed UTF-8, optional nodes carry a one-byte
//! tag. Encoding and decoding are proved to round-trip.

use vstd::prelude::*;

use crate::kdtree::{view_tree, KDNode};
use crate::model::Tree;

verus! {

/// Eight little-endian bytes of an unsigned integer.
pub open spec fn le64(v: u64) -> Seq<u8> {
    seq![
        (v & 0xff) as u8,
        ((v >> 8) & 0xff) as u8,
        ((v >> 16) & 0xff) as u8,
        ((v >> 24) & 0xff) as u8,
        ((v >> 32) & 0xff) as u8,
        ((v >> 40) & 0xff) as u8,
        ((v >> 48) & 0xff) as u8,
        ((v >> 56) & 0xff) as u8,
    ]
}

/// The unsigned integer read from eight little-endian bytes at `pos`.
pub open spec fn le64_at(b: Seq<u8>, pos: int) -> u64 {
    (b[pos] as u64) | ((b[pos + 1] as u64) << 8) | ((b[pos + 2] as u64) << 16) | ((b[pos + 3]
        as u64) << 24) | ((b[pos + 4] as u64) << 32) | ((b[pos + 5] as u64) << 40) | ((b[pos + 6]
        as u64) << 48) | ((b[pos + 7] as u64) << 56)
}

/// Four little-endian bytes of a coordinate's bit pattern.
pub open spec fn le32(v: u32) -> Seq<u8> {
    seq![
        (v & 0xff) as u8,
        ((v >> 8) & 0xff) as u8,
        ((v >> 16) & 0xff) as u8,
        ((v >> 24) & 0xff) as u8,
    ]
}

/// The bit pattern read from four little-endian bytes at `pos`.
pub open spec fn le32_at(b: Seq<u8>, pos: int) -> u32 {
    (b[pos] as u32) | ((b[pos + 1] as u32) << 8) | ((b[pos + 2] as u32) << 16) | ((b[pos + 3]
        as u32) << 24)
}

/// Reading back the eight bytes written for `v` yields `v`.
pub proof fn lemma_le64_roundtrip(b: Seq<u8>, pos: int, v: u64)
    requires
        forall|j: int| 0 <= j < 8 ==> b[pos + j] == le64(v)[j],
    ensures
        le64_at(b, pos) == v,
{
    assert forall|j: int| 0 <= j < 8 implies b[pos + j] == le64(v)[j] by {}
    assert(le64(v)[0] == (v & 0xff) as u8);
    assert(le64(v)[1] == ((v >> 8) & 0xff) as u8);
    assert(le64(v)[2] == ((v >> 16) & 0xff) as u8);
    assert(le64(v)[3] == ((v >> 24) & 0xff) as u8);
    assert(le64(v)[4] == ((v >> 32) & 0xff) as u8);
    assert(le64(v)[5] == ((v >> 40) & 0xff) as u8);
    assert(le64(v)[6] == ((v >> 48) & 0xff) as u8);
    assert(le64(v)[7] == ((v >> 56) & 0xff) as u8);
    assert(b[pos + 0] == (v & 0xff) as u8);
    assert(b[pos + 1] == ((v >> 8) & 0xff) as u8);
    assert(b[pos + 2] == ((v >> 16) & 0xff) as u8);
    assert(b[pos + 3] == ((v >> 24) & 0xff) as u8);
    assert(b[pos + 4] == ((v >> 32) & 0xff) as u8);
    assert(b[pos + 5] == ((v >> 40) & 0xff) as u8);
    assert(b[pos + 6] == ((v >> 48) & 0xff) as u8);
    assert(b[pos + 7] == ((v >> 56) & 0xff) as u8);
    assert(((v & 0xff) as u8 as u64) | (((v >> 8) & 0xff) as u8 as u64) << 8 | (((v >> 16) & 0xff)
        as u8 as u64) << 16 | (((v >> 24) & 0xff) as u8 as u64) << 24 | (((v >> 32) & 0xff) as u8
        as u64) << 32 | (((v >> 40) & 0xff) as u8 as u64) << 40 | (((v >> 48) & 0xff) as u8 as u64)
        << 48 | (((v >> 56) & 0xff) as u8 as u64) << 56 == v) by (bit_vector);
}

/// Reading back the four bytes written for `v` yields `v`.
pub proof fn lemma_le32_roundtrip(b: Seq<u8>, pos: int, v: u32)
    requires
        forall|j: int| 0 <= j < 4 ==> b[pos + j] == le32(v)[j],
    ensures
        le32_at(b, pos) == v,
{
    assert forall|j: int| 0 <= j < 4 implies b[pos + j] == le32(v)[j] by {}
    assert(le32(v)[0] == (v & 0xff) as u8);
    assert(le32(v)[1] == ((v >> 8) & 0xff) as u8);
    assert(le32(v)[2] == ((v >> 16) & 0xff) as u8);
    assert(le32(v)[3] == ((v >> 24) & 0xff) as u8);
    assert(b[pos + 0] == (v & 0xff) as u8);
    assert(b[pos + 1] == ((v >> 8) & 0xff) as u8);
    assert(b[pos + 2] == ((v >> 16) & 0xff) as u8);
    assert(b[pos + 3] == ((v >> 24) & 0xff) as u8);
    assert(((v & 0xff) as u8 as u32) | (((v >> 8) & 0xff) as u8 as u32) << 8 | (((v >> 16) & 0xff)
        as u8 as u32) << 16 | (((v >> 24) & 0xff) as u8 as u32) << 24 == v) by (bit_vector);
}

/// A coordinate survives the trip through its bit pattern.
pub proof fn lemma_i32_bits_roundtrip(x: i32)
    ensures
        (x as u32) as i32 == x,
{
    assert((x as u32) as i32 == x) by (bit_vector);
}

/// Appends the eight little-endian bytes of `v`.
pub(crate) fn put_u64(out: &mut Vec<u8>, v: u64)
    ensures
        final (out)@ == old(out)@ + le64(v),
{
    out.push((v & 0xff) as u8);
    out.push(((v >> 8) & 0xff) as u8);
    out.push(((v >> 16) & 0xff) as u8);
    out.push(((v >> 24) & 0xff) as u8);
    out.push(((v >> 32) & 0xff) as u8);
    out.push(((v >> 40) & 0xff) as u8);
    out.push(((v >> 48) & 0xff) as u8);
    out.push(((v >> 56) & 0xff) as u8);
    proof {
        assert(out@ =~= old(out)@ + le64(v));
    }
}

/// Appends the four little-endian bytes of the coordinate's bits.
pub(crate) fn put_i32(out: &mut Vec<u8>, x: i32)
    ensures
        final (out)@ == old(out)@ + le32(x as u32),
{
    let v: u32 = x as u32;
    out.push((v & 0xff) as u8);
    out.push(((v >> 8) & 0xff) as u8);
    out.push(((v >> 16) & 0xff) as u8);
    out.push(((v >> 24) & 0xff) as u8);
    proof {
        assert(out@ =~= old(out)@ + le32(x as u32));
    }
}

/// Reads eight little-endian bytes at `pos`, when that many remain.
pub(crate) fn parse_u64(bytes: &Vec<u8>, pos: usize) -> (r: Option<(u64, usize)>)
    requires
        pos <= bytes@.len(),
    ensures
        r == if pos + 8 <= bytes@.len() {
            Some((le64_at(bytes@, pos as int), (pos + 8) as usize))
        } else {
            None::<(u64, usize)>
        },
{
    if bytes.len() - pos >= 8 {
        let v: u64 = (bytes[pos] as u64) | ((bytes[pos + 1] as u64) << 8) | ((bytes[pos + 2]
            as u64) << 16) | ((bytes[pos + 3] as u64) << 24) | ((bytes[pos + 4] as u64) << 32)
            | ((bytes[pos + 5] as u64) << 40) | ((bytes[pos + 6] as u64) << 48) | ((bytes[pos + 7]
            as u64) << 56);
        Some((v, pos + 8))
    } else {
        None
    }
}

/// Reads one coordinate's four little-endian bytes at `pos`.
pub(crate) fn parse_i32(bytes: &Vec<u8>, pos: usize) -> (r: Option<(i32, usize)>)
    requires
        pos <= bytes@.len(),
    ensures
        r == if pos + 4 <= bytes@.len() {
            Some((le32_at(bytes@, pos as int) as i32, (pos + 4) as usize))
        } else {
            None::<(i32, usize)>
        },
{
    if bytes.len() - pos >= 4 {
        let v: u32 = (bytes[pos] as u32) | ((bytes[pos + 1] as u32) << 8) | ((bytes[pos + 2]
            as u32) << 16) | ((bytes[pos + 3] as u32) << 24);
        Some((v as i32, pos + 4))
    } else {
        None
    }
}

/// The concatenated four-byte encodings of a coordinate sequence.
pub open spec fn enc_coords(s: Seq<i32>) -> Seq<u8>
    decreases s.len(),
{
    if s.len() == 0 {
        Seq::empty()
    } else {
        enc_coords(s.drop_last()) + le32(s.last() as u32)
    }
}

/// A length-prefixed coordinate vector.
pub open spec fn enc_vec(s: Seq<i32>) -> Seq<u8> {
    le64(s.len() as u64) + enc_coords(s)
}

/// The concatenated encodings of the flat vector store.
pub open spec fn enc_vecs(ss: Seq<Seq<i32>>) -> Seq<u8>
    decreases ss.len(),
{
    if ss.len() == 0 {
        Seq::empty()
    } else {
        enc_vecs(ss.drop_last()) + enc_vec(ss.last())
    }
}

/// A length-prefixed UTF-8 string.
pub open spec fn enc_str(m: Seq<char>) -> Seq<u8> {
    le64(vstd::utf8::encode_utf8(m).len() as u64) + vstd::utf8::encode_utf8(m)
}

/// The `n` coordinates read from consecutive four-byte groups at `pos`.
pub open spec fn dec_coords(b: Seq<u8>, pos: int, n: int) -> Seq<i32>
    decreases n,
{
    if n <= 0 {
        Seq::empty()
    } else {
        dec_coords(b, pos, n - 1).push(le32_at(b, pos + 4 * (n - 1)) as i32)
    }
}

/// A coordinate sequence encodes to four bytes per coordinate.
pub proof fn lemma_enc_coords_len(s: Seq<i32>)
    ensures
        enc_coords(s).len() == 4 * s.len(),
    decreases s.len(),
{
    if s.len() > 0 {
        lemma_enc_coords_len(s.drop_last());
    }
}

/// Reading back an encoded coordinate sequence yields the sequence.
pub proof fn lemma_dec_coords(b: Seq<u8>, pos: int, s: Seq<i32>, rest: Seq<u8>)
    requires
        0 <= pos <= b.len(),
        b.skip(pos) == enc_coords(s) + rest,
    ensures
        dec_coords(b, pos, s.len() as int) == s,
    decreases s.len(),
{
    lemma_enc_coords_len(s);
    if s.len() > 0 {
        let n = s.len() as int;
        lemma_enc_coords_len(s.drop_last());
        assert(b.skip(pos) =~= enc_coords(s.drop_last()) + (le32(s.last() as u32) + rest));
        lemma_dec_coords(b, pos, s.drop_last(), le32(s.last() as u32) + rest);
        assert forall|j: int| 0 <= j < 4 implies b[pos + 4 * (n - 1) + j] == (#[trigger] le32(
            s.last() as u32,
        )[j]) by {
            assert(b[pos + 4 * (n - 1) + j] == b.skip(pos)[4 * (n - 1) + j]);
        }
        lemma_le32_roundtrip(b, pos + 4 * (n - 1), s.last() as u32);
        lemma_i32_bits_roundtrip(s.last());
        assert(dec_coords(b, pos, n) =~= s);
    } else {
        assert(dec_coords(b, pos, 0) =~= s);
    }
}

/// Appends the encodings of all coordinates of `v`.
pub(crate) fn put_coords(out: &mut Vec<u8>, v: &Vec<i32>)
    ensures
        final (out)@ == old(out)@ + enc_coords(v@),
{
    let ghost base = out@;
    let n = v.len();
    let mut i: usize = 0;
    while i < n
        invariant
            n == v@.len(),
            i <= n,
            out@ == base + enc_coords(v@.take(i as int)),
        decreases n - i,
    {
        put_i32(out, v[i]);
        proof {
            assert(v@.take(i + 1).drop_last() =~= v@.take(i as int));
            assert(out@ =~= base + enc_coords(v@.take(i + 1)));
        }
        i = i + 1;
    }
    proof {
        assert(v@.take(n as int) =~= v@);
    }
}

/// Appends a length-prefixed coordinate vector.
pub(crate) fn put_vec(out: &mut Vec<u8>, v: &Vec<i32>)
    ensures
        final (out)@ == old(out)@ + enc_vec(v@),
{
    put_u64(out, v.len() as u64);
    put_coords(out, v);
    proof {
        assert(out@ =~= old(out)@ + enc_vec(v@));
    }
}

/// Appends a length-prefixed UTF-8 string.
pub(crate) fn put_str(out: &mut Vec<u8>, s: &String)
    ensures
        final (out)@ == old(out)@ + enc_str(s@),
{
    let ghost base = out@;
    let bv = s.as_str().as_bytes_vec();
    put_u64(out, bv.len() as u64);
    let n = bv.len();
    let mut i: usize = 0;
    while i < n
        invariant
            n == bv@.len(),
            i <= n,
            out@ == base + le64(bv@.len() as u64) + bv@.take(i as int),
        decreases n - i,
    {
        out.push(bv[i]);
        proof {
            assert(out@ =~= base + le64(bv@.len() as u64) + bv@.take(i + 1));
        }
        i = i + 1;
    }
    proof {
        assert(bv@.take(n as int) =~= bv@);
        assert(out@ =~= base + enc_str(s@));
    }
}

/// Reads `n` consecutive coordinates at `pos`.
pub(crate) fn parse_coords(bytes: &Vec<u8>, pos: usize, n: usize) -> (r: Option<(Vec<i32>, usize)>)
    requires
        pos <= bytes@.len(),
    ensures
        match r {
            Some(v) => pos + 4 * n <= bytes@.len() && v.0@ == dec_coords(
                bytes@,
                pos as int,
                n as int,
            ) && v.1 == pos + 4 * n,
            None => pos + 4 * n > bytes@.len(),
        },
{
    let rem = (bytes.len() - pos) / 4;
    proof {
        vstd::arithmetic::div_mod::lemma_fundamental_div_mod(bytes@.len() - pos, 4);
    }
    if n > rem {
        return None;
    }
    let mut v: Vec<i32> = Vec::new();
    let mut cur: usize = pos;
    let mut i: usize = 0;
    proof {
        assert(v@ =~= dec_coords(bytes@, pos as int, 0));
    }
    while i < n
        invariant
            i <= n,
            cur == pos + 4 * i,
            pos + 4 * n <= bytes@.len(),
            bytes@.len() <= usize::MAX,
            v@ == dec_coords(bytes@, pos as int, i as int),
        decreases n - i,
    {
        proof {
            assert(cur + 4 <= bytes@.len());
        }
        let parsed = parse_i32(bytes, cur);
        match parsed {
            Some(p) => {
                v.push(p.0);
                cur = p.1;
            },
            None => {
                proof {
                    assert(false);
                }
            },
        }
        i = i + 1;
    }
    Some((v, cur))
}

/// A length-prefixed coordinate vector read at `pos`.
pub open spec fn dec_vec(b: Seq<u8>, pos: int) -> Option<(Seq<i32>, int)> {
    if pos + 8 <= b.len() {
        let n = le64_at(b, pos) as int;
        if 4 * n <= b.len() - pos - 8 {
            Some((dec_coords(b, pos + 8, n), pos + 8 + 4 * n))
        } else {
            None
        }
    } else {
        None
    }
}

/// The `m` length-prefixed coordinate vectors read in order at `pos`.
pub open spec fn dec_vecs(b: Seq<u8>, pos: int, m: int) -> Option<(Seq<Seq<i32>>, int)>
    decreases m,
{
    if m <= 0 {
        Some((Seq::empty(), pos))
    } else {
        match dec_vec(b, pos) {
            None => None,
            Some(v) => match dec_vecs(b, v.1, m - 1) {
                None => None,
                Some(vs) => Some((seq![v.0] + vs.0, vs.1)),
            },
        }
    }
}

/// A length-prefixed UTF-8 string read at `pos`.
pub open spec fn dec_str(b: Seq<u8>, pos: int) -> Option<(Seq<char>, int)> {
    if pos + 8 <= b.len() {
        let n = le64_at(b, pos) as int;
        if n <= b.len() - pos - 8 {
            if vstd::utf8::valid_utf8(b.subrange(pos + 8, pos + 8 + n)) {
                Some((vstd::utf8::decode_utf8(b.subrange(pos + 8, pos + 8 + n)), pos + 8 + n))
            } else {
                None
            }
        } else {
            None
        }
    } else {
        None
    }
}

/// Relies on String::from_utf8: it returns the string whose UTF-8
/// encoding is the given bytes, and an error exactly when the bytes
/// are not valid UTF-8.
#[verifier::external_body]
fn string_from_utf8(bytes: Vec<u8>) -> (r: Option<String>)
    ensures
        match r {
            Some(s) => vstd::utf8::valid_utf8(bytes@) && s@ == vstd::utf8::decode_utf8(bytes@),
            None => !vstd::utf8::valid_utf8(bytes@),
        },
{
    match String::from_utf8(bytes) {
        Ok(s) => Some(s),
        Err(_) => None,
    }
}

/// Reads a length-prefixed coordinate vector at `pos`.
pub(crate) fn parse_vec(bytes: &Vec<u8>, pos: usize) -> (r: Option<(Vec<i32>, usize)>)
    requires
        pos <= bytes@.len(),
    ensures
        match r {
            Some(v) => {
                &&& dec_vec(bytes@, pos as int) is Some
                &&& v.0@ == dec_vec(bytes@, pos as int)->Some_0.0
                &&& v.1 as int == dec_vec(bytes@, pos as int)->Some_0.1
            },
            None => dec_vec(bytes@, pos as int) is None,
        },
{
    match parse_u64(bytes, pos) {
        None => None,
        Some((n64, p2)) => {
            let rem = (bytes.len() - p2) / 4;
            proof {
                vstd::arithmetic::div_mod::lemma_fundamental_div_mod(bytes@.len() - p2, 4);
            }
            if n64 > rem as u64 {
                return None;
            }
            let n = n64 as usize;
            match parse_coords(bytes, p2, n) {
                Some(v) => Some(v),
                None => {
                    proof {
                        assert(false);
                    }
                    None
                },
            }
        },
    }
}

/// Reads `m` length-prefixed coordinate vectors in order at `pos`.
pub(crate) fn parse_vecs(bytes: &Vec<u8>, pos: usize, m: usize) -> (r: Option<
    (Vec<Vec<i32>>, usize),
>)
    requires
        pos <= bytes@.len(),
    ensures
        match r {
            Some(v) => v.1 <= bytes@.len() && v.0@.len() == m && dec_vecs(
                bytes@,
                pos as int,
                m as int,
            ) == Some((v.0@.map_values(|x: Vec<i32>| x@), v.1 as int)),
            None => dec_vecs(bytes@, pos as int, m as int) is None,
        },
{
    let mut acc: Vec<Vec<i32>> = Vec::new();
    let mut cur: usize = pos;
    let mut j: usize = 0;
    let total = bytes.len();
    let ghost whole = dec_vecs(bytes@, pos as int, m as int);
    while j < m
        invariant
            j <= m,
            cur <= bytes@.len(),
            total == bytes@.len(),
            acc@.len() == j,
            whole == dec_vecs(bytes@, pos as int, m as int),
            whole == match dec_vecs(bytes@, cur as int, (m - j) as int) {
                None => None::<(Seq<Seq<i32>>, int)>,
                Some(t) => Some((acc@.map_values(|x: Vec<i32>| x@) + t.0, t.1)),
            },
        decreases m - j,
    {
        let ghost acc0 = acc@.map_values(|x: Vec<i32>| x@);
        match parse_vec(bytes, cur) {
            None => {
                return None;
            },
            Some((v, p2)) => {
                proof {
                    let tail = dec_vecs(bytes@, p2 as int, (m - j - 1) as int);
                    if tail is Some {
                        assert((acc0.push(v@)) + tail->Some_0.0 =~= acc0 + (seq![v@]
                            + tail->Some_0.0));
                    }
                }
                acc.push(v);
                cur = p2;
                proof {
                    assert(acc@.map_values(|x: Vec<i32>| x@) =~= acc0.push(v@));
                }
            },
        }
        j = j + 1;
    }
    proof {
        assert(acc@.map_values(|x: Vec<i32>| x@) + Seq::<Seq<i32>>::empty() =~= acc@.map_values(
            |x: Vec<i32>| x@,
        ));
    }
    Some((acc, cur))
}

/// Reads a length-prefixed UTF-8 string at `pos`.
pub(crate) fn parse_str(bytes: &Vec<u8>, pos: usize) -> (r: Option<(String, usize)>)
    requires
        pos <= bytes@.len(),
    ensures
        match r {
            Some(v) => {
                &&& dec_str(bytes@, pos as int) is Some
                &&& v.0@ == dec_str(bytes@, pos as int)->Some_0.0
                &&& v.1 as int == dec_str(bytes@, pos as int)->Some_0.1
            },
            None => dec_str(bytes@, pos as int) is None,
        },
{
    match parse_u64(bytes, pos) {
        None => None,
        Some((n64, p2)) => {
            let total = bytes.len();
            if n64 > (total - p2) as u64 {
                return None;
            }
            let n = n64 as usize;
            let mut buf: Vec<u8> = Vec::new();
            let mut i: usize = 0;
            proof {
                assert(buf@ =~= bytes@.subrange(p2 as int, p2 as int));
            }
            while i < n
                invariant
                    i <= n,
                    total == bytes@.len(),
                    p2 + n <= bytes@.len(),
                    buf@ == bytes@.subrange(p2 as int, p2 + i),
                decreases n - i,
            {
                buf.push(bytes[p2 + i]);
                proof {
                    assert(buf@ =~= bytes@.subrange(p2 as int, p2 + i + 1));
                }
                i = i + 1;
            }
            match string_from_utf8(buf) {
                Some(s) => Some((s, p2 + n)),
                None => None,
            }
        },
    }
}

/// A tree encoding: a one-byte tag for an absent node, else a tagged
/// node as `(point, identity, metadata, left, right)` in order.
pub open spec fn enc_tree(t: Tree) -> Seq<u8>
    decreases t,
{
    match t {
        Tree::Empty => seq![0u8],
        Tree::Node { point, id, meta, left, right } => seq![1u8] + enc_vec(point) + le64(id as u64)
            + enc_str(meta) + enc_tree(*left) + enc_tree(*right),
    }
}

/// Every identity in the tree fits the machine's word.
pub open spec fn ids_in_usize(t: Tree) -> bool
    decreases t,
{
    match t {
        Tree::Empty => true,
        Tree::Node { id, left, right, .. } => 0 <= id <= usize::MAX && ids_in_usize(*left)
            && ids_in_usize(*right),
    }
}

/// The ghost picture of a concrete tree always has machine identities.
pub(crate) proof fn lemma_view_tree_ids(n: Option<Box<KDNode>>)
    ensures
        ids_in_usize(view_tree(n)),
    decreases n,
{
    match n {
        None => {},
        Some(b) => {
            lemma_view_tree_ids(b.left);
            lemma_view_tree_ids(b.right);
        },
    }
}

/// Appends the encoding of the subtree at `node`.
pub(crate) fn encode_tree(node: &Option<Box<KDNode>>, out: &mut Vec<u8>)
    ensures
        final (out)@ == old(out)@ + enc_tree(view_tree(*node)),
    decreases node,
{
    match node {
        None => {
            out.push(0u8);
            proof {
                assert(out@ =~= old(out)@ + enc_tree(Tree::Empty));
            }
        },
        Some(b) => {
            out.push(1u8);
            put_vec(out, &b.point);
            put_u64(out, b.id as u64);
            put_str(out, &b.metadata);
            encode_tree(&b.left, out);
            encode_tree(&b.right, out);
            proof {
                assert(out@ =~= old(out)@ + enc_tree(view_tree(*node)));
            }
        },
    }
}

/// Splits the encoding of a node into its five fields: the byte
/// positions of each, what decoding reads back at each, and the
/// hypotheses the subtrees satisfy in turn.
#[verifier::rlimit(100)]
pub proof fn lemma_node_decompose(
    b: Seq<u8>,
    pos: int,
    point: Seq<i32>,
    id: int,
    meta: Seq<char>,
    l: Tree,
    r: Tree,
    rest: Seq<u8>,
)
    requires
        0 <= pos <= b.len(),
        b.len() <= u64::MAX,
        b.skip(pos) == enc_tree(
            Tree::Node { point, id, meta, left: Box::new(l), right: Box::new(r) },
        ) + rest,
    ensures
        b[pos] == 1u8,
        dec_vec(b, pos + 1) == Some((point, pos + 9 + 4 * point.len())),
        ({
            let q2 = pos + 9 + 4 * point.len();
            &&& q2 + 8 <= b.len()
            &&& le64_at(b, q2) == id as u64
            &&& dec_str(b, q2 + 8) == Some(
                (meta, q2 + 16 + vstd::utf8::encode_utf8(meta).len()),
            )
            &&& ({
                let q4 = q2 + 16 + vstd::utf8::encode_utf8(meta).len();
                &&& b.skip(q4) == enc_tree(l) + (enc_tree(r) + rest)
                &&& b.skip(q4 + enc_tree(l).len()) == enc_tree(r) + rest
                &&& q4 + enc_tree(l).len() + enc_tree(r).len() == pos + enc_tree(
                    Tree::Node { point, id, meta, left: Box::new(l), right: Box::new(r) },
                ).len()
                &&& pos + enc_tree(
                    Tree::Node { point, id, meta, left: Box::new(l), right: Box::new(r) },
                ).len() <= b.len()
            })
        }),
{
    let t = Tree::Node { point, id, meta, left: Box::new(l), right: Box::new(r) };
    let s1 = enc_vec(point);
    let s2 = le64(id as u64);
    let s3 = enc_str(meta);
    let s4 = enc_tree(l);
    let s5 = enc_tree(r);
    lemma_enc_coords_len(point);
    assert(s1.len() == 8 + 4 * point.len());
    assert(s2.len() == 8);
    assert(s3.len() == 8 + vstd::utf8::encode_utf8(meta).len());
    let x = s1 + (s2 + (s3 + (s4 + (s5 + rest))));
    assert(enc_tree(t) + rest =~= seq![1u8] + x);
    assert(b.skip(pos).len() == b.len() - pos);
    assert(b[pos] == b.skip(pos)[0]);
    let q1 = pos + 1;
    assert forall|i: int| 0 <= i < b.len() - q1 implies b.skip(q1)[i] == x[i] by {
        assert(b.skip(q1)[i] == b[q1 + i]);
        assert(b[q1 + i] == b.skip(pos)[1 + i]);
        assert((seq![1u8] + x)[1 + i] == x[i]);
    }
    assert(b.skip(q1) =~= x);
    lemma_dec_vec(b, q1, point, s2 + (s3 + (s4 + (s5 + rest))));
    let q2 = q1 + 8 + 4 * point.len();
    let x2 = s2 + (s3 + (s4 + (s5 + rest)));
    assert forall|i: int| 0 <= i < b.len() - q2 implies b.skip(q2)[i] == x2[i] by {
        assert(b.skip(q2)[i] == b[q2 + i]);
        assert(b[q2 + i] == b.skip(q1)[s1.len() + i]);
        assert(x[s1.len() + i] == x2[i]);
    }
    assert(b.skip(q2) =~= x2);
    assert forall|j: int| 0 <= j < 8 implies b[q2 + j] == #[trigger] le64(id as u64)[j] by {
        assert(b[q2 + j] == b.skip(q2)[j]);
        assert(x2[j] == s2[j]);
    }
    lemma_le64_roundtrip(b, q2, id as u64);
    let q3 = q2 + 8;
    let x3 = s3 + (s4 + (s5 + rest));
    assert forall|i: int| 0 <= i < b.len() - q3 implies b.skip(q3)[i] == x3[i] by {
        assert(b.skip(q3)[i] == b[q3 + i]);
        assert(b[q3 + i] == b.skip(q2)[8 + i]);
        assert(x2[8 + i] == x3[i]);
    }
    assert(b.skip(q3) =~= x3);
    lemma_dec_str(b, q3, meta, s4 + (s5 + rest));
    let q4 = q3 + 8 + vstd::utf8::encode_utf8(meta).len();
    let x4 = s4 + (s5 + rest);
    assert forall|i: int| 0 <= i < b.len() - q4 implies b.skip(q4)[i] == x4[i] by {
        assert(b.skip(q4)[i] == b[q4 + i]);
        assert(b[q4 + i] == b.skip(q3)[s3.len() + i]);
        assert(x3[s3.len() + i] == x4[i]);
    }
    assert(b.skip(q4) =~= x4);
    let q5 = q4 + s4.len();
    let x5 = s5 + rest;
    assert forall|i: int| 0 <= i < b.len() - q5 implies b.skip(q5)[i] == x5[i] by {
        assert(b.skip(q5)[i] == b[q5 + i]);
        assert(b[q5 + i] == b.skip(q4)[s4.len() + i]);
        assert(x4[s4.len() + i] == x5[i]);
    }
    assert(b.skip(q5) =~= x5);
}

/// Reads a subtree encoding at `pos`, reconstructing the nodes.
pub(crate) fn parse_tree(bytes: &Vec<u8>, pos: usize) -> (r: Option<(Option<Box<KDNode>>, usize)>)
    requires
        pos <= bytes@.len(),
    ensures
        r is Some ==> pos < r->Some_0.1 <= bytes@.len(),
        forall|t: Tree, rest: Seq<u8>|
            bytes@.skip(pos as int) == #[trigger] (enc_tree(t) + rest) && ids_in_usize(t) ==> {
                &&& r is Some
                &&& view_tree(r->Some_0.0) == t
                &&& r->Some_0.1 == pos + enc_tree(t).len()
            },
    decreases bytes@.len() - pos,
{
    let total = bytes.len();
    if total - pos < 1 {
        proof {
            assert forall|t: Tree, rest: Seq<u8>|
                bytes@.skip(pos as int) == #[trigger] (enc_tree(t) + rest) && ids_in_usize(t)
                    implies false by {
                assert(bytes@.skip(pos as int).len() == 0);
                match t {
                    Tree::Empty => {
                        assert(enc_tree(t).len() == 1);
                    },
                    Tree::Node { point, id, meta, left, right } => {
                        assert(enc_tree(t) == seq![1u8] + enc_vec(point) + le64(id as u64)
                            + enc_str(meta) + enc_tree(*left) + enc_tree(*right));
                        assert(enc_tree(t).len() >= 1);
                    },
                }
            }
        }
        return None;
    }
    let tag = bytes[pos];
    if tag == 0 {
        proof {
            assert forall|t: Tree, rest: Seq<u8>|
                bytes@.skip(pos as int) == #[trigger] (enc_tree(t) + rest) && ids_in_usize(t)
                    implies (view_tree(None::<Box<KDNode>>) == t && pos + 1 == pos + enc_tree(
                t,
            ).len()) by {
                assert(bytes@[pos as int] == bytes@.skip(pos as int)[0]);
                match t {
                    Tree::Empty => {},
                    Tree::Node { point, id, meta, left, right } => {
                        lemma_node_decompose(
                            bytes@,
                            pos as int,
                            point,
                            id,
                            meta,
                            *left,
                            *right,
                            rest,
                        );
                        assert(false);
                    },
                }
            }
        }
        return Some((None, pos + 1));
    }
    if tag != 1 {
        proof {
            assert forall|t: Tree, rest: Seq<u8>|
                bytes@.skip(pos as int) == #[trigger] (enc_tree(t) + rest) && ids_in_usize(t)
                    implies false by {
                assert(bytes@[pos as int] == bytes@.skip(pos as int)[0]);
                match t {
                    Tree::Empty => {},
                    Tree::Node { point, id, meta, left, right } => {
                        lemma_node_decompose(
                            bytes@,
                            pos as int,
                            point,
                            id,
                            meta,
                            *left,
                            *right,
                            rest,
                        );
                    },
                }
            }
        }
        return None;
    }
    let pv = parse_vec(bytes, pos + 1);
    if pv.is_none() {
        proof {
            assert forall|t: Tree, rest: Seq<u8>|
                bytes@.skip(pos as int) == #[trigger] (enc_tree(t) + rest) && ids_in_usize(t)
                    implies false by {
                assert(bytes@[pos as int] == bytes@.skip(pos as int)[0]);
                match t {
                    Tree::Empty => {},
                    Tree::Node { point, id, meta, left, right } => {
                        lemma_node_decompose(
                            bytes@,
                            pos as int,
                            point,
                            id,
                            meta,
                            *left,
                            *right,
                            rest,
                        );
                    },
                }
            }
        }
        return None;
    }
    let (pvec, p2) = pv.unwrap();
    let pu = parse_u64(bytes, p2);
    if pu.is_none() {
        proof {
            assert forall|t: Tree, rest: Seq<u8>|
                bytes@.skip(pos as int) == #[trigger] (enc_tree(t) + rest) && ids_in_usize(t)
                    implies false by {
                assert(bytes@[pos as int] == bytes@.skip(pos as int)[0]);
                match t {
                    Tree::Empty => {},
                    Tree::Node { point, id, meta, left, right } => {
                        lemma_node_decompose(
                            bytes@,
                            pos as int,
                            point,
                            id,
                            meta,
                            *left,
                            *right,
                            rest,
                        );
                    },
                }
            }
        }
        return None;
    }
    let (id64, p3) = pu.unwrap();
    if id64 > usize::MAX as u64 {
        proof {
            assert forall|t: Tree, rest: Seq<u8>|
                bytes@.skip(pos as int) == #[trigger] (enc_tree(t) + rest) && ids_in_usize(t)
                    implies false by {
                assert(bytes@[pos as int] == bytes@.skip(pos as int)[0]);
                match t {
                    Tree::Empty => {},
                    Tree::Node { point, id, meta, left, right } => {
                        lemma_node_decompose(
                            bytes@,
                            pos as int,
                            point,
                            id,
                            meta,
                            *left,
                            *right,
                            rest,
                        );
                    },
                }
            }
        }
        return None;
    }
    let ps = parse_str(bytes, p3);
    if ps.is_none() {
        proof {
            assert forall|t: Tree, rest: Seq<u8>|
                bytes@.skip(pos as int) == #[trigger] (enc_tree(t) + rest) && ids_in_usize(t)
                    implies false by {
                assert(bytes@[pos as int] == bytes@.skip(pos as int)[0]);
                match t {
                    Tree::Empty => {},
                    Tree::Node { point, id, meta, left, right } => {
                        lemma_node_decompose(
                            bytes@,
                            pos as int,
                            point,
                            id,
                            meta,
                            *left,
                            *right,
                            rest,
                        );
                    },
                }
            }
        }
        return None;
    }
    let (ms, p4) = ps.unwrap();
    let pl = parse_tree(bytes, p4);
    if pl.is_none() {
        proof {
            assert forall|t: Tree, rest: Seq<u8>|
                bytes@.skip(pos as int) == #[trigger] (enc_tree(t) + rest) && ids_in_usize(t)
                    implies false by {
                assert(bytes@[pos as int] == bytes@.skip(pos as int)[0]);
                match t {
                    Tree::Empty => {},
                    Tree::Node { point, id, meta, left, right } => {
                        lemma_node_decompose(
                            bytes@,
                            pos as int,
                            point,
                            id,
                            meta,
                            *left,
                            *right,
                            rest,
                        );
                        assert(bytes@.skip(p4 as int) == enc_tree(*left) + (enc_tree(*right)
                            + rest));
                    },
                }
            }
        }
        return None;
    }
    let (lnode, p5) = pl.unwrap();
    let pr = parse_tree(bytes, p5);
    if pr.is_none() {
        proof {
            assert forall|t: Tree, rest: Seq<u8>|
                bytes@.skip(pos as int) == #[trigger] (enc_tree(t) + rest) && ids_in_usize(t)
                    implies false by {
                assert(bytes@[pos as int] == bytes@.skip(pos as int)[0]);
                match t {
                    Tree::Empty => {},
                    Tree::Node { point, id, meta, left, right } => {
                        lemma_node_decompose(
                            bytes@,
                            pos as int,
                            point,
                            id,
                            meta,
                            *left,
                            *right,
                            rest,
                        );
                        assert(bytes@.skip(p4 as int) == enc_tree(*left) + (enc_tree(*right)
                            + rest));
                        assert(bytes@.skip(p5 as int) == enc_tree(*right) + rest);
                    },
                }
            }
        }
        return None;
    }
    let (rnode, p6) = pr.unwrap();
    let node = KDNode { point: pvec, id: id64 as usize, metadata: ms, left: lnode, right: rnode };
    let result = Some((Some(Box::new(node)), p6));
    proof {
        assert forall|t: Tree, rest: Seq<u8>|
            bytes@.skip(pos as int) == #[trigger] (enc_tree(t) + rest) && ids_in_usize(t) implies (
        view_tree(result->Some_0.0) == t && result->Some_0.1 == pos + enc_tree(t).len()) by {
            assert(bytes@[pos as int] == bytes@.skip(pos as int)[0]);
            match t {
                Tree::Empty => {},
                Tree::Node { point, id, meta, left, right } => {
                    lemma_node_decompose(bytes@, pos as int, point, id, meta, *left, *right, rest);
                    assert(pvec@ == point);
                    assert(id64 == id as u64);
                    assert(id64 as usize as int == id);
                    assert(ms@ == meta);
                    assert(bytes@.skip(p4 as int) == enc_tree(*left) + (enc_tree(*right) + rest));
                    assert(view_tree(lnode) == *left);
                    assert(p5 == p4 + enc_tree(*left).len());
                    assert(bytes@.skip(p5 as int) == enc_tree(*right) + rest);
                    assert(view_tree(rnode) == *right);
                    assert(p6 == p5 + enc_tree(*right).len());
                },
            }
        }
    }
    result
}

/// Reading back an encoded coordinate vector yields the vector.
pub proof fn lemma_dec_vec(b: Seq<u8>, pos: int, s: Seq<i32>, rest: Seq<u8>)
    requires
        0 <= pos <= b.len(),
        b.len() <= u64::MAX,
        b.skip(pos) == enc_vec(s) + rest,
    ensures
        dec_vec(b, pos) == Some((s, pos + 8 + 4 * s.len())),
{
    lemma_enc_coords_len(s);
    assert(le64(s.len() as u64).len() == 8);
    assert(enc_vec(s).len() == 8 + 4 * s.len());
    assert(b.skip(pos).len() == b.len() - pos);
    assert(b.len() - pos == 8 + 4 * s.len() + rest.len());
    assert forall|j: int| 0 <= j < 8 implies b[pos + j] == #[trigger] le64(s.len() as u64)[j] by {
        assert(b.skip(pos)[j] == b[pos + j]);
        assert((enc_vec(s) + rest)[j] == enc_vec(s)[j]);
        assert((le64(s.len() as u64) + enc_coords(s))[j] == le64(s.len() as u64)[j]);
    }
    lemma_le64_roundtrip(b, pos, s.len() as u64);
    assert forall|i: int| 0 <= i < b.len() - pos - 8 implies b.skip(pos + 8)[i] == (enc_coords(s)
        + rest)[i] by {
        assert(b.skip(pos + 8)[i] == b[pos + 8 + i]);
        assert(b[pos + 8 + i] == b.skip(pos)[8 + i]);
        assert((enc_vec(s) + rest)[8 + i] == (enc_coords(s) + rest)[i]);
    }
    assert(b.skip(pos + 8) =~= enc_coords(s) + rest);
    lemma_dec_coords(b, pos + 8, s, rest);
}

/// The encoding of the store splits off its first vector.
pub proof fn lemma_enc_vecs_first(ss: Seq<Seq<i32>>)
    requires
        ss.len() > 0,
    ensures
        enc_vecs(ss) == enc_vec(ss[0]) + enc_vecs(ss.drop_first()),
    decreases ss.len(),
{
    if ss.len() == 1 {
        assert(ss.drop_last() =~= Seq::<Seq<i32>>::empty());
        assert(ss.drop_first() =~= Seq::<Seq<i32>>::empty());
        assert(enc_vecs(ss) =~= enc_vec(ss[0]) + enc_vecs(ss.drop_first()));
    } else {
        lemma_enc_vecs_first(ss.drop_last());
        assert(ss.drop_last()[0] == ss[0]);
        assert(ss.drop_last().drop_first() =~= ss.drop_first().drop_last());
        assert(ss.drop_first().last() == ss.last());
        assert(enc_vecs(ss) =~= enc_vec(ss[0]) + enc_vecs(ss.drop_first()));
    }
}

/// Reading back the encoded store yields the store.
pub proof fn lemma_dec_vecs(b: Seq<u8>, pos: int, ss: Seq<Seq<i32>>, rest: Seq<u8>)
    requires
        0 <= pos <= b.len(),
        b.len() <= u64::MAX,
        b.skip(pos) == enc_vecs(ss) + rest,
    ensures
        dec_vecs(b, pos, ss.len() as int) == Some((ss, pos + enc_vecs(ss).len())),
    decreases ss.len(),
{
    if ss.len() == 0 {
        assert(enc_vecs(ss).len() == 0);
        assert(dec_vecs(b, pos, 0) == Some((Seq::<Seq<i32>>::empty(), pos)));
        assert(Seq::<Seq<i32>>::empty() =~= ss);
    } else {
        lemma_enc_vecs_first(ss);
        lemma_enc_coords_len(ss[0]);
        assert(b.skip(pos) =~= enc_vec(ss[0]) + (enc_vecs(ss.drop_first()) + rest));
        lemma_dec_vec(b, pos, ss[0], enc_vecs(ss.drop_first()) + rest);
        let p1 = pos + 8 + 4 * ss[0].len();
        assert(p1 <= b.len());
        assert forall|i: int| 0 <= i < b.len() - p1 implies b.skip(p1)[i] == (enc_vecs(
            ss.drop_first(),
        ) + rest)[i] by {
            assert(b.skip(p1)[i] == b[p1 + i]);
            assert(b[p1 + i] == b.skip(pos)[p1 - pos + i]);
            assert((enc_vec(ss[0]) + (enc_vecs(ss.drop_first()) + rest))[p1 - pos + i] == (enc_vecs(
                ss.drop_first(),
            ) + rest)[i]);
        }
        assert(b.skip(p1) =~= enc_vecs(ss.drop_first()) + rest);
        lemma_dec_vecs(b, p1, ss.drop_first(), rest);
        assert(seq![ss[0]] + ss.drop_first() =~= ss);
    }
}

/// Reading back an encoded string yields the string.
pub proof fn lemma_dec_str(b: Seq<u8>, pos: int, m: Seq<char>, rest: Seq<u8>)
    requires
        0 <= pos <= b.len(),
        b.len() <= u64::MAX,
        b.skip(pos) == enc_str(m) + rest,
    ensures
        dec_str(b, pos) == Some((m, pos + 8 + vstd::utf8::encode_utf8(m).len())),
{
    let e = vstd::utf8::encode_utf8(m);
    assert(le64(e.len() as u64).len() == 8);
    assert(b.skip(pos).len() == b.len() - pos);
    assert(b.len() - pos == 8 + e.len() + rest.len());
    assert forall|j: int| 0 <= j < 8 implies b[pos + j] == #[trigger] le64(e.len() as u64)[j] by {
        assert(b.skip(pos)[j] == b[pos + j]);
        assert((enc_str(m) + rest)[j] == enc_str(m)[j]);
        assert((le64(e.len() as u64) + e)[j] == le64(e.len() as u64)[j]);
    }
    lemma_le64_roundtrip(b, pos, e.len() as u64);
    assert forall|i: int| 0 <= i < e.len() implies b.subrange(pos + 8, pos + 8 + e.len())[i]
        == e[i] by {
        assert(b[pos + 8 + i] == b.skip(pos)[8 + i]);
        assert((enc_str(m) + rest)[8 + i] == enc_str(m)[8 + i]);
        assert((le64(e.len() as u64) + e)[8 + i] == e[i]);
    }
    assert(b.subrange(pos + 8, pos + 8 + e.len()) =~= e);
    vstd::utf8::encode_utf8_valid_utf8(m);
    vstd::utf8::encode_utf8_decode_utf8(m);
}

} // verus!
