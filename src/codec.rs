//! Fixed-width little-endian encoding of integers, identifiers, rectangles,
//! and length-prefixed strings and identifier sequences.

use vstd::prelude::*;
use vstd::utf8::*;

verus! {

/// A UUID: sixteen raw bytes, held as the little-endian reading of them.
#[derive(Clone, Copy, Debug, PartialEq, Eq, Structural, Hash)]
pub struct Id {
    pub value: u128,
}

/// A bounding rectangle: position and extent.
#[derive(Clone, Copy, Debug, PartialEq, Eq, Structural)]
pub struct Rect {
    pub x: u32,
    pub y: u32,
    pub w: u32,
    pub h: u32,
}

/// The ways reading or writing a container can fail.
#[derive(Clone, Copy, Debug, PartialEq, Eq, Structural)]
pub enum Error {
    /// Fewer bytes are available than a length field declares.
    Truncated,
    /// The footer's magic marker or format version is not recognised.
    UnsupportedVersion,
    /// A version index links to an offset that cannot hold an older index.
    CorruptChain,
    /// The requested identifier is absent from the chunk table.
    NotFound,
    /// Bytes that are present do not form a valid value (a name that is not
    /// UTF-8, an unknown node kind).
    InvalidData,
    /// The byte sink reported a failure.
    UnderlyingIo,
}

pub open spec fn pow256(n: nat) -> nat
    decreases n,
{
    if n == 0 {
        1
    } else {
        256 * pow256((n - 1) as nat)
    }
}

/// The `n` little-endian bytes of `v` (its low `n` bytes).
pub open spec fn le_bytes(v: nat, n: nat) -> Seq<u8>
    decreases n,
{
    if n == 0 {
        Seq::empty()
    } else {
        seq![(v % 256) as u8] + le_bytes(v / 256, (n - 1) as nat)
    }
}

/// The number that bytes `s` spell in little-endian order.
pub open spec fn le_value(s: Seq<u8>) -> nat
    decreases s.len(),
{
    if s.len() == 0 {
        0
    } else {
        s[0] as nat + 256 * le_value(s.drop_first())
    }
}

pub open spec fn id_bytes(id: Id) -> Seq<u8> {
    le_bytes(id.value as nat, 16)
}

pub open spec fn rect_bytes(r: Rect) -> Seq<u8> {
    le_bytes(r.x as nat, 4) + le_bytes(r.y as nat, 4) + le_bytes(r.w as nat, 4) + le_bytes(
        r.h as nat,
        4,
    )
}

/// A length-prefixed UTF-8 string.
pub open spec fn str_bytes(s: Seq<char>) -> Seq<u8> {
    le_bytes(encode_utf8(s).len(), 4) + encode_utf8(s)
}

/// Identifiers one after the other, sixteen bytes each.
pub open spec fn ids_bytes(ids: Seq<Id>) -> Seq<u8>
    decreases ids.len(),
{
    if ids.len() == 0 {
        Seq::empty()
    } else {
        ids_bytes(ids.drop_last()) + id_bytes(ids.last())
    }
}

/// The first `count` identifiers that `s` holds, sixteen bytes each.
pub open spec fn ids_parse(s: Seq<u8>, count: nat) -> Seq<Id>
    decreases count,
{
    if count == 0 {
        Seq::empty()
    } else {
        ids_parse(s, (count - 1) as nat).push(
            Id { value: le_value(s.subrange(16 * (count - 1), 16 * count as int)) as u128 },
        )
    }
}

pub proof fn lemma_pow256_values()
    ensures
        pow256(1) == 0x100,
        pow256(2) == 0x1_0000,
        pow256(4) == 0x1_0000_0000,
        pow256(8) == 0x1_0000_0000_0000_0000,
        pow256(16) == 0x1_0000_0000_0000_0000_0000_0000_0000_0000,
{
    reveal_with_fuel(pow256, 17);
}

pub proof fn lemma_le_bytes_len(v: nat, n: nat)
    ensures
        le_bytes(v, n).len() == n,
    decreases n,
{
    if n > 0 {
        lemma_le_bytes_len(v / 256, (n - 1) as nat);
    }
}

pub proof fn lemma_le_value_bound(s: Seq<u8>)
    ensures
        le_value(s) < pow256(s.len()),
    decreases s.len(),
{
    if s.len() > 0 {
        lemma_le_value_bound(s.drop_first());
        let r = le_value(s.drop_first());
        let p = pow256((s.len() - 1) as nat);
        assert(s[0] as nat + 256 * r < 256 * p) by (nonlinear_arith)
            requires
                r < p,
                s[0] < 256,
        ;
    }
}

/// Reading back the bytes of a value that fits returns the value.
pub proof fn lemma_le_round_trip(v: nat, n: nat)
    requires
        v < pow256(n),
    ensures
        le_value(le_bytes(v, n)) == v,
        le_bytes(v, n).len() == n,
    decreases n,
{
    lemma_le_bytes_len(v, n);
    if n > 0 {
        let p = pow256((n - 1) as nat);
        assert(v / 256 < p) by (nonlinear_arith)
            requires
                v < 256 * p,
        ;
        lemma_le_round_trip(v / 256, (n - 1) as nat);
        assert(le_bytes(v, n).drop_first() =~= le_bytes(v / 256, (n - 1) as nat));
        assert((v % 256) as u8 as nat == v % 256);
        assert(v % 256 + 256 * (v / 256) == v) by (nonlinear_arith);
    }
}

pub proof fn lemma_ids_bytes_len(ids: Seq<Id>)
    ensures
        ids_bytes(ids).len() == 16 * ids.len(),
    decreases ids.len(),
{
    if ids.len() > 0 {
        lemma_ids_bytes_len(ids.drop_last());
        lemma_le_bytes_len(ids.last().value as nat, 16);
    }
}

/// `ids_parse` reads back what `ids_bytes` wrote, whatever follows.
pub proof fn lemma_ids_round_trip(ids: Seq<Id>, rest: Seq<u8>)
    ensures
        ids_parse(ids_bytes(ids) + rest, ids.len()) == ids,
    decreases ids.len(),
{
    if ids.len() > 0 {
        let k = ids.len() - 1;
        let front = ids.drop_last();
        let last = ids.last();
        lemma_ids_bytes_len(front);
        lemma_le_bytes_len(last.value as nat, 16);
        lemma_pow256_values();
        let s = ids_bytes(ids) + rest;
        assert(s =~= ids_bytes(front) + (id_bytes(last) + rest));
        lemma_ids_round_trip(front, id_bytes(last) + rest);
        assert(s.subrange(16 * k, 16 * (k + 1)) =~= id_bytes(last));
        lemma_le_round_trip(last.value as nat, 16);
        assert(ids_parse(s, ids.len()) =~= ids);
    }
}

pub proof fn lemma_ids_parse_len(s: Seq<u8>, count: nat)
    ensures
        ids_parse(s, count).len() == count,
    decreases count,
{
    if count > 0 {
        lemma_ids_parse_len(s, (count - 1) as nat);
    }
}

/// Whether `ids` can be written with a 32-bit count.
pub open spec fn ids_fit(ids: Seq<Id>) -> bool {
    ids.len() <= u32::MAX
}

/// Appends the low `n` bytes of `v`, least significant first.
pub fn put_le(out: &mut Vec<u8>, v: u128, n: usize)
    requires
        n <= 16,
    ensures
        final(out)@ == old(out)@ + le_bytes(v as nat, n as nat),
{
    let mut x: u128 = v;
    let mut i: usize = 0;
    while i < n
        invariant
            i <= n,
            out@ + le_bytes(x as nat, (n - i) as nat) == old(out)@ + le_bytes(v as nat, n as nat),
        decreases n - i,
    {
        let ghost before = out@;
        out.push((x % 256) as u8);
        assert(le_bytes(x as nat, (n - i) as nat) == seq![(x % 256) as u8] + le_bytes(
            (x / 256) as nat,
            (n - i - 1) as nat,
        ));
        assert(out@ + le_bytes((x / 256) as nat, (n - i - 1) as nat) =~= before + le_bytes(
            x as nat,
            (n - i) as nat,
        ));
        x = x / 256;
        i = i + 1;
    }
    assert(le_bytes(x as nat, 0) =~= Seq::<u8>::empty());
    assert(out@ =~= out@ + le_bytes(x as nat, 0));
}

/// Reads the `n` bytes at `pos` as a little-endian number.
pub fn get_le(b: &[u8], pos: usize, n: usize) -> (v: u128)
    requires
        n <= 16,
        pos + n <= b@.len(),
    ensures
        v as nat == le_value(b@.subrange(pos as int, pos + n)),
        (v as nat) < pow256(n as nat),
{
    let len = b.len();
    let mut v: u128 = 0;
    let mut i: usize = n;
    proof {
        lemma_pow256_values();
        assert(b@.subrange(pos + n, pos + n).len() == 0);
    }
    while i > 0
        invariant
            i <= n <= 16,
            pos + n <= b@.len(),
            len == b@.len(),
            v as nat == le_value(b@.subrange(pos + i, pos + n)),
            (v as nat) < pow256((n - i) as nat),
            pow256(16) == 0x1_0000_0000_0000_0000_0000_0000_0000_0000,
        decreases i,
    {
        i = i - 1;
        let byte = b[pos + i];
        proof {
            let s = b@.subrange(pos + i, pos + n);
            assert(s.drop_first() =~= b@.subrange(pos + i + 1, pos + n));
            assert(s[0] == byte);
            let p = pow256((n - i - 1) as nat);
            lemma_pow_mono((n - i) as nat, 16);
            assert(byte as nat + 256 * v < 256 * p) by (nonlinear_arith)
                requires
                    v < p,
                    byte < 256,
            ;
        }
        v = v * 256 + byte as u128;
    }
    v
}

pub proof fn lemma_pow_mono(a: nat, b: nat)
    requires
        a <= b,
    ensures
        pow256(a) <= pow256(b),
    decreases b,
{
    if a < b {
        lemma_pow_mono(a, (b - 1) as nat);
    }
}


pub open spec fn rect_parse(s: Seq<u8>) -> Rect {
    Rect {
        x: le_value(s.subrange(0, 4)) as u32,
        y: le_value(s.subrange(4, 8)) as u32,
        w: le_value(s.subrange(8, 12)) as u32,
        h: le_value(s.subrange(12, 16)) as u32,
    }
}

/// What a length-prefixed string at the start of `s` decodes to, with the
/// number of bytes it takes.
pub open spec fn str_parse(s: Seq<u8>) -> Result<(Seq<char>, int), Error> {
    if s.len() < 4 {
        Err(Error::Truncated)
    } else {
        let n = le_value(s.subrange(0, 4)) as int;
        if s.len() < 4 + n {
            Err(Error::Truncated)
        } else if !valid_utf8(s.subrange(4, 4 + n)) {
            Err(Error::InvalidData)
        } else {
            Ok((decode_utf8(s.subrange(4, 4 + n)), 4 + n))
        }
    }
}

pub open spec fn str_fits(s: Seq<char>) -> bool {
    encode_utf8(s).len() <= u32::MAX
}

pub proof fn lemma_rect_round_trip(r: Rect, rest: Seq<u8>)
    ensures
        rect_parse(rect_bytes(r) + rest) == r,
        rect_bytes(r).len() == 16,
{
    lemma_pow256_values();
    lemma_le_round_trip(r.x as nat, 4);
    lemma_le_round_trip(r.y as nat, 4);
    lemma_le_round_trip(r.w as nat, 4);
    lemma_le_round_trip(r.h as nat, 4);
    let s = rect_bytes(r) + rest;
    assert(s.subrange(0, 4) =~= le_bytes(r.x as nat, 4));
    assert(s.subrange(4, 8) =~= le_bytes(r.y as nat, 4));
    assert(s.subrange(8, 12) =~= le_bytes(r.w as nat, 4));
    assert(s.subrange(12, 16) =~= le_bytes(r.h as nat, 4));
}

pub proof fn lemma_str_round_trip(x: Seq<char>, rest: Seq<u8>)
    requires
        str_fits(x),
    ensures
        str_parse(str_bytes(x) + rest) == Ok::<(Seq<char>, int), Error>(
            (x, str_bytes(x).len() as int),
        ),
{
    let e = encode_utf8(x);
    lemma_pow256_values();
    lemma_le_round_trip(e.len(), 4);
    encode_utf8_valid_utf8(x);
    encode_utf8_decode_utf8(x);
    let s = str_bytes(x) + rest;
    assert(s.subrange(0, 4) =~= le_bytes(e.len(), 4));
    assert(s.subrange(4, 4 + e.len() as int) =~= e);
}

/// Relies on `String::from_utf8`: it succeeds exactly on valid UTF-8, and the
/// string then holds those bytes.
#[verifier::external_body]
fn string_from_utf8(bytes: Vec<u8>) -> (r: Option<String>)
    ensures
        r.is_some() == valid_utf8(bytes@),
        r.is_some() ==> encode_utf8(r.unwrap()@) == bytes@,
{
    String::from_utf8(bytes).ok()
}

/// Appends the sixteen raw bytes of an identifier.
pub fn put_id(out: &mut Vec<u8>, id: Id)
    ensures
        final(out)@ == old(out)@ + id_bytes(id),
{
    put_le(out, id.value, 16);
}

/// Reads the identifier whose sixteen bytes start at `pos`.
pub fn get_id(b: &[u8], pos: usize) -> (r: Id)
    requires
        pos + 16 <= b@.len(),
    ensures
        r.value as nat == le_value(b@.subrange(pos as int, pos + 16)),
{
    let v = get_le(b, pos, 16);
    Id { value: v }
}

pub fn put_rect(out: &mut Vec<u8>, r: Rect)
    ensures
        final(out)@ == old(out)@ + rect_bytes(r),
{
    put_le(out, r.x as u128, 4);
    put_le(out, r.y as u128, 4);
    put_le(out, r.w as u128, 4);
    put_le(out, r.h as u128, 4);
    assert(final(out)@ =~= old(out)@ + rect_bytes(r));
}

pub fn get_rect(b: &[u8], pos: usize) -> (r: Rect)
    requires
        pos + 16 <= b@.len(),
    ensures
        r == rect_parse(b@.subrange(pos as int, pos + 16)),
{
    let len = b.len();
    proof {
        lemma_pow256_values();
    }
    let x = get_le(b, pos, 4) as u32;
    let y = get_le(b, pos + 4, 4) as u32;
    let w = get_le(b, pos + 8, 4) as u32;
    let h = get_le(b, pos + 12, 4) as u32;
    proof {
        let s = b@.subrange(pos as int, pos + 16);
        assert(s.subrange(0, 4) =~= b@.subrange(pos as int, pos + 4));
        assert(s.subrange(4, 8) =~= b@.subrange(pos + 4, pos + 8));
        assert(s.subrange(8, 12) =~= b@.subrange(pos + 8, pos + 12));
        assert(s.subrange(12, 16) =~= b@.subrange(pos + 12, pos + 16));
    }
    Rect { x, y, w, h }
}

/// Appends `s` as a 32-bit byte length followed by its UTF-8 bytes.
pub fn put_str(out: &mut Vec<u8>, s: &String)
    requires
        str_fits(s@),
    ensures
        final(out)@ == old(out)@ + str_bytes(s@),
{
    let bytes = s.as_str().as_bytes();
    put_le(out, bytes.len() as u128, 4);
    let ghost mid = out@;
    let mut i: usize = 0;
    while i < bytes.len()
        invariant
            i <= bytes@.len(),
            out@ == mid + bytes@.subrange(0, i as int),
        decreases bytes@.len() - i,
    {
        out.push(bytes[i]);
        assert(bytes@.subrange(0, i + 1) =~= bytes@.subrange(0, i as int).push(bytes@[i as int]));
        i = i + 1;
    }
    assert(bytes@.subrange(0, i as int) =~= bytes@);
}

/// Reads the length-prefixed string that starts at `pos`; on success returns
/// it with the position just past it.
pub fn get_str(b: &[u8], pos: usize) -> (r: Result<(String, usize), Error>)
    requires
        pos <= b@.len(),
    ensures
        match r {
            Ok((st, end)) => str_parse(b@.subrange(pos as int, b@.len() as int)) == Ok::<
                (Seq<char>, int),
                Error,
            >((st@, end - pos)),
            Err(e) => str_parse(b@.subrange(pos as int, b@.len() as int)) == Err::<
                (Seq<char>, int),
                Error,
            >(e),
        },
{
    let ghost s = b@.subrange(pos as int, b@.len() as int);
    if b.len() - pos < 4 {
        return Err(Error::Truncated);
    }
    proof {
        lemma_pow256_values();
        assert(s.subrange(0, 4) =~= b@.subrange(pos as int, pos + 4));
    }
    let n = get_le(b, pos, 4) as usize;
    if b.len() - pos - 4 < n {
        return Err(Error::Truncated);
    }
    let start = pos + 4;
    let end = start + n;
    let mut bytes: Vec<u8> = Vec::new();
    let mut i: usize = start;
    while i < end
        invariant
            start <= i <= end <= b@.len(),
            bytes@ == b@.subrange(start as int, i as int),
        decreases end - i,
    {
        bytes.push(b[i]);
        assert(b@.subrange(start as int, i + 1) =~= b@.subrange(start as int, i as int).push(
            b@[i as int],
        ));
        i = i + 1;
    }
    assert(s.subrange(4, 4 + n) =~= bytes@);
    match string_from_utf8(bytes) {
        Some(st) => {
            proof {
                decode_utf8_encode_utf8(bytes@);
                encode_utf8_decode_utf8(st@);
            }
            Ok((st, end))
        },
        None => Err(Error::InvalidData),
    }
}

/// Appends each identifier's sixteen bytes in order.
pub fn put_ids(out: &mut Vec<u8>, ids: &Vec<Id>)
    ensures
        final(out)@ == old(out)@ + ids_bytes(ids@),
{
    let mut i: usize = 0;
    while i < ids.len()
        invariant
            i <= ids@.len(),
            out@ == old(out)@ + ids_bytes(ids@.subrange(0, i as int)),
        decreases ids@.len() - i,
    {
        put_id(out, ids[i]);
        let ghost t = ids@.subrange(0, i + 1);
        assert(t.drop_last() =~= ids@.subrange(0, i as int));
        assert(out@ =~= old(out)@ + ids_bytes(t));
        i = i + 1;
    }
    assert(ids@.subrange(0, i as int) =~= ids@);
}

/// Reads `count` identifiers, sixteen bytes each, starting at `pos`.
pub fn get_ids(b: &[u8], pos: usize, count: usize) -> (r: Vec<Id>)
    requires
        pos + 16 * count <= b@.len(),
    ensures
        r@ == ids_parse(b@.subrange(pos as int, b@.len() as int), count as nat),
{
    let ghost s = b@.subrange(pos as int, b@.len() as int);
    let len = b.len();
    let mut r: Vec<Id> = Vec::new();
    let mut i: usize = 0;
    while i < count
        invariant
            i <= count,
            pos + 16 * count <= b@.len(),
            s == b@.subrange(pos as int, b@.len() as int),
            len == b@.len(),
            r@ == ids_parse(s, i as nat),
        decreases count - i,
    {
        let id = get_id(b, pos + 16 * i);
        assert(s.subrange(16 * i, 16 * (i + 1) as int) =~= b@.subrange(
            pos + 16 * i,
            pos + 16 * i + 16,
        ));
        r.push(id);
        i = i + 1;
    }
    r
}

} // verus!
