//! The records of a container: the chunk record that describes one stored
//! node, the version index that closes one saved version, and the footer
//! that ends the container.

use vstd::prelude::*;
use vstd::utf8::*;
use crate::codec::{
    Id, Rect, Error, le_bytes, le_value, id_bytes, rect_bytes, rect_parse, str_bytes, str_parse,
    str_fits, ids_bytes, ids_parse, ids_fit, lemma_pow256_values, lemma_le_round_trip,
    lemma_le_bytes_len, lemma_ids_bytes_len, lemma_ids_round_trip, lemma_rect_round_trip,
    lemma_str_round_trip, lemma_le_value_bound, lemma_ids_parse_len, put_le, get_le, put_id, get_id, put_rect, get_rect, put_str, get_str,
    put_ids, get_ids,
};

verus! {

/// The format version this library writes and reads.
pub const FORMAT_VERSION: u8 = 1;

/// Bytes taken by a footer.
pub const FOOTER_SIZE: usize = 5;

/// Bytes taken by a version index.
pub const INDEX_SIZE: usize = 44;

/// Bytes of a chunk record before its name.
pub const CHUNK_HEADER_SIZE: usize = 54;

/// The trailer at the very end of a container: a format version and the
/// marker "PXLR".
#[derive(Clone, Copy, Debug, Default, PartialEq, Eq, Structural)]
pub struct Footer {
    pub version: u8,
}

/// The trailer of one saved version.
#[derive(Clone, Copy, Debug, PartialEq, Eq, Structural)]
pub struct Index {
    /// Content or document identifier, kept across versions.
    pub hash: Id,
    /// The version's root node.
    pub root: Id,
    /// Bytes of the chunk table just before this index.
    pub size: u32,
    /// Offset of the previous version's index, or 0 for the first version.
    pub prev_offset: u64,
}

/// The directory record of one stored node.
#[derive(Clone, Debug)]
pub struct Chunk {
    pub id: Id,
    /// Discriminant of the node's kind.
    pub node: u16,
    /// Where the node's payload starts in the container.
    pub offset: u64,
    /// Bytes of payload.
    pub size: u32,
    pub rect: Rect,
    pub name: String,
    pub children: Vec<Id>,
    pub dependencies: Vec<Id>,
}

/// A chunk record as plain values.
pub struct ChunkView {
    pub id: Id,
    pub node: u16,
    pub offset: u64,
    pub size: u32,
    pub rect: Rect,
    pub name: Seq<char>,
    pub children: Seq<Id>,
    pub dependencies: Seq<Id>,
}

impl View for Chunk {
    type V = ChunkView;

    open spec fn view(&self) -> ChunkView {
        ChunkView {
            id: self.id,
            node: self.node,
            offset: self.offset,
            size: self.size,
            rect: self.rect,
            name: self.name@,
            children: self.children@,
            dependencies: self.dependencies@,
        }
    }
}

pub open spec fn magic_bytes() -> Seq<u8> {
    seq![80u8, 88u8, 76u8, 82u8]
}

pub open spec fn footer_bytes(f: Footer) -> Seq<u8> {
    seq![f.version] + magic_bytes()
}

/// The footer that the first five bytes of `s` hold.
pub open spec fn footer_parse(s: Seq<u8>) -> Result<Footer, Error> {
    if s.len() < 5 {
        Err(Error::Truncated)
    } else if s.subrange(1, 5) != magic_bytes() {
        Err(Error::UnsupportedVersion)
    } else {
        Ok(Footer { version: s[0] })
    }
}

pub open spec fn index_bytes(i: Index) -> Seq<u8> {
    le_bytes(i.prev_offset as nat, 8) + le_bytes(i.size as nat, 4) + id_bytes(i.root) + id_bytes(
        i.hash,
    )
}

/// The version index that the first 44 bytes of `s` hold.
pub open spec fn index_parse(s: Seq<u8>) -> Result<Index, Error> {
    if s.len() < 44 {
        Err(Error::Truncated)
    } else {
        Ok(
            Index {
                prev_offset: le_value(s.subrange(0, 8)) as u64,
                size: le_value(s.subrange(8, 12)) as u32,
                root: Id { value: le_value(s.subrange(12, 28)) as u128 },
                hash: Id { value: le_value(s.subrange(28, 44)) as u128 },
            },
        )
    }
}

/// Whether a chunk record's name and identifier lists fit their 32-bit
/// length fields.
pub open spec fn chunk_fits(c: ChunkView) -> bool {
    &&& str_fits(c.name)
    &&& ids_fit(c.children)
    &&& ids_fit(c.dependencies)
}

pub open spec fn chunk_bytes(c: ChunkView) -> Seq<u8> {
    id_bytes(c.id) + le_bytes(c.node as nat, 2) + le_bytes(c.offset as nat, 8) + le_bytes(
        c.size as nat,
        4,
    ) + rect_bytes(c.rect) + le_bytes(c.children.len(), 4) + le_bytes(c.dependencies.len(), 4)
        + str_bytes(c.name) + ids_bytes(c.children) + ids_bytes(c.dependencies)
}

/// The chunk record at the start of `s`, with the number of bytes it takes.
pub open spec fn chunk_parse(s: Seq<u8>) -> Result<(ChunkView, int), Error> {
    if s.len() < 54 {
        Err(Error::Truncated)
    } else {
        match str_parse(s.subrange(54, s.len() as int)) {
            Err(e) => Err(e),
            Ok((name, nl)) => {
                let cc = le_value(s.subrange(46, 50)) as int;
                let dc = le_value(s.subrange(50, 54)) as int;
                let p = 54 + nl;
                if s.len() < p + 16 * (cc + dc) {
                    Err(Error::Truncated)
                } else {
                    Ok(
                        (
                            ChunkView {
                                id: Id { value: le_value(s.subrange(0, 16)) as u128 },
                                node: le_value(s.subrange(16, 18)) as u16,
                                offset: le_value(s.subrange(18, 26)) as u64,
                                size: le_value(s.subrange(26, 30)) as u32,
                                rect: rect_parse(s.subrange(30, 46)),
                                name,
                                children: ids_parse(s.subrange(p, s.len() as int), cc as nat),
                                dependencies: ids_parse(
                                    s.subrange(p + 16 * cc, s.len() as int),
                                    dc as nat,
                                ),
                            },
                            p + 16 * (cc + dc),
                        ),
                    )
                }
            },
        }
    }
}

pub proof fn lemma_footer_round_trip(f: Footer, rest: Seq<u8>)
    ensures
        footer_parse(footer_bytes(f) + rest) == Ok::<Footer, Error>(f),
        footer_bytes(f).len() == 5,
{
    assert((footer_bytes(f) + rest).subrange(1, 5) =~= magic_bytes());
}

pub proof fn lemma_index_round_trip(i: Index, rest: Seq<u8>)
    ensures
        index_parse(index_bytes(i) + rest) == Ok::<Index, Error>(i),
        index_bytes(i).len() == 44,
{
    lemma_pow256_values();
    lemma_le_round_trip(i.prev_offset as nat, 8);
    lemma_le_round_trip(i.size as nat, 4);
    lemma_le_round_trip(i.root.value as nat, 16);
    lemma_le_round_trip(i.hash.value as nat, 16);
    let s = index_bytes(i) + rest;
    assert(s.subrange(0, 8) =~= le_bytes(i.prev_offset as nat, 8));
    assert(s.subrange(8, 12) =~= le_bytes(i.size as nat, 4));
    assert(s.subrange(12, 28) =~= id_bytes(i.root));
    assert(s.subrange(28, 44) =~= id_bytes(i.hash));
}


/// Reading back a chunk record that fits its length fields gives it again,
/// whatever follows it.
pub proof fn lemma_chunk_round_trip(c: ChunkView, rest: Seq<u8>)
    requires
        chunk_fits(c),
    ensures
        chunk_parse(chunk_bytes(c) + rest) == Ok::<(ChunkView, int), Error>(
            (c, chunk_bytes(c).len() as int),
        ),
{
    lemma_pow256_values();
    let cc = c.children.len() as int;
    let dc = c.dependencies.len() as int;
    let h0 = id_bytes(c.id);
    let h1 = le_bytes(c.node as nat, 2);
    let h2 = le_bytes(c.offset as nat, 8);
    let h3 = le_bytes(c.size as nat, 4);
    let h4 = rect_bytes(c.rect);
    let h5 = le_bytes(cc as nat, 4);
    let h6 = le_bytes(dc as nat, 4);
    let nm = str_bytes(c.name);
    let ic = ids_bytes(c.children);
    let id = ids_bytes(c.dependencies);
    lemma_le_round_trip(c.id.value as nat, 16);
    lemma_le_round_trip(c.node as nat, 2);
    lemma_le_round_trip(c.offset as nat, 8);
    lemma_le_round_trip(c.size as nat, 4);
    lemma_le_round_trip(cc as nat, 4);
    lemma_le_round_trip(dc as nat, 4);
    lemma_rect_round_trip(c.rect, Seq::empty());
    lemma_ids_bytes_len(c.children);
    lemma_ids_bytes_len(c.dependencies);
    lemma_le_bytes_len(encode_utf8(c.name).len(), 4);
    let s = chunk_bytes(c) + rest;
    let p = 54 + nm.len() as int;
    assert(s =~= h0 + h1 + h2 + h3 + h4 + h5 + h6 + nm + ic + id + rest);
    assert(s.subrange(0, 16) =~= h0);
    assert(s.subrange(16, 18) =~= h1);
    assert(s.subrange(18, 26) =~= h2);
    assert(s.subrange(26, 30) =~= h3);
    assert(s.subrange(30, 46) =~= h4);
    assert(rect_bytes(c.rect) + Seq::<u8>::empty() =~= rect_bytes(c.rect));
    assert(s.subrange(46, 50) =~= h5);
    assert(s.subrange(50, 54) =~= h6);
    assert(s.subrange(54, s.len() as int) =~= nm + (ic + id + rest));
    lemma_str_round_trip(c.name, ic + id + rest);
    assert(s.subrange(p, s.len() as int) =~= ic + (id + rest));
    lemma_ids_round_trip(c.children, id + rest);
    assert(s.subrange(p + 16 * cc, s.len() as int) =~= id + rest);
    lemma_ids_round_trip(c.dependencies, rest);
    assert(chunk_bytes(c).len() == p + 16 * (cc + dc));
}

/// Relies on `uuid::Uuid::new_v4`: a random identifier, of which nothing is
/// promised.
#[verifier::external_body]
fn random_id() -> (r: Id) {
    Id { value: uuid::Uuid::new_v4().to_u128_le() }
}

impl Default for Index {
    /// A version index of a fresh document: a random document identifier,
    /// the nil root, an empty table, no previous version.
    fn default() -> (r: Index)
        ensures
            r.root == (Id { value: 0 }),
            r.size == 0,
            r.prev_offset == 0,
    {
        Index { hash: random_id(), root: Id { value: 0 }, size: 0, prev_offset: 0 }
    }
}

impl Default for Chunk {
    /// A record under a random identifier, named "Chunk", with no payload,
    /// bounds, children or dependencies.
    fn default() -> (r: Chunk)
        ensures
            r.node == 0,
            r.offset == 0,
            r.size == 0,
            r.rect == (Rect { x: 0, y: 0, w: 0, h: 0 }),
            r.name@ == "Chunk"@,
            r.children@.len() == 0,
            r.dependencies@.len() == 0,
    {
        Chunk {
            id: random_id(),
            node: 0,
            offset: 0,
            size: 0,
            rect: Rect { x: 0, y: 0, w: 0, h: 0 },
            name: String::from_str("Chunk"),
            children: Vec::new(),
            dependencies: Vec::new(),
        }
    }
}

impl Footer {
    /// Appends the footer's five bytes; returns how many were written.
    pub fn write(&self, out: &mut Vec<u8>) -> (n: usize)
        ensures
            final(out)@ == old(out)@ + footer_bytes(*self),
            n == 5,
    {
        out.push(self.version);
        out.push(80u8);
        out.push(88u8);
        out.push(76u8);
        out.push(82u8);
        assert(final(out)@ =~= old(out)@ + footer_bytes(*self));
        5
    }

    /// Reads the footer at `pos`; returns it with the position past it.
    pub fn parse(b: &[u8], pos: usize) -> (r: Result<(Footer, usize), Error>)
        requires
            pos <= b@.len(),
        ensures
            match r {
                Ok((f, end)) => footer_parse(b@.subrange(pos as int, b@.len() as int)) == Ok::<
                    Footer,
                    Error,
                >(f) && end == pos + 5,
                Err(e) => footer_parse(b@.subrange(pos as int, b@.len() as int)) == Err::<
                    Footer,
                    Error,
                >(e),
            },
    {
        let ghost s = b@.subrange(pos as int, b@.len() as int);
        if b.len() - pos < 5 {
            return Err(Error::Truncated);
        }
        if b[pos + 1] != 80u8 || b[pos + 2] != 88u8 || b[pos + 3] != 76u8 || b[pos + 4] != 82u8 {
            assert(s.subrange(1, 5) != magic_bytes()) by {
                if s.subrange(1, 5) == magic_bytes() {
                    assert(s.subrange(1, 5)[0] == 80u8);
                    assert(s.subrange(1, 5)[1] == 88u8);
                    assert(s.subrange(1, 5)[2] == 76u8);
                    assert(s.subrange(1, 5)[3] == 82u8);
                }
            }
            return Err(Error::UnsupportedVersion);
        }
        assert(s.subrange(1, 5) =~= magic_bytes());
        Ok((Footer { version: b[pos] }, pos + 5))
    }
}

impl Index {
    /// Appends the index's 44 bytes; returns how many were written.
    pub fn write(&self, out: &mut Vec<u8>) -> (n: usize)
        ensures
            final(out)@ == old(out)@ + index_bytes(*self),
            n == 44,
    {
        put_le(out, self.prev_offset as u128, 8);
        put_le(out, self.size as u128, 4);
        put_id(out, self.root);
        put_id(out, self.hash);
        assert(final(out)@ =~= old(out)@ + index_bytes(*self));
        44
    }

    /// Reads the version index at `pos`; returns it with the position past it.
    pub fn parse(b: &[u8], pos: usize) -> (r: Result<(Index, usize), Error>)
        requires
            pos <= b@.len(),
        ensures
            match r {
                Ok((i, end)) => index_parse(b@.subrange(pos as int, b@.len() as int)) == Ok::<
                    Index,
                    Error,
                >(i) && end == pos + 44,
                Err(e) => index_parse(b@.subrange(pos as int, b@.len() as int)) == Err::<
                    Index,
                    Error,
                >(e),
            },
    {
        let ghost s = b@.subrange(pos as int, b@.len() as int);
        if b.len() - pos < 44 {
            return Err(Error::Truncated);
        }
        proof {
            lemma_pow256_values();
        }
        let prev_offset = get_le(b, pos, 8) as u64;
        let size = get_le(b, pos + 8, 4) as u32;
        let root = get_id(b, pos + 12);
        let hash = get_id(b, pos + 28);
        assert(s.subrange(0, 8) =~= b@.subrange(pos as int, pos + 8));
        assert(s.subrange(8, 12) =~= b@.subrange(pos + 8, pos + 12));
        assert(s.subrange(12, 28) =~= b@.subrange(pos + 12, pos + 28));
        assert(s.subrange(28, 44) =~= b@.subrange(pos + 28, pos + 44));
        Ok((Index { hash, root, size, prev_offset }, pos + 44))
    }
}

impl Chunk {
    /// Appends the chunk record; returns how many bytes were written.
    pub fn write(&self, out: &mut Vec<u8>) -> (n: usize)
        requires
            chunk_fits(self@),
        ensures
            final(out)@ == old(out)@ + chunk_bytes(self@),
            n == chunk_bytes(self@).len(),
    {
        let start = out.len();
        put_id(out, self.id);
        put_le(out, self.node as u128, 2);
        put_le(out, self.offset as u128, 8);
        put_le(out, self.size as u128, 4);
        put_rect(out, self.rect);
        put_le(out, self.children.len() as u128, 4);
        put_le(out, self.dependencies.len() as u128, 4);
        put_str(out, &self.name);
        put_ids(out, &self.children);
        put_ids(out, &self.dependencies);
        assert(final(out)@ =~= old(out)@ + chunk_bytes(self@));
        out.len() - start
    }

    /// Reads the chunk record at `pos`; returns it with the position past it.
    pub fn parse(b: &[u8], pos: usize) -> (r: Result<(Chunk, usize), Error>)
        requires
            pos <= b@.len(),
        ensures
            match r {
                Ok((c, end)) => chunk_parse(b@.subrange(pos as int, b@.len() as int)) == Ok::<
                    (ChunkView, int),
                    Error,
                >((c@, end - pos)),
                Err(e) => chunk_parse(b@.subrange(pos as int, b@.len() as int)) == Err::<
                    (ChunkView, int),
                    Error,
                >(e),
            },
    {
        let ghost s = b@.subrange(pos as int, b@.len() as int);
        let len = b.len();
        if len - pos < 54 {
            return Err(Error::Truncated);
        }
        proof {
            lemma_pow256_values();
        }
        let id = get_id(b, pos);
        let node = get_le(b, pos + 16, 2) as u16;
        let offset = get_le(b, pos + 18, 8) as u64;
        let size = get_le(b, pos + 26, 4) as u32;
        let rect = get_rect(b, pos + 30);
        let cc = get_le(b, pos + 46, 4) as u64;
        let dc = get_le(b, pos + 50, 4) as u64;
        assert(s.subrange(0, 16) =~= b@.subrange(pos as int, pos + 16));
        assert(s.subrange(16, 18) =~= b@.subrange(pos + 16, pos + 18));
        assert(s.subrange(18, 26) =~= b@.subrange(pos + 18, pos + 26));
        assert(s.subrange(26, 30) =~= b@.subrange(pos + 26, pos + 30));
        assert(s.subrange(30, 46) =~= b@.subrange(pos + 30, pos + 46));
        assert(s.subrange(46, 50) =~= b@.subrange(pos + 46, pos + 50));
        assert(s.subrange(50, 54) =~= b@.subrange(pos + 50, pos + 54));
        assert(s.subrange(54, s.len() as int) =~= b@.subrange(pos + 54, b@.len() as int));
        let (name, p) = match get_str(b, pos + 54) {
            Ok(x) => x,
            Err(e) => {
                return Err(e);
            },
        };
        if ((len - p) as u64) < 16 * (cc + dc) {
            return Err(Error::Truncated);
        }
        let children = get_ids(b, p, cc as usize);
        let q = p + 16 * (cc as usize);
        let dependencies = get_ids(b, q, dc as usize);
        assert(s.subrange(p - pos, s.len() as int) =~= b@.subrange(p as int, b@.len() as int));
        assert(s.subrange(q - pos, s.len() as int) =~= b@.subrange(q as int, b@.len() as int));
        let end = q + 16 * (dc as usize);
        let c = Chunk { id, node, offset, size, rect, name, children, dependencies };
        Ok((c, end))
    }
}


/// The plain values of each record.
pub open spec fn views(cs: Seq<Chunk>) -> Seq<ChunkView> {
    cs.map_values(|c: Chunk| c@)
}

/// Chunk records one after the other.
pub open spec fn table_bytes(cs: Seq<ChunkView>) -> Seq<u8>
    decreases cs.len(),
{
    if cs.len() == 0 {
        Seq::empty()
    } else {
        chunk_bytes(cs[0]) + table_bytes(cs.drop_first())
    }
}

/// The chunk records that fill `s` exactly.
pub open spec fn table_parse(s: Seq<u8>) -> Result<Seq<ChunkView>, Error>
    decreases s.len(),
{
    if s.len() == 0 {
        Ok(Seq::empty())
    } else {
        match chunk_parse(s) {
            Err(e) => Err(e),
            Ok((c, n)) => if 0 < n <= s.len() {
                match table_parse(s.subrange(n, s.len() as int)) {
                    Ok(t) => Ok(seq![c] + t),
                    Err(e) => Err(e),
                }
            } else {
                Err(Error::Truncated)
            },
        }
    }
}

pub open spec fn table_fits(cs: Seq<ChunkView>) -> bool {
    forall|i: int| 0 <= i < cs.len() ==> chunk_fits(#[trigger] cs[i])
}

pub proof fn lemma_chunk_bytes_len(c: ChunkView)
    ensures
        chunk_bytes(c).len() >= 58,
{
    lemma_le_bytes_len(encode_utf8(c.name).len(), 4);
    lemma_le_bytes_len(c.id.value as nat, 16);
    lemma_le_bytes_len(c.node as nat, 2);
    lemma_le_bytes_len(c.offset as nat, 8);
    lemma_le_bytes_len(c.size as nat, 4);
    lemma_le_bytes_len(c.children.len(), 4);
    lemma_le_bytes_len(c.dependencies.len(), 4);
    lemma_rect_round_trip(c.rect, Seq::empty());
}

/// Every record takes at least 58 bytes.
pub proof fn lemma_table_bytes_min(cs: Seq<ChunkView>)
    ensures
        table_bytes(cs).len() >= 58 * cs.len(),
    decreases cs.len(),
{
    if cs.len() > 0 {
        lemma_chunk_bytes_len(cs[0]);
        lemma_table_bytes_min(cs.drop_first());
    }
}

pub proof fn lemma_table_bytes_push(cs: Seq<ChunkView>, c: ChunkView)
    ensures
        table_bytes(cs.push(c)) == table_bytes(cs) + chunk_bytes(c),
    decreases cs.len(),
{
    if cs.len() == 0 {
        assert(cs.push(c).drop_first() =~= Seq::<ChunkView>::empty());
        assert(cs.push(c)[0] == c);
        assert(table_bytes(Seq::<ChunkView>::empty()) =~= Seq::<u8>::empty());
        assert(table_bytes(cs) =~= Seq::<u8>::empty());
        assert(table_bytes(cs.push(c)) =~= chunk_bytes(c) + Seq::<u8>::empty());
        assert(table_bytes(cs.push(c)) =~= table_bytes(cs) + chunk_bytes(c));
    } else {
        assert(cs.push(c).drop_first() =~= cs.drop_first().push(c));
        lemma_table_bytes_push(cs.drop_first(), c);
        assert(table_bytes(cs.push(c)) =~= table_bytes(cs) + chunk_bytes(c));
    }
}

/// Every record read from bytes fits its length fields.
pub proof fn lemma_chunk_parse_fits(s: Seq<u8>)
    requires
        chunk_parse(s) is Ok,
    ensures
        chunk_fits(chunk_parse(s).unwrap().0),
        chunk_parse(s).unwrap().1 >= 58,
        chunk_parse(s).unwrap().1 <= s.len(),
{
    lemma_pow256_values();
    let r = s.subrange(54, s.len() as int);
    lemma_le_value_bound(r.subrange(0, 4));
    let n = le_value(r.subrange(0, 4)) as int;
    decode_utf8_encode_utf8(r.subrange(4, 4 + n));
    lemma_le_value_bound(s.subrange(46, 50));
    lemma_le_value_bound(s.subrange(50, 54));
    let cc = le_value(s.subrange(46, 50)) as int;
    let dc = le_value(s.subrange(50, 54)) as int;
    let p = 54 + 4 + n;
    lemma_ids_parse_len(s.subrange(p, s.len() as int), cc as nat);
    lemma_ids_parse_len(s.subrange(p + 16 * cc, s.len() as int), dc as nat);
}

/// Every table read from bytes holds records that fit their length fields.
pub proof fn lemma_table_parse_fits(s: Seq<u8>)
    requires
        table_parse(s) is Ok,
    ensures
        table_fits(table_parse(s).unwrap()),
    decreases s.len(),
{
    if s.len() > 0 {
        lemma_chunk_parse_fits(s);
        let (c, n) = chunk_parse(s).unwrap();
        let rest = s.subrange(n, s.len() as int);
        lemma_table_parse_fits(rest);
        let t = table_parse(s).unwrap();
        assert(t == seq![c] + table_parse(rest).unwrap());
        assert forall|i: int| 0 <= i < t.len() implies chunk_fits(#[trigger] t[i]) by {
            if i > 0 {
                assert(t[i] == table_parse(rest).unwrap()[i - 1]);
            }
        }
    }
}

/// Reading back a table of records that fit gives the records again.
pub proof fn lemma_table_round_trip(cs: Seq<ChunkView>)
    requires
        table_fits(cs),
    ensures
        table_parse(table_bytes(cs)) == Ok::<Seq<ChunkView>, Error>(cs),
    decreases cs.len(),
{
    if cs.len() == 0 {
        assert(table_bytes(cs).len() == 0);
        assert(cs =~= Seq::<ChunkView>::empty());
    } else {
        let rest = cs.drop_first();
        let s = table_bytes(cs);
        assert(table_fits(rest)) by {
            assert forall|i: int| 0 <= i < rest.len() implies chunk_fits(#[trigger] rest[i]) by {
                assert(rest[i] == cs[i + 1]);
            }
        }
        assert(chunk_fits(cs[0]));
        lemma_chunk_round_trip(cs[0], table_bytes(rest));
        lemma_chunk_bytes_len(cs[0]);
        let n = chunk_bytes(cs[0]).len() as int;
        assert(s.subrange(n, s.len() as int) =~= table_bytes(rest));
        lemma_table_round_trip(rest);
        assert(seq![cs[0]] + rest =~= cs);
    }
}

/// Appends the records in order; returns how many bytes were written.
pub fn write_table(out: &mut Vec<u8>, cs: &Vec<Chunk>) -> (n: usize)
    requires
        table_fits(views(cs@)),
    ensures
        final(out)@ == old(out)@ + table_bytes(views(cs@)),
        n == table_bytes(views(cs@)).len(),
{
    let start = out.len();
    let mut i: usize = 0;
    while i < cs.len()
        invariant
            i <= cs@.len(),
            table_fits(views(cs@)),
            start == old(out)@.len(),
            out@ == old(out)@ + table_bytes(views(cs@.subrange(0, i as int))),
        decreases cs@.len() - i,
    {
        assert(views(cs@)[i as int] == cs@[i as int]@);
        cs[i].write(out);
        proof {
            let a = views(cs@.subrange(0, i as int));
            assert(views(cs@.subrange(0, i + 1)) =~= a.push(cs@[i as int]@));
            lemma_table_bytes_push(a, cs@[i as int]@);
        }
        i = i + 1;
    }
    assert(cs@.subrange(0, i as int) =~= cs@);
    out.len() - start
}

/// Decodes the chunk records that fill `t` exactly.
pub fn parse_table(t: &[u8]) -> (r: Result<Vec<Chunk>, Error>)
    ensures
        match r {
            Ok(cs) => table_parse(t@) == Ok::<Seq<ChunkView>, Error>(views(cs@)),
            Err(e) => table_parse(t@) == Err::<Seq<ChunkView>, Error>(e),
        },
{
    let len = t.len();
    let mut cs: Vec<Chunk> = Vec::new();
    let mut pos: usize = 0;
    assert(t@.subrange(0, len as int) =~= t@);
    assert(views(cs@) =~= Seq::<ChunkView>::empty());
    proof {
        match table_parse(t@) {
            Ok(rest) => {
                assert(views(cs@) + rest =~= rest);
            },
            Err(_) => {},
        }
    }
    while pos < len
        invariant
            pos <= len == t@.len(),
            table_parse(t@) == match table_parse(t@.subrange(pos as int, len as int)) {
                Ok(rest) => Ok::<Seq<ChunkView>, Error>(views(cs@) + rest),
                Err(e) => Err(e),
            },
        decreases len - pos,
    {
        let ghost s = t@.subrange(pos as int, len as int);
        match Chunk::parse(t, pos) {
            Ok((c, end)) => {
                proof {
                    assert(s.subrange(end - pos, s.len() as int) =~= t@.subrange(
                        end as int,
                        len as int,
                    ));
                    assert(views(cs@.push(c)) =~= views(cs@) + seq![c@]);
                    match table_parse(t@.subrange(end as int, len as int)) {
                        Ok(rest) => {
                            assert(views(cs@) + (seq![c@] + rest) =~= views(cs@.push(c))
                                + rest);
                        },
                        Err(e) => {},
                    }
                }
                cs.push(c);
                pos = end;
            },
            Err(e) => {
                return Err(e);
            },
        }
    }
    assert(t@.subrange(len as int, len as int) =~= Seq::<u8>::empty());
    assert(views(cs@) + Seq::<ChunkView>::empty() =~= views(cs@));
    Ok(cs)
}

} // verus!
