//! A document container: reading a version (footer, version index, chunk
//! table), walking the chain of older versions, resolving nodes, and saving
//! a new version with reachability compaction.

use vstd::prelude::*;
use crate::codec::{Id, Error, lemma_le_bytes_len};
use crate::meta::{
    Footer, Index, Chunk, ChunkView, FORMAT_VERSION, footer_parse, index_parse, table_parse,
    table_bytes, views, parse_table, chunk_bytes, chunk_fits, table_fits, footer_bytes,
    index_bytes, write_table, lemma_table_bytes_push, lemma_table_round_trip,
    lemma_footer_round_trip, lemma_index_round_trip, lemma_table_parse_fits, lemma_table_bytes_min,
};
use crate::node::{NodeKind, Node, NodeType, NodeView, kind_of_code, kind_code};
use crate::graph::{find, find_chunk, lemma_find, closed, reaches, mark_reachable};

verus! {

/// An open container: one version's index and chunk table.
pub struct File {
    pub footer: Footer,
    pub index: Index,
    /// Offset of `index` in the container; 0 while no version is loaded.
    pub offset: u64,
    pub chunks: Vec<Chunk>,
}

/// A loaded version as plain values.
pub struct FileView {
    pub footer: Footer,
    pub offset: int,
    pub index: Index,
    pub chunks: Seq<ChunkView>,
}

impl View for File {
    type V = FileView;

    open spec fn view(&self) -> FileView {
        FileView {
            footer: self.footer,
            offset: self.offset as int,
            index: self.index,
            chunks: views(self.chunks@),
        }
    }
}

/// The version index at offset `o` of container `b`, with the records of the
/// chunk table just before it.
pub open spec fn version_at(b: Seq<u8>, o: int) -> Result<(Index, Seq<ChunkView>), Error> {
    if o < 0 || o > b.len() {
        Err(Error::CorruptChain)
    } else {
        match index_parse(b.subrange(o, b.len() as int)) {
            Err(e) => Err(e),
            Ok(i) => if i.size > o {
                Err(Error::Truncated)
            } else {
                match table_parse(b.subrange(o - i.size, o)) {
                    Ok(t) => Ok((i, t)),
                    Err(e) => Err(e),
                }
            },
        }
    }
}

/// Whether `b` ends with a footer of the supported format; the failure when
/// it does not.
pub open spec fn footer_check(b: Seq<u8>) -> Result<Footer, Error> {
    if b.len() < 5 {
        Err(Error::UnsupportedVersion)
    } else {
        match footer_parse(b.subrange(b.len() - 5, b.len() as int)) {
            Err(_) => Err(Error::UnsupportedVersion),
            Ok(f) => if f.version != FORMAT_VERSION {
                Err(Error::UnsupportedVersion)
            } else {
                Ok(f)
            },
        }
    }
}

/// Offset of the newest version index: just before the footer.
pub open spec fn latest_offset(b: Seq<u8>) -> int {
    b.len() - 49
}

/// Walks back from the index at `o` along `prev_offset` links to the index
/// at offset `target`; `None` stands for the index at `o` itself.
pub open spec fn resolve_from(b: Seq<u8>, o: int, target: Option<u64>) -> Result<(int, Index), Error>
    decreases o,
{
    if o < 0 || o > b.len() {
        Err(Error::CorruptChain)
    } else {
        match index_parse(b.subrange(o, b.len() as int)) {
            Err(e) => Err(e),
            Ok(i) => if target is None || target == Some(o as u64) {
                Ok((o, i))
            } else if i.prev_offset == 0 {
                Err(Error::NotFound)
            } else if i.prev_offset + 44 > o {
                Err(Error::CorruptChain)
            } else {
                resolve_from(b, i.prev_offset as int, target)
            },
        }
    }
}


/// The version indexes from the one at `o` back to the first, each with its
/// offset.
pub open spec fn chain_from(b: Seq<u8>, o: int) -> Result<Seq<(int, Index)>, Error>
    decreases o,
{
    if o < 0 || o > b.len() {
        Err(Error::CorruptChain)
    } else {
        match index_parse(b.subrange(o, b.len() as int)) {
            Err(e) => Err(e),
            Ok(i) => if i.prev_offset == 0 {
                Ok(seq![(o, i)])
            } else if i.prev_offset + 44 > o {
                Err(Error::CorruptChain)
            } else {
                match chain_from(b, i.prev_offset as int) {
                    Ok(c) => Ok(seq![(o, i)] + c),
                    Err(e) => Err(e),
                }
            },
        }
    }
}

/// Every version of container `b`, newest first.
pub open spec fn chain(b: Seq<u8>) -> Result<Seq<(int, Index)>, Error> {
    match footer_check(b) {
        Err(e) => Err(e),
        Ok(_) => if b.len() < 49 {
            Err(Error::Truncated)
        } else {
            chain_from(b, latest_offset(b))
        },
    }
}

/// What opening container `b` at version `target` (`None`: the newest)
/// yields.
pub open spec fn open_spec(b: Seq<u8>, target: Option<u64>) -> Result<FileView, Error> {
    match footer_check(b) {
        Err(e) => Err(e),
        Ok(f) => if b.len() < 49 {
            Err(Error::Truncated)
        } else {
            match resolve_from(b, latest_offset(b), target) {
                Err(e) => Err(e),
                Ok((o, _)) => match version_at(b, o) {
                    Err(e) => Err(e),
                    Ok((i, t)) => Ok(FileView { footer: f, offset: o, index: i, chunks: t }),
                },
            }
        },
    }
}

/// The node with identifier `id` in version table `t` of container `b`.
pub open spec fn node_lookup(t: Seq<ChunkView>, b: Seq<u8>, id: Id) -> Result<
    (NodeKind, NodeView),
    Error,
> {
    let k = find(t, id);
    if k < 0 {
        Err(Error::NotFound)
    } else {
        let c = t[k];
        if c.offset + c.size > b.len() {
            Err(Error::Truncated)
        } else {
            match kind_of_code(c.node) {
                None => Err(Error::InvalidData),
                Some(kind) => Ok(
                    (
                        kind,
                        NodeView {
                            id: c.id,
                            name: c.name,
                            rect: c.rect,
                            payload: b.subrange(c.offset as int, c.offset + c.size),
                            children: c.children,
                            dependencies: c.dependencies,
                        },
                    ),
                ),
            }
        }
    }
}

/// The node with identifier `id` in version table `t`, given the bytes of
/// its payload.
pub open spec fn node_from_payload(t: Seq<ChunkView>, id: Id, payload: Seq<u8>) -> Result<
    (NodeKind, NodeView),
    Error,
> {
    let k = find(t, id);
    if k < 0 {
        Err(Error::NotFound)
    } else {
        let c = t[k];
        if payload.len() != c.size {
            Err(Error::Truncated)
        } else {
            match kind_of_code(c.node) {
                None => Err(Error::InvalidData),
                Some(kind) => Ok(
                    (
                        kind,
                        NodeView {
                            id: c.id,
                            name: c.name,
                            rect: c.rect,
                            payload,
                            children: c.children,
                            dependencies: c.dependencies,
                        },
                    ),
                ),
            }
        }
    }
}

fn read_footer(b: &[u8]) -> (r: Result<Footer, Error>)
    ensures
        r == footer_check(b@),
{
    let len = b.len();
    if len < 5 {
        return Err(Error::UnsupportedVersion);
    }
    match Footer::parse(b, len - 5) {
        Err(_) => Err(Error::UnsupportedVersion),
        Ok((f, _)) => if f.version != FORMAT_VERSION {
            Err(Error::UnsupportedVersion)
        } else {
            Ok(f)
        },
    }
}

fn resolve(b: &[u8], start: u64, target: Option<u64>) -> (r: Result<(u64, Index), Error>)
    ensures
        match r {
            Ok((o, i)) => resolve_from(b@, start as int, target) == Ok::<(int, Index), Error>(
                (o as int, i),
            ),
            Err(e) => resolve_from(b@, start as int, target) == Err::<(int, Index), Error>(e),
        },
{
    let len = b.len();
    let mut o = start;
    loop
        invariant
            len == b@.len(),
            resolve_from(b@, start as int, target) == resolve_from(b@, o as int, target),
        decreases o,
    {
        if o > len as u64 {
            return Err(Error::CorruptChain);
        }
        let (i, _) = match Index::parse(b, o as usize) {
            Ok(x) => x,
            Err(e) => {
                return Err(e);
            },
        };
        let hit = match target {
            None => true,
            Some(t) => t == o,
        };
        if hit {
            return Ok((o, i));
        }
        if i.prev_offset == 0 {
            return Err(Error::NotFound);
        }
        if i.prev_offset > o || o - i.prev_offset < 44 {
            return Err(Error::CorruptChain);
        }
        o = i.prev_offset;
    }
}

fn load_version(b: &[u8], o: u64) -> (r: Result<(Index, Vec<Chunk>), Error>)
    ensures
        match r {
            Ok((i, t)) => version_at(b@, o as int) == Ok::<(Index, Seq<ChunkView>), Error>(
                (i, views(t@)),
            ),
            Err(e) => version_at(b@, o as int) == Err::<(Index, Seq<ChunkView>), Error>(e),
        },
{
    let len = b.len();
    if o > len as u64 {
        return Err(Error::CorruptChain);
    }
    let (i, _) = match Index::parse(b, o as usize) {
        Ok(x) => x,
        Err(e) => {
            return Err(e);
        },
    };
    if i.size as u64 > o {
        return Err(Error::Truncated);
    }
    let start = (o - i.size as u64) as usize;
    let table = vstd::slice::slice_subrange(b, start, o as usize);
    match parse_table(table) {
        Ok(t) => Ok((i, t)),
        Err(e) => Err(e),
    }
}

/// Copies a list of identifiers.
pub fn copy_ids(v: &Vec<Id>) -> (r: Vec<Id>)
    ensures
        r@ == v@,
{
    let mut r: Vec<Id> = Vec::new();
    let mut i: usize = 0;
    while i < v.len()
        invariant
            i <= v@.len(),
            r@ == v@.subrange(0, i as int),
        decreases v@.len() - i,
    {
        r.push(v[i]);
        assert(r@ =~= v@.subrange(0, i + 1));
        i = i + 1;
    }
    assert(r@ =~= v@);
    r
}

/// Copies bytes `start .. end` of `b`.
pub fn copy_bytes(b: &[u8], start: usize, end: usize) -> (r: Vec<u8>)
    requires
        start <= end <= b@.len(),
    ensures
        r@ == b@.subrange(start as int, end as int),
{
    let mut r: Vec<u8> = Vec::new();
    let mut i: usize = start;
    while i < end
        invariant
            start <= i <= end <= b@.len(),
            r@ == b@.subrange(start as int, i as int),
        decreases end - i,
    {
        r.push(b[i]);
        assert(r@ =~= b@.subrange(start as int, i + 1));
        i = i + 1;
    }
    r
}

/// The record a node gets before its payload is placed.
pub open spec fn node_record(n: NodeType) -> ChunkView {
    let v = n.spec_node()@;
    ChunkView {
        id: v.id,
        node: kind_code(n.spec_kind()),
        offset: 0,
        size: v.payload.len() as u32,
        rect: v.rect,
        name: v.name,
        children: v.children,
        dependencies: v.dependencies,
    }
}

/// Whether a node's payload, name and identifier lists fit their 32-bit
/// length fields.
pub open spec fn node_fits(n: NodeType) -> bool {
    n.spec_node()@.payload.len() <= u32::MAX && chunk_fits(node_record(n))
}

pub open spec fn nodes_fit(nodes: Seq<NodeType>) -> bool {
    forall|i: int| 0 <= i < nodes.len() ==> node_fits(#[trigger] nodes[i])
}

/// The records of a save before compaction: the new nodes' records first, so
/// that they stand in for inherited records with the same identifier.
pub open spec fn merged(nodes: Seq<NodeType>, old: Seq<ChunkView>) -> Seq<ChunkView> {
    nodes.map_values(|n: NodeType| node_record(n)) + old
}

/// The payloads that a save writes: those of the new nodes whose records
/// `t` keeps, in the order of `t`.
pub open spec fn fresh_bytes(t: Seq<ChunkView>, m: Seq<ChunkView>, nodes: Seq<NodeType>) -> Seq<u8>
    decreases t.len(),
{
    if t.len() == 0 {
        Seq::empty()
    } else {
        let k = find(m, t.last().id);
        fresh_bytes(t.drop_last(), m, nodes) + if 0 <= k < nodes.len() {
            nodes[k].spec_node()@.payload
        } else {
            Seq::empty()
        }
    }
}

/// The payloads of the new nodes among merged positions `src`, in order.
pub open spec fn payloads_of(src: Seq<int>, nodes: Seq<NodeType>) -> Seq<u8>
    decreases src.len(),
{
    if src.len() == 0 {
        Seq::empty()
    } else {
        let k = src.last();
        payloads_of(src.drop_last(), nodes) + if 0 <= k < nodes.len() {
            nodes[k].spec_node()@.payload
        } else {
            Seq::empty()
        }
    }
}

proof fn lemma_fresh_bytes(t: Seq<ChunkView>, m: Seq<ChunkView>, nodes: Seq<NodeType>, src: Seq<int>)
    requires
        src.len() == t.len(),
        forall|i: int| 0 <= i < t.len() ==> find(m, #[trigger] t[i].id) == src[i],
    ensures
        fresh_bytes(t, m, nodes) == payloads_of(src, nodes),
    decreases t.len(),
{
    if t.len() > 0 {
        let t2 = t.drop_last();
        let s2 = src.drop_last();
        assert forall|i: int| 0 <= i < t2.len() implies find(m, #[trigger] t2[i].id) == s2[i] by {
            assert(t2[i] == t[i]);
        }
        lemma_fresh_bytes(t2, m, nodes, s2);
        assert(find(m, t[t.len() - 1].id) == src[src.len() - 1]);
    }
}

/// Whether the payload of every record of `t` ends at or before `end`.
pub open spec fn payloads_before(t: Seq<ChunkView>, end: int) -> bool {
    forall|i: int| 0 <= i < t.len() ==> #[trigger] t[i].offset + t[i].size <= end
}

/// Whether two records agree on everything but the payload offset.
pub open spec fn same_but_offset(a: ChunkView, b: ChunkView) -> bool {
    &&& a.id == b.id
    &&& a.node == b.node
    &&& a.size == b.size
    &&& a.rect == b.rect
    &&& a.name == b.name
    &&& a.children == b.children
    &&& a.dependencies == b.dependencies
}

pub open spec fn distinct_ids(t: Seq<ChunkView>) -> bool {
    forall|i: int, j: int| 0 <= i < j < t.len() ==> t[i].id != t[j].id
}

/// What a save of `nodes` under `root` leaves behind: container `before`
/// kept up to `cursor` and then extended into `after`, whose newest version
/// is `f`. Its table holds exactly one record for each identifier that
/// `root` reaches through the merged records, in the order of the merged
/// records; records of new nodes point at their payloads, written after
/// `cursor` and before the table; inherited records are kept as they were,
/// so when their payloads lie before `cursor` every payload of the new
/// table lies before that table.
pub open spec fn saved(
    before: Seq<u8>,
    cursor: int,
    nodes: Seq<NodeType>,
    old: Seq<ChunkView>,
    root: Id,
    hash: Id,
    prev: u64,
    after: Seq<u8>,
    f: FileView,
) -> bool {
    let m = merged(nodes, old);
    let t = f.chunks;
    &&& cursor <= after.len()
    &&& after.subrange(0, cursor) == before.subrange(0, cursor)
    &&& open_spec(after, None) == Ok::<FileView, Error>(f)
    &&& f.footer == (Footer { version: FORMAT_VERSION })
    &&& table_bytes(t).len() <= u32::MAX
    &&& f.index == (Index { hash, root, size: table_bytes(t).len() as u32, prev_offset: prev })
    &&& f.offset == latest_offset(after)
    &&& f.offset - f.index.size >= cursor
    &&& after.subrange(cursor, f.offset - f.index.size) == fresh_bytes(t, m, nodes)
    &&& table_fits(t)
    &&& closed(m, root)
    &&& distinct_ids(t)
    &&& forall|x: Id| find(t, x) >= 0 <==> reaches(m, root, x)
    &&& forall|i: int, j: int|
        0 <= i < j < t.len() ==> find(m, #[trigger] t[i].id) < find(m, #[trigger] t[j].id)
    &&& payloads_before(old, cursor) ==> payloads_before(t, f.offset - f.index.size)
    &&& forall|i: int|
        0 <= i < t.len() ==> {
            let k = find(m, #[trigger] t[i].id);
            &&& 0 <= k < m.len()
            &&& same_but_offset(t[i], m[k])
            &&& k >= nodes.len() ==> t[i] == m[k]
            &&& k < nodes.len() ==> {
                &&& cursor <= t[i].offset
                &&& t[i].offset + t[i].size <= f.offset - f.index.size
                &&& after.subrange(t[i].offset as int, t[i].offset + t[i].size)
                    == nodes[k].spec_node()@.payload
            }
        }
}

pub proof fn lemma_same_len(a: ChunkView, b: ChunkView)
    requires
        same_but_offset(a, b),
    ensures
        chunk_bytes(a).len() == chunk_bytes(b).len(),
        chunk_fits(a) == chunk_fits(b),
{
    lemma_le_bytes_len(a.offset as nat, 8);
    lemma_le_bytes_len(b.offset as nat, 8);
}

/// Copies a chunk record.
pub fn copy_chunk(c: &Chunk) -> (r: Chunk)
    ensures
        r@ == c@,
{
    Chunk {
        id: c.id,
        node: c.node,
        offset: c.offset,
        size: c.size,
        rect: c.rect,
        name: c.name.clone(),
        children: copy_ids(&c.children),
        dependencies: copy_ids(&c.dependencies),
    }
}

/// Builds the merged records of a save.
fn merge(nodes: &Vec<NodeType>, old: &Vec<Chunk>) -> (r: Vec<Chunk>)
    requires
        nodes_fit(nodes@),
    ensures
        views(r@) == merged(nodes@, views(old@)),
{
    let mut r: Vec<Chunk> = Vec::new();
    let mut i: usize = 0;
    while i < nodes.len()
        invariant
            i <= nodes@.len(),
            nodes_fit(nodes@),
            views(r@) == nodes@.subrange(0, i as int).map_values(|n: NodeType| node_record(n)),
        decreases nodes@.len() - i,
    {
        let nt = &nodes[i];
        let n = nt.as_node();
        assert(node_fits(nodes@[i as int]));
        let c = Chunk {
            id: n.id,
            node: nt.kind().discriminant(),
            offset: 0,
            size: n.payload.len() as u32,
            rect: n.rect,
            name: n.name.clone(),
            children: copy_ids(&n.children),
            dependencies: copy_ids(&n.dependencies),
        };
        assert(c@ == node_record(nodes@[i as int]));
        let ghost r0 = r@;
        r.push(c);
        assert(views(r@) =~= views(r0).push(c@));
        assert(nodes@.subrange(0, i + 1).map_values(|n: NodeType| node_record(n)) =~= nodes@.subrange(0, i as int).map_values(|n: NodeType| node_record(n)).push(node_record(nodes@[i as int])));
        i = i + 1;
    }
    assert(nodes@.subrange(0, i as int) =~= nodes@);
    let mut j: usize = 0;
    while j < old.len()
        invariant
            j <= old@.len(),
            views(r@) == nodes@.map_values(|n: NodeType| node_record(n)) + views(
                old@.subrange(0, j as int),
            ),
        decreases old@.len() - j,
    {
        let c = copy_chunk(&old[j]);
        let ghost r0 = r@;
        r.push(c);
        assert(views(r@) =~= views(r0).push(c@));
        assert(views(old@.subrange(0, j + 1)) =~= views(old@.subrange(0, j as int)).push(old@[j as int]@));
        assert(views(r@) =~= nodes@.map_values(|n: NodeType| node_record(n)) + views(
            old@.subrange(0, j + 1),
        ));
        j = j + 1;
    }
    assert(old@.subrange(0, j as int) =~= old@);
    r
}

/// What placing the payloads leaves: `t` holds, in order, the records
/// marked in `m` (their positions in `m` are `src`), with new nodes'
/// records pointing at payloads written after `cursor`.
pub open spec fn placed(
    m: Seq<ChunkView>,
    nodes: Seq<NodeType>,
    marks: Seq<bool>,
    cursor: int,
    upto: int,
    sink: Seq<u8>,
    t: Seq<ChunkView>,
    src: Seq<int>,
) -> bool {
    &&& src.len() == t.len()
    &&& forall|i: int, j: int| 0 <= i < j < src.len() ==> src[i] < src[j]
    &&& forall|i: int| 0 <= i < src.len() ==> 0 <= #[trigger] src[i] < upto && marks[src[i]]
    &&& forall|a: int|
        0 <= a < upto && marks[a] ==> exists|i: int| 0 <= i < src.len() && #[trigger] src[i] == a
    &&& table_bytes(t).len() <= table_bytes(m.subrange(0, upto)).len()
    &&& forall|i: int|
        0 <= i < t.len() ==> {
            let c = #[trigger] t[i];
            &&& same_but_offset(c, m[src[i]])
            &&& src[i] >= nodes.len() ==> c == m[src[i]]
            &&& src[i] < nodes.len() ==> {
                &&& cursor <= c.offset
                &&& c.offset + c.size <= sink.len()
                &&& sink.subrange(c.offset as int, c.offset + c.size)
                    == nodes[src[i]].spec_node()@.payload
            }
        }
}

/// Appends the payloads of the marked new nodes and collects the marked
/// records.
fn place_payloads(
    sink: &mut Vec<u8>,
    cursor: usize,
    nodes: &Vec<NodeType>,
    all: &Vec<Chunk>,
    marks: &Vec<bool>,
) -> (r: (Vec<Chunk>, Ghost<Seq<int>>))
    requires
        views(all@).subrange(0, nodes@.len() as int) == nodes@.map_values(
            |n: NodeType| node_record(n),
        ),
        nodes@.len() <= all@.len(),
        nodes_fit(nodes@),
        marks@.len() == all@.len(),
        cursor == old(sink)@.len(),
    ensures
        final(sink)@.subrange(0, cursor as int) == old(sink)@,
        final(sink)@ == old(sink)@ + payloads_of(r.1@, nodes@),
        cursor <= final(sink)@.len(),
        placed(
            views(all@),
            nodes@,
            marks@,
            cursor as int,
            all@.len() as int,
            final(sink)@,
            views(r.0@),
            r.1@,
        ),
{
    let ghost m = views(all@);
    let ghost nn = nodes@.len();
    let mut t: Vec<Chunk> = Vec::new();
    let ghost mut src: Seq<int> = Seq::empty();
    let mut k: usize = 0;
    assert(sink@.subrange(0, cursor as int) =~= old(sink)@);
    while k < all.len()
        invariant
            m == views(all@),
            nn == nodes@.len() <= all@.len(),
            m.subrange(0, nn as int) == nodes@.map_values(|n: NodeType| node_record(n)),
            nodes_fit(nodes@),
            marks@.len() == all@.len(),
            k <= all@.len(),
            cursor <= sink@.len(),
            sink@.subrange(0, cursor as int) == old(sink)@,
            sink@ == old(sink)@ + payloads_of(src, nodes@),
            placed(m, nodes@, marks@, cursor as int, k as int, sink@, views(t@), src),
        decreases all@.len() - k,
    {
        proof {
            lemma_table_bytes_push(m.subrange(0, k as int), m[k as int]);
            assert(m.subrange(0, k + 1) =~= m.subrange(0, k as int).push(m[k as int]));
        }
        if marks[k] {
            let ghost s0 = sink@;
            let c = if k < nodes.len() {
                let n = nodes[k].as_node();
                let off = sink.len() as u64;
                let mut j: usize = 0;
                while j < n.payload.len()
                    invariant
                        j <= n.payload@.len(),
                        off == s0.len(),
                        sink@ == s0 + n.payload@.subrange(0, j as int),
                    decreases n.payload@.len() - j,
                {
                    sink.push(n.payload[j]);
                    assert(sink@ =~= s0 + n.payload@.subrange(0, j + 1));
                    j = j + 1;
                }
                assert(n.payload@.subrange(0, j as int) =~= n.payload@);
                let mut c = copy_chunk(&all[k]);
                c.offset = off;
                proof {
                    assert(m.subrange(0, nn as int)[k as int] == m[k as int]);
                    assert(m[k as int] == node_record(nodes@[k as int]));
                    assert(node_fits(nodes@[k as int]));
                    assert(sink@.subrange(off as int, off + c.size) =~= n.payload@);
                }
                c
            } else {
                copy_chunk(&all[k])
            };
            proof {
                assert forall|a: int, b: int| 0 <= a <= b <= s0.len() implies sink@.subrange(a, b) == s0.subrange(a, b) by {
                    assert(sink@.subrange(a, b) =~= s0.subrange(a, b));
                }
                lemma_same_len(c@, m[k as int]);
                lemma_table_bytes_push(views(t@), c@);
            }
            let ghost t0 = views(t@);
            let ghost src0 = src;
            t.push(c);
            proof {
                src = src.push(k as int);
                assert(src.drop_last() =~= src0);
                assert(sink@ =~= old(sink)@ + payloads_of(src, nodes@));
                assert(views(t@) =~= t0.push(c@));
                assert forall|a: int| 0 <= a < k + 1 && marks@[a] implies exists|i: int| 0 <= i < src.len() && #[trigger] src[i] == a by {
                    if a < k {
                        let i = choose|i: int| 0 <= i < src0.len() && #[trigger] src0[i] == a;
                        assert(src[i] == a);
                    } else {
                        assert(src[src.len() - 1] == a);
                    }
                }
                assert forall|i: int| 0 <= i < t@.len() implies {
                    let c = #[trigger] views(t@)[i];
                    &&& same_but_offset(c, m[src[i]])
                    &&& src[i] >= nn ==> c == m[src[i]]
                    &&& src[i] < nn ==> {
                        &&& cursor <= c.offset
                        &&& c.offset + c.size <= sink@.len()
                        &&& sink@.subrange(c.offset as int, c.offset + c.size)
                            == nodes@[src[i]].spec_node()@.payload
                    }
                } by {
                    if i < t0.len() {
                        assert(views(t@)[i] == t0[i]);
                        assert(src[i] == src0[i]);
                    }
                }
                assert(sink@.subrange(0, cursor as int) == s0.subrange(0, cursor as int));
            }
        }
        k = k + 1;
    }
    (t, Ghost(src))
}

/// The records kept by compaction have distinct identifiers, and exactly the
/// identifiers that the root reaches.
proof fn lemma_compacted(
    m: Seq<ChunkView>,
    nodes: Seq<NodeType>,
    marks: Seq<bool>,
    cursor: int,
    sink: Seq<u8>,
    t: Seq<ChunkView>,
    src: Seq<int>,
    root: Id,
)
    requires
        marks.len() == m.len(),
        forall|a: int|
            0 <= a < m.len() ==> marks[a] == (find(m, #[trigger] m[a].id) == a && reaches(
                m,
                root,
                m[a].id,
            )),
        closed(m, root),
        table_fits(m),
        placed(m, nodes, marks, cursor, m.len() as int, sink, t, src),
    ensures
        forall|i: int| 0 <= i < t.len() ==> find(m, #[trigger] t[i].id) == src[i],
        table_fits(t),
        distinct_ids(t),
        forall|x: Id| find(t, x) >= 0 <==> reaches(m, root, x),
{
    assert forall|i: int| 0 <= i < t.len() implies find(m, #[trigger] t[i].id) == src[i] by {
        assert(marks[src[i]]);
        assert(t[i].id == m[src[i]].id);
    }
    assert forall|i: int| 0 <= i < t.len() implies chunk_fits(#[trigger] t[i]) by {
        lemma_same_len(t[i], m[src[i]]);
    }
    assert forall|i: int, j: int| 0 <= i < j < t.len() implies t[i].id != t[j].id by {
        assert(find(m, t[i].id) == src[i]);
        assert(find(m, t[j].id) == src[j]);
    }
    assert forall|x: Id| find(t, x) >= 0 <==> reaches(m, root, x) by {
        lemma_find(t, x);
        lemma_find(m, x);
        if find(t, x) >= 0 {
            let i = find(t, x);
            assert(find(m, t[i].id) == src[i]);
            assert(marks[src[i]]);
        }
        if reaches(m, root, x) {
            let a = find(m, x);
            assert(marks[a]);
            let i = choose|i: int| 0 <= i < src.len() && #[trigger] src[i] == a;
            assert(t[i].id == x);
        }
    }
}

/// Writes a new version after byte `cursor` of `sink`: the payloads of the
/// new nodes that `root` reaches, the compacted chunk table, the version
/// index linked to `prev`, and the footer.
fn save(
    sink: &mut Vec<u8>,
    cursor: usize,
    nodes: &Vec<NodeType>,
    root: Id,
    hash: Id,
    prev: u64,
    inherited: &Vec<Chunk>,
) -> (r: Result<(File, usize), Error>)
    requires
        cursor <= old(sink)@.len(),
        nodes_fit(nodes@),
        table_fits(views(inherited@)),
        table_bytes(merged(nodes@, views(inherited@))).len() <= u32::MAX,
    ensures
        match r {
            Ok((f, n)) => {
                &&& saved(
                    old(sink)@,
                    cursor as int,
                    nodes@,
                    views(inherited@),
                    root,
                    hash,
                    prev,
                    final(sink)@,
                    f@,
                )
                &&& n == final(sink)@.len() - cursor
            },
            Err(e) => {
                &&& e == Error::NotFound
                &&& !closed(merged(nodes@, views(inherited@)), root)
                &&& final(sink)@ == old(sink)@
            },
        },
{
    let all = merge(nodes, inherited);
    let ghost m = views(all@);
    proof {
        lemma_table_bytes_min(m);
        assert(m.len() <= crate::mask::max_bits());
    }
    let marks = match mark_reachable(&all, root) {
        Ok(marks) => marks,
        Err(e) => {
            return Err(e);
        },
    };
    proof {
        assert(m.subrange(0, nodes@.len() as int) =~= nodes@.map_values(|n: NodeType| node_record(n)));
        assert(table_fits(m)) by {
            assert forall|i: int| 0 <= i < m.len() implies chunk_fits(#[trigger] m[i]) by {
                if i < nodes@.len() {
                    assert(m[i] == node_record(nodes@[i]));
                    assert(node_fits(nodes@[i]));
                } else {
                    assert(m[i] == views(inherited@)[i - nodes@.len()]);
                }
            }
        }
        assert forall|a: int| 0 <= a < m.len() implies marks@[a] == (find(m, #[trigger] m[a].id) == a && reaches(m, root, m[a].id)) by {
            assert(m[a] == all@[a]@);
        }
    }
    let ghost before = sink@;
    sink.truncate(cursor);
    let (t, Ghost(src)) = place_payloads(sink, cursor, nodes, &all, &marks);
    let ghost tv = views(t@);
    proof {
        lemma_compacted(m, nodes@, marks@, cursor as int, sink@, tv, src, root);
        lemma_fresh_bytes(tv, m, nodes@, src);
        assert(m.subrange(0, m.len() as int) =~= m);
    }
    let ghost pre_table = sink@;
    let size = write_table(sink, &t);
    let index = Index { hash, root, size: size as u32, prev_offset: prev };
    let offset = sink.len() as u64;
    index.write(sink);
    let footer = Footer { version: FORMAT_VERSION };
    footer.write(sink);
    let f = File { footer, index, offset, chunks: t };
    proof {
        lemma_save_done(
            before, cursor as int, nodes@, views(inherited@), root, hash, prev, m, marks@, src,
            tv, pre_table, sink@, index, footer, f@,
        );
    }
    Ok((f, sink.len() - cursor))
}

/// The bytes and records a save leaves make up `saved`.
proof fn lemma_save_done(
    before: Seq<u8>,
    cursor: int,
    nodes: Seq<NodeType>,
    old: Seq<ChunkView>,
    root: Id,
    hash: Id,
    prev: u64,
    m: Seq<ChunkView>,
    marks: Seq<bool>,
    src: Seq<int>,
    tv: Seq<ChunkView>,
    pre_table: Seq<u8>,
    after: Seq<u8>,
    index: Index,
    footer: Footer,
    f: FileView,
)
    requires
        m == merged(nodes, old),
        0 <= cursor <= before.len(),
        pre_table == before.subrange(0, cursor) + payloads_of(src, nodes),
        placed(m, nodes, marks, cursor, m.len() as int, pre_table, tv, src),
        forall|i: int| 0 <= i < tv.len() ==> find(m, #[trigger] tv[i].id) == src[i],
        table_fits(tv),
        distinct_ids(tv),
        forall|x: Id| find(tv, x) >= 0 <==> reaches(m, root, x),
        closed(m, root),
        fresh_bytes(tv, m, nodes) == payloads_of(src, nodes),
        table_bytes(tv).len() <= u32::MAX,
        index == (Index { hash, root, size: table_bytes(tv).len() as u32, prev_offset: prev }),
        footer == (Footer { version: FORMAT_VERSION }),
        after == pre_table + table_bytes(tv) + index_bytes(index) + footer_bytes(footer),
        f == (FileView { footer, offset: pre_table.len() + index.size, index, chunks: tv }),
    ensures
        saved(before, cursor, nodes, old, root, hash, prev, after, f),
{
    lemma_saved_bytes(pre_table, tv, index, footer, after);
    assert forall|i: int| 0 <= i < tv.len() && src[i] < nodes.len() implies after.subrange(tv[i].offset as int, tv[i].offset + tv[i].size) == pre_table.subrange(tv[i].offset as int, tv[i].offset + tv[i].size) by {
        assert(after.subrange(tv[i].offset as int, tv[i].offset + tv[i].size) =~= pre_table.subrange(tv[i].offset as int, tv[i].offset + tv[i].size));
    }
    assert(after.subrange(0, cursor) =~= before.subrange(0, cursor));
    assert(after.subrange(cursor, pre_table.len() as int) =~= payloads_of(src, nodes));
    assert forall|i: int, j: int| 0 <= i < j < tv.len() implies find(m, #[trigger] tv[i].id) < find(m, #[trigger] tv[j].id) by {
        assert(src[i] < src[j]);
    }
    if payloads_before(old, cursor) {
        assert forall|i: int| 0 <= i < tv.len() implies #[trigger] tv[i].offset + tv[i].size <= pre_table.len() by {
            if src[i] >= nodes.len() {
                assert(m[src[i]] == old[src[i] - nodes.len()]);
            }
        }
    }
}

/// A container that ends with a table, its index and the footer opens to
/// that version.
proof fn lemma_saved_bytes(pre: Seq<u8>, t: Seq<ChunkView>, index: Index, footer: Footer, after: Seq<u8>)
    requires
        table_fits(t),
        index.size == table_bytes(t).len(),
        footer.version == FORMAT_VERSION,
        after == pre + table_bytes(t) + index_bytes(index) + footer_bytes(footer),
    ensures
        open_spec(after, None) == Ok::<FileView, Error>(
            FileView { footer, offset: pre.len() + index.size, index, chunks: t },
        ),
        latest_offset(after) == pre.len() + index.size,
{
    let tb = table_bytes(t);
    let o = (pre.len() + tb.len()) as int;
    lemma_footer_round_trip(footer, Seq::empty());
    lemma_index_round_trip(index, footer_bytes(footer));
    assert(after.subrange(after.len() - 5, after.len() as int) =~= footer_bytes(footer) + Seq::<u8>::empty());
    assert(after.subrange(o, after.len() as int) =~= index_bytes(index) + footer_bytes(footer));
    assert(after.subrange(o - tb.len(), o) =~= tb);
    lemma_table_round_trip(t);
}

impl File {
    /// A container handle that holds no version yet; versions written
    /// through it carry document identifier `hash`.
    pub fn empty(hash: Id) -> (f: File)
        ensures
            f.footer == (Footer { version: FORMAT_VERSION }),
            f.index == (Index { hash, root: Id { value: 0 }, size: 0, prev_offset: 0 }),
            f.offset == 0,
            f.chunks@.len() == 0,
    {
        File {
            footer: Footer { version: FORMAT_VERSION },
            index: Index { hash, root: Id { value: 0 }, size: 0, prev_offset: 0 },
            offset: 0,
            chunks: Vec::new(),
        }
    }

    /// Whether every record fits its length fields, as any record read from
    /// or written to a container does.
    pub open spec fn wf(&self) -> bool {
        table_fits(views(self.chunks@))
    }

    /// Tests `wf`: whether every record fits its length fields.
    pub fn fits(&self) -> (r: bool)
        ensures
            r == self.wf(),
    {
        let mut i: usize = 0;
        while i < self.chunks.len()
            invariant
                i <= self.chunks@.len(),
                forall|j: int| 0 <= j < i ==> chunk_fits(#[trigger] views(self.chunks@)[j]),
            decreases self.chunks@.len() - i,
        {
            let c = &self.chunks[i];
            assert(views(self.chunks@)[i as int] == c@);
            let name_len = c.name.as_str().as_bytes().len();
            if name_len as u64 > u32::MAX as u64 || c.children.len() as u64 > u32::MAX as u64
                || c.dependencies.len() as u64 > u32::MAX as u64 {
                assert(!chunk_fits(views(self.chunks@)[i as int]));
                return false;
            }
            i = i + 1;
        }
        true
    }

    /// Writes `nodes` as the first and only version of `sink`, replacing what
    /// it held; returns the container's length.
    pub fn write(&mut self, sink: &mut Vec<u8>, nodes: &Vec<NodeType>, root: Id) -> (r: Result<
        usize,
        Error,
    >)
        requires
            nodes_fit(nodes@),
            table_bytes(merged(nodes@, Seq::empty())).len() <= u32::MAX,
        ensures
            match r {
                Ok(n) => {
                    &&& saved(
                        old(sink)@,
                        0,
                        nodes@,
                        Seq::empty(),
                        root,
                        old(self).index.hash,
                        0,
                        final(sink)@,
                        final(self)@,
                    )
                    &&& n == final(sink)@.len()
                    &&& final(self).wf()
                },
                Err(e) => {
                    &&& e == Error::NotFound
                    &&& !closed(merged(nodes@, Seq::empty()), root)
                    &&& final(sink)@ == old(sink)@
                    &&& *final(self) == *old(self)
                },
            },
    {
        let none: Vec<Chunk> = Vec::new();
        assert(views(none@) =~= Seq::<ChunkView>::empty());
        match save(sink, 0, nodes, root, self.index.hash, 0, &none) {
            Ok((f, n)) => {
                *self = f;
                Ok(n)
            },
            Err(e) => Err(e),
        }
    }

    /// Appends `nodes` as a new version at the end of `sink`, after the
    /// version this handle holds, reusing the records of nodes that `nodes`
    /// does not replace; returns the number of bytes appended.
    pub fn append(&mut self, sink: &mut Vec<u8>, nodes: &Vec<NodeType>, root: Id) -> (r: Result<
        usize,
        Error,
    >)
        requires
            old(self).wf(),
            old(self).offset > 0 ==> old(self).offset + 49 == old(sink)@.len(),
            nodes_fit(nodes@),
            table_bytes(merged(nodes@, views(old(self).chunks@))).len() <= u32::MAX,
        ensures
            match r {
                Ok(n) => {
                    &&& saved(
                        old(sink)@,
                        old(sink)@.len() as int,
                        nodes@,
                        views(old(self).chunks@),
                        root,
                        old(self).index.hash,
                        old(self).offset,
                        final(sink)@,
                        final(self)@,
                    )
                    &&& n == final(sink)@.len() - old(sink)@.len() as int
                    &&& final(self).wf()
                },
                Err(e) => {
                    &&& e == Error::NotFound
                    &&& !closed(merged(nodes@, views(old(self).chunks@)), root)
                    &&& final(sink)@ == old(sink)@
                    &&& *final(self) == *old(self)
                },
            },
    {
        let cursor = sink.len();
        match save(sink, cursor, nodes, root, self.index.hash, self.offset, &self.chunks) {
            Ok((f, n)) => {
                *self = f;
                Ok(n)
            },
            Err(e) => Err(e),
        }
    }

    /// Opens the version of container `b` whose index is at offset `target`,
    /// or the newest when `target` is `None`.
    pub fn open_at(b: &[u8], target: Option<u64>) -> (r: Result<File, Error>)
        ensures
            match r {
                Ok(f) => open_spec(b@, target) == Ok::<FileView, Error>(f@) && f.wf(),
                Err(e) => open_spec(b@, target) == Err::<FileView, Error>(e),
            },
    {
        let footer = match read_footer(b) {
            Ok(f) => f,
            Err(e) => {
                return Err(e);
            },
        };
        let len = b.len();
        if len < 49 {
            return Err(Error::Truncated);
        }
        let (o, _) = match resolve(b, (len - 49) as u64, target) {
            Ok(x) => x,
            Err(e) => {
                return Err(e);
            },
        };
        match load_version(b, o) {
            Ok((index, chunks)) => {
                proof {
                    let i = index;
                    lemma_table_parse_fits(b@.subrange(o - i.size, o as int));
                }
                Ok(File { footer, index, offset: o, chunks })
            },
            Err(e) => Err(e),
        }
    }

    /// Opens the newest version of container `b`.
    pub fn open(b: &[u8]) -> (r: Result<File, Error>)
        ensures
            match r {
                Ok(f) => open_spec(b@, None) == Ok::<FileView, Error>(f@) && f.wf(),
                Err(e) => open_spec(b@, None) == Err::<FileView, Error>(e),
            },
    {
        File::open_at(b, None)
    }

    /// The version index at offset `target` of container `b` (the newest
    /// when `None`), with its offset.
    pub fn resolve_version(b: &[u8], target: Option<u64>) -> (r: Result<(u64, Index), Error>)
        ensures
            match r {
                Ok((o, i)) => footer_check(b@) is Ok && b@.len() >= 49 && resolve_from(
                    b@,
                    latest_offset(b@),
                    target,
                ) == Ok::<(int, Index), Error>((o as int, i)),
                Err(e) => match footer_check(b@) {
                    Err(fe) => e == fe,
                    Ok(_) => if b@.len() < 49 {
                        e == Error::Truncated
                    } else {
                        resolve_from(b@, latest_offset(b@), target) == Err::<(int, Index), Error>(
                            e,
                        )
                    },
                },
            },
    {
        match read_footer(b) {
            Ok(_) => {},
            Err(e) => {
                return Err(e);
            },
        }
        let len = b.len();
        if len < 49 {
            return Err(Error::Truncated);
        }
        resolve(b, (len - 49) as u64, target)
    }

    /// Where the payload of the node with identifier `id` lies in the
    /// container: its offset and its length.
    pub fn chunk_range(&self, id: Id) -> (r: Result<(u64, u32), Error>)
        ensures
            match r {
                Ok((o, n)) => {
                    let k = find(views(self.chunks@), id);
                    &&& k >= 0
                    &&& o == views(self.chunks@)[k].offset
                    &&& n == views(self.chunks@)[k].size
                },
                Err(e) => e == Error::NotFound && find(views(self.chunks@), id) < 0,
            },
    {
        match find_chunk(&self.chunks, id) {
            Some(k) => {
                proof {
                    lemma_find(views(self.chunks@), id);
                }
                assert(views(self.chunks@)[k as int] == self.chunks@[k as int]@);
                Ok((self.chunks[k].offset, self.chunks[k].size))
            },
            None => Err(Error::NotFound),
        }
    }

    /// Decodes the node with identifier `id` of this version from the bytes
    /// of its payload, read from where `chunk_range` says.
    pub fn decode_node(&self, id: Id, payload: &[u8]) -> (r: Result<NodeType, Error>)
        ensures
            match r {
                Ok(n) => node_from_payload(views(self.chunks@), id, payload@) == Ok::<
                    (NodeKind, NodeView),
                    Error,
                >(n@),
                Err(e) => node_from_payload(views(self.chunks@), id, payload@) == Err::<
                    (NodeKind, NodeView),
                    Error,
                >(e),
            },
    {
        let k = match find_chunk(&self.chunks, id) {
            Some(k) => k,
            None => {
                return Err(Error::NotFound);
            },
        };
        proof {
            lemma_find(views(self.chunks@), id);
        }
        let c = &self.chunks[k];
        assert(views(self.chunks@)[k as int] == c@);
        if payload.len() != c.size as usize {
            return Err(Error::Truncated);
        }
        let kind = match NodeKind::from_discriminant(c.node) {
            Some(kind) => kind,
            None => {
                return Err(Error::InvalidData);
            },
        };
        let node = Node {
            id: c.id,
            name: c.name.clone(),
            rect: c.rect,
            payload: vstd::slice::slice_to_vec(payload),
            children: copy_ids(&c.children),
            dependencies: copy_ids(&c.dependencies),
        };
        Ok(NodeType::new(kind, node))
    }

    /// Reads the node with identifier `id` from this version of container
    /// `b`.
    pub fn get_node(&self, b: &[u8], id: Id) -> (r: Result<NodeType, Error>)
        ensures
            match r {
                Ok(n) => node_lookup(views(self.chunks@), b@, id) == Ok::<
                    (NodeKind, NodeView),
                    Error,
                >(n@),
                Err(e) => node_lookup(views(self.chunks@), b@, id) == Err::<
                    (NodeKind, NodeView),
                    Error,
                >(e),
            },
    {
        let k = match find_chunk(&self.chunks, id) {
            Some(k) => k,
            None => {
                return Err(Error::NotFound);
            },
        };
        proof {
            lemma_find(views(self.chunks@), id);
        }
        let c = &self.chunks[k];
        assert(views(self.chunks@)[k as int] == c@);
        let len = b.len();
        if c.offset > len as u64 || (len as u64 - c.offset) < c.size as u64 {
            return Err(Error::Truncated);
        }
        let kind = match NodeKind::from_discriminant(c.node) {
            Some(kind) => kind,
            None => {
                return Err(Error::InvalidData);
            },
        };
        let start = c.offset as usize;
        let payload = copy_bytes(b, start, start + c.size as usize);
        let node = Node {
            id: c.id,
            name: c.name.clone(),
            rect: c.rect,
            payload,
            children: copy_ids(&c.children),
            dependencies: copy_ids(&c.dependencies),
        };
        Ok(NodeType::new(kind, node))
    }
}

} // verus!
