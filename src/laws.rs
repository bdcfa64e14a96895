//! Properties that relate several operations of the container: reading back
//! what was written, what an append may reference, what compaction drops and
//! keeps, how versions chain, and that reads are repeatable.

use vstd::prelude::*;
use crate::codec::{Id, Error};
use crate::meta::{ChunkView, Index, index_parse, table_bytes};
use crate::node::{NodeKind, NodeType, NodeView, kind_code, kind_of_code};
use crate::graph::{find, links, edge, is_path, reaches, lemma_find, lemma_find_at, lemma_reaches_step};
use crate::file::{
    FileView, saved, merged, node_record, same_but_offset, node_lookup, open_spec, version_at,
    chain, chain_from, footer_check, latest_offset, resolve_from, payloads_before,
};

verus! {

pub proof fn lemma_kind_code(k: NodeKind)
    ensures
        kind_of_code(kind_code(k)) == Some(k),
{
}

/// Whatever `root` reaches through the records kept by a save, it reached
/// through the merged records.
pub proof fn lemma_reaches_kept(t: Seq<ChunkView>, m: Seq<ChunkView>, root: Id, x: Id)
    requires
        forall|i: int|
            0 <= i < t.len() ==> 0 <= find(m, #[trigger] t[i].id) < m.len() && same_but_offset(
                t[i],
                m[find(m, t[i].id)],
            ),
        reaches(t, root, x),
    ensures
        reaches(m, root, x),
{
    let p = choose|p: Seq<Id>| is_path(t, root, x, p);
    assert forall|i: int| 0 <= i < p.len() - 1 implies edge(m, #[trigger] p[i], p[i + 1]) by {
        assert(edge(t, p[i], p[i + 1]));
        let a = find(t, p[i]);
        lemma_find(t, p[i]);
        let k = find(m, t[a].id);
        assert(same_but_offset(t[a], m[k]));
        assert(links(m[k], p[i + 1]));
    }
    assert(is_path(m, root, x, p));
}

/// Round trip: when the root of a save reaches a node that the save wrote
/// (its identifier unique among the nodes written), reading the new version
/// gives back that node with the same kind, identifier, name, bounds,
/// payload, children in order and dependencies.
pub proof fn law_round_trip(
    before: Seq<u8>,
    cursor: int,
    nodes: Seq<NodeType>,
    old: Seq<ChunkView>,
    root: Id,
    hash: Id,
    prev: u64,
    after: Seq<u8>,
    f: FileView,
    j: int,
)
    requires
        saved(before, cursor, nodes, old, root, hash, prev, after, f),
        0 <= j < nodes.len(),
        forall|a: int| 0 <= a < nodes.len() && a != j ==> nodes[a].spec_node().id != nodes[j].spec_node().id,
        reaches(merged(nodes, old), root, nodes[j].spec_node().id),
    ensures
        open_spec(after, None) == Ok::<FileView, Error>(f),
        node_lookup(f.chunks, after, nodes[j].spec_node().id) == Ok::<(NodeKind, NodeView), Error>(
            nodes[j]@,
        ),
{
    let m = merged(nodes, old);
    let t = f.chunks;
    let id = nodes[j].spec_node().id;
    assert forall|a: int| 0 <= a < j implies m[a].id != id by {
        assert(m[a] == node_record(nodes[a]));
    }
    assert(m[j] == node_record(nodes[j]));
    lemma_find_at(m, id, j);
    lemma_find(t, id);
    let i = find(t, id);
    assert(t[i].id == id);
    assert(find(m, t[i].id) == j);
    lemma_kind_code(nodes[j].spec_kind());
    assert(t[i].size as int == nodes[j].spec_node()@.payload.len());
}

/// Appends only reference what they wrote or kept: every identifier that the
/// new root reaches through the new table has a record there, which is
/// either an inherited record kept as it was or the record of a node just
/// written, whose payload lies past the kept bytes and inside the container;
/// and every identifier that a kept record names has a record too.
pub proof fn law_append_monotonic(
    before: Seq<u8>,
    cursor: int,
    nodes: Seq<NodeType>,
    old: Seq<ChunkView>,
    root: Id,
    hash: Id,
    prev: u64,
    after: Seq<u8>,
    f: FileView,
)
    requires
        saved(before, cursor, nodes, old, root, hash, prev, after, f),
    ensures
        forall|x: Id|
            #![trigger reaches(f.chunks, root, x)]
            reaches(f.chunks, root, x) ==> {
                let c = f.chunks[find(f.chunks, x)];
                &&& find(f.chunks, x) >= 0
                &&& (exists|k: int| 0 <= k < old.len() && c == old[k]) || (exists|k: int|
                    0 <= k < nodes.len() && same_but_offset(c, node_record(nodes[k])) && cursor
                        <= c.offset && c.offset + c.size <= after.len())
            },
        forall|i: int, d: Id|
            0 <= i < f.chunks.len() && #[trigger] links(f.chunks[i], d) ==> find(f.chunks, d) >= 0,
{
    let m = merged(nodes, old);
    let t = f.chunks;
    assert forall|x: Id| #![trigger reaches(f.chunks, root, x)] reaches(f.chunks, root, x) implies {
        let c = f.chunks[find(f.chunks, x)];
        &&& find(f.chunks, x) >= 0
        &&& (exists|k: int| 0 <= k < old.len() && c == old[k]) || (exists|k: int|
            0 <= k < nodes.len() && same_but_offset(c, node_record(nodes[k])) && cursor <= c.offset
                && c.offset + c.size <= after.len())
    } by {
        lemma_reaches_kept(t, m, root, x);
        lemma_find(t, x);
        let i = find(t, x);
        let k = find(m, t[i].id);
        if k >= nodes.len() {
            assert(m[k] == old[k - nodes.len()]);
        } else {
            assert(m[k] == node_record(nodes[k]));
        }
    }
    assert forall|i: int, d: Id| 0 <= i < f.chunks.len() && #[trigger] links(f.chunks[i], d) implies find(
        f.chunks,
        d,
    ) >= 0 by {
        let x = t[i].id;
        assert(find(t, x) >= 0) by {
            lemma_find(t, x);
        }
        assert(reaches(m, root, x));
        let k = find(m, x);
        assert(same_but_offset(t[i], m[k]));
        lemma_find(m, x);
        assert(edge(m, x, d));
        lemma_reaches_step(m, root, x, d);
    }
}


/// Two containers that agree on their first `c` bytes hold the same version
/// index at any offset `o` with `o + 44 <= c`.
pub proof fn lemma_index_prefix(b1: Seq<u8>, b2: Seq<u8>, o: int, c: int)
    requires
        0 <= o,
        o + 44 <= c <= b1.len(),
        c <= b2.len(),
        b1.subrange(0, c) == b2.subrange(0, c),
    ensures
        index_parse(b1.subrange(o, b1.len() as int)) == index_parse(b2.subrange(o, b2.len() as int)),
{
    let s1 = b1.subrange(o, b1.len() as int);
    let s2 = b2.subrange(o, b2.len() as int);
    assert forall|a: int, z: int| 0 <= a <= z <= 44 implies s1.subrange(a, z) == s2.subrange(a, z) by {
        assert(s1.subrange(a, z) =~= b1.subrange(0, c).subrange(o + a, o + z));
        assert(s2.subrange(a, z) =~= b2.subrange(0, c).subrange(o + a, o + z));
    }
    assert(s1.subrange(0, 8) == s2.subrange(0, 8));
    assert(s1.subrange(8, 12) == s2.subrange(8, 12));
    assert(s1.subrange(12, 28) == s2.subrange(12, 28));
    assert(s1.subrange(28, 44) == s2.subrange(28, 44));
}

/// Two containers that agree on their first `c` bytes hold the same version
/// at any offset `o` with `o + 44 <= c`.
pub proof fn lemma_version_prefix(b1: Seq<u8>, b2: Seq<u8>, o: int, c: int)
    requires
        0 <= o,
        o + 44 <= c <= b1.len(),
        c <= b2.len(),
        b1.subrange(0, c) == b2.subrange(0, c),
    ensures
        version_at(b1, o) == version_at(b2, o),
{
    lemma_index_prefix(b1, b2, o, c);
    match index_parse(b1.subrange(o, b1.len() as int)) {
        Ok(i) => {
            if i.size <= o {
                assert(b1.subrange(o - i.size, o) =~= b1.subrange(0, c).subrange(o - i.size, o));
                assert(b2.subrange(o - i.size, o) =~= b2.subrange(0, c).subrange(o - i.size, o));
            }
        },
        Err(_) => {},
    }
}

/// Two containers that agree on their first `c` bytes hold the same chain of
/// versions from any offset `o` with `o + 44 <= c`.
pub proof fn lemma_chain_prefix(b1: Seq<u8>, b2: Seq<u8>, o: int, c: int)
    requires
        0 <= o,
        o + 44 <= c <= b1.len(),
        c <= b2.len(),
        b1.subrange(0, c) == b2.subrange(0, c),
    ensures
        chain_from(b1, o) == chain_from(b2, o),
    decreases o,
{
    lemma_index_prefix(b1, b2, o, c);
    match index_parse(b1.subrange(o, b1.len() as int)) {
        Ok(i) => {
            if i.prev_offset != 0 && i.prev_offset + 44 <= o {
                lemma_chain_prefix(b1, b2, i.prev_offset as int, c);
            }
        },
        Err(_) => {},
    }
}

/// What `open_spec` of the newest version says of the bytes it read.
pub proof fn lemma_open_latest(b: Seq<u8>, f: FileView)
    requires
        open_spec(b, None) == Ok::<FileView, Error>(f),
    ensures
        footer_check(b) == Ok::<crate::meta::Footer, Error>(f.footer),
        b.len() >= 49,
        f.offset == latest_offset(b),
        index_parse(b.subrange(f.offset, b.len() as int)) == Ok::<Index, Error>(f.index),
        version_at(b, f.offset) == Ok::<(Index, Seq<ChunkView>), Error>((f.index, f.chunks)),
        f.footer.version == crate::meta::FORMAT_VERSION,
{
}

/// Compaction drops without destroying: after an append whose root no
/// longer reaches `x`, the new version has no record of `x`, while the
/// previous version still opens as it was and reads `x` as before.
pub proof fn law_compaction(
    before: Seq<u8>,
    prev_file: FileView,
    nodes: Seq<NodeType>,
    root: Id,
    hash: Id,
    after: Seq<u8>,
    f: FileView,
    x: Id,
)
    requires
        open_spec(before, None) == Ok::<FileView, Error>(prev_file),
        prev_file.offset > 0,
        before.len() <= u64::MAX,
        after.len() <= u64::MAX,
        saved(
            before,
            before.len() as int,
            nodes,
            prev_file.chunks,
            root,
            hash,
            prev_file.offset as u64,
            after,
            f,
        ),
        !reaches(merged(nodes, prev_file.chunks), root, x),
    ensures
        node_lookup(f.chunks, after, x) == Err::<(NodeKind, NodeView), Error>(Error::NotFound),
        open_spec(after, Some(prev_file.offset as u64)) == Ok::<FileView, Error>(prev_file),
        node_lookup(prev_file.chunks, before, x) is Ok ==> node_lookup(prev_file.chunks, after, x)
            == node_lookup(prev_file.chunks, before, x),
{
    let c = before.len() as int;
    let on = prev_file.offset;
    lemma_open_latest(before, prev_file);
    lemma_open_latest(after, f);
    assert(on + 49 == c);
    lemma_version_prefix(after, before, on, c);
    lemma_index_prefix(after, before, on, c);
    let t = prev_file.chunks;
    if node_lookup(t, before, x) is Ok {
        lemma_find(t, x);
        let r = t[find(t, x)];
        assert(after.subrange(r.offset as int, r.offset + r.size) =~= after.subrange(0, c).subrange(
            r.offset as int,
            r.offset + r.size,
        ));
        assert(before.subrange(r.offset as int, r.offset + r.size) =~= before.subrange(
            0,
            c,
        ).subrange(r.offset as int, r.offset + r.size));
    }
    assert(resolve_from(after, on, Some(on as u64)) == Ok::<(int, Index), Error>((on, prev_file.index)));
    assert(f.offset != on);
    assert(resolve_from(after, latest_offset(after), Some(on as u64)) == Ok::<(int, Index), Error>(
        (on, prev_file.index),
    ));
}

/// The first write of a container leaves a chain of exactly one version,
/// whose table size is the encoded length of its records.
pub proof fn law_chain_write(
    before: Seq<u8>,
    nodes: Seq<NodeType>,
    root: Id,
    hash: Id,
    after: Seq<u8>,
    f: FileView,
)
    requires
        saved(before, 0, nodes, Seq::empty(), root, hash, 0, after, f),
    ensures
        chain(after) == Ok::<Seq<(int, Index)>, Error>(seq![(f.offset, f.index)]),
        f.index.size == table_bytes(f.chunks).len(),
{
    lemma_open_latest(after, f);
}

/// Each append adds exactly one version in front of the chain it extends,
/// linked to the previous newest one; the older versions read as before.
pub proof fn law_chain_append(
    before: Seq<u8>,
    prev_file: FileView,
    nodes: Seq<NodeType>,
    root: Id,
    hash: Id,
    after: Seq<u8>,
    f: FileView,
    older: Seq<(int, Index)>,
)
    requires
        open_spec(before, None) == Ok::<FileView, Error>(prev_file),
        prev_file.offset > 0,
        before.len() <= u64::MAX,
        saved(
            before,
            before.len() as int,
            nodes,
            prev_file.chunks,
            root,
            hash,
            prev_file.offset as u64,
            after,
            f,
        ),
        chain(before) == Ok::<Seq<(int, Index)>, Error>(older),
    ensures
        chain(after) == Ok::<Seq<(int, Index)>, Error>(seq![(f.offset, f.index)] + older),
        chain(after).unwrap().len() == older.len() + 1,
        f.index.size == table_bytes(f.chunks).len(),
        forall|o: int| 0 <= o <= prev_file.offset ==> version_at(after, o) == version_at(before, o),
{
    let c = before.len() as int;
    let on = prev_file.offset;
    lemma_open_latest(before, prev_file);
    lemma_open_latest(after, f);
    lemma_chain_prefix(after, before, on, c);
    assert forall|o: int| 0 <= o <= prev_file.offset implies version_at(after, o) == version_at(before, o) by {
        lemma_version_prefix(after, before, o, c);
    }
}

/// Reads are repeatable: two lookups of one identifier in one version of one
/// container give the same result.
pub proof fn law_read_idempotent(
    t: Seq<ChunkView>,
    b: Seq<u8>,
    id: Id,
    first: Result<(NodeKind, NodeView), Error>,
    second: Result<(NodeKind, NodeView), Error>,
)
    requires
        first == node_lookup(t, b, id),
        second == node_lookup(t, b, id),
    ensures
        first == second,
{
}


/// Whether `b` is a container made by a first write and then `k - 1`
/// appends, each to the newest version of the container before it.
pub open spec fn built(b: Seq<u8>, k: nat) -> bool
    decreases k,
{
    if k == 0 {
        false
    } else if k == 1 {
        exists|before: Seq<u8>, nodes: Seq<NodeType>, root: Id, hash: Id, f: FileView|
            saved(before, 0, nodes, Seq::empty(), root, hash, 0, b, f)
    } else {
        exists|b0: Seq<u8>, f0: FileView, nodes: Seq<NodeType>, root: Id, f: FileView|
            #![trigger saved(b0, b0.len() as int, nodes, f0.chunks, root, f0.index.hash, f0.offset as u64, b, f)]
            {
                &&& built(b0, (k - 1) as nat)
                &&& open_spec(b0, None) == Ok::<FileView, Error>(f0)
                &&& f0.offset > 0
                &&& b0.len() <= u64::MAX
                &&& saved(
                    b0,
                    b0.len() as int,
                    nodes,
                    f0.chunks,
                    root,
                    f0.index.hash,
                    f0.offset as u64,
                    b,
                    f,
                )
            }
    }
}

/// Whether every identifier that a record of `t` names has a record in `t`.
pub open spec fn links_closed(t: Seq<ChunkView>) -> bool {
    forall|i: int, d: Id| 0 <= i < t.len() && #[trigger] links(t[i], d) ==> find(t, d) >= 0
}

/// Whether the version whose index is at `o` in `b` reads as `i` with a
/// table whose size is its encoded length, whose records only name records
/// of the same table, and whose payloads lie before the table.
pub open spec fn sound_version(b: Seq<u8>, o: int, i: Index) -> bool {
    exists|t: Seq<ChunkView>|
        #![trigger table_bytes(t)]
        {
            &&& version_at(b, o) == Ok::<(Index, Seq<ChunkView>), Error>((i, t))
            &&& table_bytes(t).len() == i.size
            &&& links_closed(t)
            &&& payloads_before(t, o - i.size)
        }
}

pub proof fn lemma_chain_offsets(b: Seq<u8>, o: int)
    requires
        chain_from(b, o) is Ok,
    ensures
        chain_from(b, o).unwrap().len() >= 1,
        chain_from(b, o).unwrap()[0].0 == o,
        forall|j: int|
            0 <= j < chain_from(b, o).unwrap().len() ==> 0 <= #[trigger] chain_from(b, o).unwrap()[j].0
                <= o,
    decreases o,
{
    let i = index_parse(b.subrange(o, b.len() as int)).unwrap();
    if i.prev_offset != 0 {
        lemma_chain_offsets(b, i.prev_offset as int);
        let c = chain_from(b, o).unwrap();
        let rest = chain_from(b, i.prev_offset as int).unwrap();
        assert forall|j: int| 0 <= j < c.len() implies 0 <= #[trigger] c[j].0 <= o by {
            if j > 0 {
                assert(c[j] == rest[j - 1]);
            }
        }
    }
}

/// What every save leaves true of its new version.
proof fn lemma_new_version(
    before: Seq<u8>,
    cursor: int,
    nodes: Seq<NodeType>,
    old: Seq<ChunkView>,
    root: Id,
    hash: Id,
    prev: u64,
    after: Seq<u8>,
    f: FileView,
)
    requires
        saved(before, cursor, nodes, old, root, hash, prev, after, f),
        payloads_before(old, cursor),
    ensures
        sound_version(after, f.offset, f.index),
        f.offset > 0,
{
    lemma_open_latest(after, f);
    law_append_monotonic(before, cursor, nodes, old, root, hash, prev, after, f);
    let m = merged(nodes, old);
    crate::graph::lemma_reaches_self(m, root);
    lemma_find(f.chunks, root);
    crate::meta::lemma_chunk_bytes_len(f.chunks[0]);
    assert(table_bytes(f.chunks) == crate::meta::chunk_bytes(f.chunks[0]) + table_bytes(
        f.chunks.drop_first(),
    ));
    assert(links_closed(f.chunks));
}

/// Chain integrity over any number of saves: a container made by a write and
/// `k - 1` appends has exactly `k` versions on its chain, newest first at
/// strictly decreasing offsets, and each reads back with a table whose size
/// is the encoded length of its records, whose records only name records of
/// the same table, and whose payloads lie inside the container before that
/// table.
pub proof fn law_chain_built(b: Seq<u8>, k: nat)
    requires
        built(b, k),
    ensures
        chain(b) is Ok,
        chain(b).unwrap().len() == k,
        forall|j: int|
            0 <= j < k ==> sound_version(b, (#[trigger] chain(b).unwrap()[j]).0, chain(b).unwrap()[j].1),
        forall|j: int| 0 < j < k ==> (#[trigger] chain(b).unwrap()[j]).0 < chain(b).unwrap()[j - 1].0,
        forall|j: int| 0 <= j < k ==> (#[trigger] chain(b).unwrap()[j]).0 + 49 <= b.len(),
        open_spec(b, None) is Ok,
        open_spec(b, None).unwrap().offset == chain(b).unwrap()[0].0,
        b.len() >= 49,
    decreases k,
{
    if k == 1 {
        let (before, nodes, root, hash, f) = choose|
            before: Seq<u8>,
            nodes: Seq<NodeType>,
            root: Id,
            hash: Id,
            f: FileView,
        | saved(before, 0, nodes, Seq::empty(), root, hash, 0, b, f);
        law_chain_write(before, nodes, root, hash, b, f);
        lemma_new_version(before, 0, nodes, Seq::empty(), root, hash, 0, b, f);
        let c = chain(b).unwrap();
        assert(c[0] == (f.offset, f.index));
    } else {
        let (b0, f0, nodes, root, f) = choose|
            b0: Seq<u8>,
            f0: FileView,
            nodes: Seq<NodeType>,
            root: Id,
            f: FileView,
        |
            #![trigger saved(b0, b0.len() as int, nodes, f0.chunks, root, f0.index.hash, f0.offset as u64, b, f)]
            {
                &&& built(b0, (k - 1) as nat)
                &&& open_spec(b0, None) == Ok::<FileView, Error>(f0)
                &&& f0.offset > 0
                &&& b0.len() <= u64::MAX
                &&& saved(
                    b0,
                    b0.len() as int,
                    nodes,
                    f0.chunks,
                    root,
                    f0.index.hash,
                    f0.offset as u64,
                    b,
                    f,
                )
            };
        law_chain_built(b0, (k - 1) as nat);
        let c0 = chain(b0).unwrap();
        lemma_open_latest(b0, f0);
        assert(c0[0].0 == f0.offset);
        assert(sound_version(b0, c0[0].0, c0[0].1));
        let t0 = choose|t: Seq<ChunkView>|
            {
                &&& version_at(b0, c0[0].0) == Ok::<(Index, Seq<ChunkView>), Error>((c0[0].1, t))
                &&& table_bytes(t).len() == c0[0].1.size
                &&& links_closed(t)
                &&& payloads_before(t, c0[0].0 - c0[0].1.size)
            };
        assert(t0 == f0.chunks);
        lemma_open_latest(b, f);
        law_chain_append(b0, f0, nodes, root, f0.index.hash, b, f, c0);
        lemma_new_version(
            b0,
            b0.len() as int,
            nodes,
            f0.chunks,
            root,
            f0.index.hash,
            f0.offset as u64,
            b,
            f,
        );
        let c = chain(b).unwrap();
        assert(c == seq![(f.offset, f.index)] + c0);
        lemma_chain_offsets(b0, f0.offset);
        assert forall|j: int| 0 <= j < k implies sound_version(b, (#[trigger] c[j]).0, c[j].1) by {
            if j > 0 {
                assert(c[j] == c0[j - 1]);
                assert(sound_version(b0, c0[j - 1].0, c0[j - 1].1));
                assert(0 <= c0[j - 1].0 <= f0.offset);
                assert(version_at(b, c0[j - 1].0) == version_at(b0, c0[j - 1].0));
            }
        }
        assert forall|j: int| 0 < j < k implies (#[trigger] c[j]).0 < c[j - 1].0 by {
            assert(c[j] == c0[j - 1]);
            if j > 1 {
                assert(c[j - 1] == c0[j - 2]);
            }
        }
        assert forall|j: int| 0 <= j < k implies (#[trigger] c[j]).0 + 49 <= b.len() by {
            if j > 0 {
                assert(c[j] == c0[j - 1]);
            }
        }
    }
}

} // verus!
