use document_file::codec::{Error, Id, Rect};
use document_file::file::File;
use document_file::meta::{Footer, Index, FORMAT_VERSION};
use document_file::node::{Node, NodeKind, NodeType};
use uuid::Uuid;

const ROOT: &str = "fc2c9e3e-2cd7-4375-a6fe-49403cc9f82b";
const NOTE: &str = "1c3deaf3-3c7f-444d-9e05-9ddbcc2b9391";
const HASH: &str = "4b26c471-3098-4cce-9cdb-9e77dbd302ef";

fn id(s: &str) -> Id {
    Id { value: Uuid::parse_str(s).unwrap().to_u128_le() }
}

fn node(kind: NodeKind, at: Id, name: &str, payload: Vec<u8>, children: Vec<Id>) -> NodeType {
    NodeType::new(
        kind,
        Node {
            id: at,
            name: name.into(),
            rect: Rect { x: 0, y: 0, w: 0, h: 0 },
            payload,
            children,
            dependencies: vec![],
        },
    )
}

fn group_with_note() -> Vec<NodeType> {
    vec![
        node(NodeKind::Group, id(ROOT), "Root", vec![], vec![id(NOTE)]),
        node(NodeKind::Note, id(NOTE), "Foo", vec![], vec![]),
    ]
}

#[test]
fn it_reads_empty_file() {
    let file = File::empty(id(HASH));
    assert_eq!(file.footer.version, FORMAT_VERSION);
    assert_eq!(file.index.hash, id(HASH));
    assert_eq!(file.index.size, 0);
    assert_eq!(file.chunks.len(), 0);
    let buffer: Vec<u8> = vec![
        0x50, 0x58, 0x4C, 0x52, 0x00, 0x00, 0x00, 0x00, 0x00, 0x4B, 0x26, 0xC4, 0x71, 0x30, 0x98,
        0x4C, 0xCE, 0x9C, 0xDB, 0x9E, 0x77, 0xDB, 0xD3, 0x02, 0xEF,
    ];
    assert_eq!(File::open(&buffer).err(), Some(Error::UnsupportedVersion));
    assert_eq!(File::open(&[]).err(), Some(Error::UnsupportedVersion));
}

#[test]
fn it_writes_reads_file() {
    let doc = group_with_note();
    let mut buffer: Vec<u8> = Vec::new();
    let mut file = File::empty(id(HASH));
    let len = file.write(&mut buffer, &doc, id(ROOT)).expect("Failed to write buffer.");
    assert_eq!(len, 188);
    assert_eq!(buffer.len(), 188);
    let file = File::open(&buffer).expect("Failed to parse buffer.");
    assert_eq!(file.footer.version, FORMAT_VERSION);
    assert_eq!(
        file.index,
        Index { hash: id(HASH), root: id(ROOT), size: 139, prev_offset: 0 }
    );
    assert_eq!(file.chunks.len(), 2);
    match file.get_node(&buffer, id(ROOT)) {
        Ok(NodeType::Group(group)) => {
            assert_eq!(group.name, "Root");
            assert_eq!(group.rect, Rect { x: 0, y: 0, w: 0, h: 0 });
            assert_eq!(group.children.len(), 1);
            match file.get_node(&buffer, group.children[0]) {
                Ok(NodeType::Note(note)) => assert_eq!(note.name, "Foo"),
                _ => panic!("Could not get child 0"),
            }
        },
        _ => panic!("Could not get node fc2c9e3e-2cd7-4375-a6fe-49403cc9f82b"),
    }
}

#[test]
fn it_appends_reads_file() {
    let mut buffer: Vec<u8> = Vec::new();
    {
        let doc = group_with_note();
        let mut file = File::empty(id(HASH));
        let len = file.write(&mut buffer, &doc, id(ROOT)).expect("Failed to write buffer.");
        assert_eq!(len, 188);
        assert_eq!(buffer.len(), 188);
    }
    {
        let mut file = File::open(&buffer).expect("Failed to parse buffer.");
        let doc = vec![node(NodeKind::Group, id(ROOT), "Root", vec![], vec![])];
        let len = file.append(&mut buffer, &doc, id(ROOT)).expect("Failed to write buffer.");
        assert_eq!(len, 111);
        assert_eq!(buffer.len(), 299);
    }
    {
        let file = File::open(&buffer).expect("Failed to parse buffer.");
        assert_eq!(file.footer.version, FORMAT_VERSION);
        assert_eq!(file.chunks.len(), 1);
        match file.get_node(&buffer, id(ROOT)) {
            Ok(NodeType::Group(group)) => {
                assert_eq!(group.name, "Root");
                assert_eq!(group.children.len(), 0);
            },
            _ => panic!("Could not get node fc2c9e3e-2cd7-4375-a6fe-49403cc9f82b"),
        }
    }
}

#[test]
fn scenario_group_then_strip_note() {
    let mut buffer: Vec<u8> = Vec::new();
    let mut file = File::empty(id(HASH));
    file.write(&mut buffer, &group_with_note(), id(ROOT)).unwrap();
    let first = File::open(&buffer).unwrap();
    assert_eq!(first.chunks.len(), 2);
    assert_eq!(first.chunks[0].id, id(ROOT));
    assert_eq!(first.chunks[1].id, id(NOTE));
    assert_eq!(first.index.root, id(ROOT));
    let mut records: Vec<u8> = Vec::new();
    first.chunks[0].write(&mut records);
    first.chunks[1].write(&mut records);
    assert_eq!(first.index.size as usize, records.len());

    let old_bytes = buffer.clone();
    let mut second = File::open(&buffer).unwrap();
    let doc = vec![node(NodeKind::Group, id(ROOT), "Root", vec![], vec![])];
    second.append(&mut buffer, &doc, id(ROOT)).unwrap();
    assert_eq!(&buffer[..old_bytes.len()], &old_bytes[..]);

    let latest = File::open(&buffer).unwrap();
    assert_eq!(latest.chunks.len(), 1);
    assert_eq!(latest.chunks[0].id, id(ROOT));
    assert_eq!(latest.get_node(&buffer, id(NOTE)).err(), Some(Error::NotFound));

    let older = File::open_at(&buffer, Some(first.offset)).unwrap();
    assert_eq!(older.chunks.len(), 2);
    match older.get_node(&buffer, id(NOTE)) {
        Ok(NodeType::Note(note)) => assert_eq!(note.name, "Foo"),
        _ => panic!("the older version lost its note"),
    }
}

fn tree() -> Vec<NodeType> {
    let a = Id { value: 1 };
    let b = Id { value: 2 };
    let c = Id { value: 3 };
    let p = Id { value: 4 };
    vec![
        node(NodeKind::Group, a, "root", vec![7, 7], vec![b, c]),
        node(NodeKind::CanvasGroup, b, "layers", vec![1, 2, 3], vec![]),
        NodeType::Canvas(Node {
            id: c,
            name: "canvas ü".into(),
            rect: Rect { x: 1, y: 2, w: 30, h: 40 },
            payload: vec![9; 20],
            children: vec![],
            dependencies: vec![p],
        }),
        node(NodeKind::Palette, p, "palette", vec![5], vec![]),
    ]
}

#[test]
fn round_trip_every_node() {
    let doc = tree();
    let mut buffer: Vec<u8> = Vec::new();
    let mut file = File::empty(Id { value: 99 });
    let n = file.write(&mut buffer, &doc, Id { value: 1 }).unwrap();
    assert_eq!(n, buffer.len());
    let opened = File::open(&buffer).unwrap();
    assert_eq!(opened.chunks.len(), 4);
    for original in doc.iter() {
        let read = opened.get_node(&buffer, original.as_node().id).unwrap();
        assert_eq!(read.kind(), original.kind());
        let (r, o) = (read.as_node(), original.as_node());
        assert_eq!(r.id, o.id);
        assert_eq!(r.name, o.name);
        assert_eq!(r.rect, o.rect);
        assert_eq!(r.payload, o.payload);
        assert_eq!(r.children, o.children);
        assert_eq!(r.dependencies, o.dependencies);
    }
}

#[test]
fn write_drops_unreachable_nodes() {
    let mut doc = tree();
    doc.push(node(NodeKind::Note, Id { value: 50 }, "stray", vec![1, 2, 3, 4], vec![]));
    let mut buffer: Vec<u8> = Vec::new();
    let mut file = File::empty(Id { value: 99 });
    file.write(&mut buffer, &doc, Id { value: 1 }).unwrap();
    assert_eq!(file.chunks.len(), 4);
    let opened = File::open(&buffer).unwrap();
    assert_eq!(opened.get_node(&buffer, Id { value: 50 }).err(), Some(Error::NotFound));
}

#[test]
fn append_reuses_unchanged_nodes() {
    let mut buffer: Vec<u8> = Vec::new();
    let mut file = File::empty(Id { value: 99 });
    file.write(&mut buffer, &tree(), Id { value: 1 }).unwrap();
    let before = buffer.len();
    let doc = vec![node(NodeKind::Group, Id { value: 1 }, "renamed", vec![], vec![Id { value: 3 }])];
    let written = file.append(&mut buffer, &doc, Id { value: 1 }).unwrap();
    assert_eq!(buffer.len(), before + written);
    let opened = File::open(&buffer).unwrap();
    assert_eq!(opened.chunks.len(), 3);
    assert_eq!(opened.get_node(&buffer, Id { value: 2 }).err(), Some(Error::NotFound));
    let canvas = opened.get_node(&buffer, Id { value: 3 }).unwrap();
    assert_eq!(canvas.as_node().payload, vec![9; 20]);
    let palette = opened.get_node(&buffer, Id { value: 4 }).unwrap();
    assert_eq!(palette.as_node().payload, vec![5]);
    let root = opened.get_node(&buffer, Id { value: 1 }).unwrap();
    assert_eq!(root.as_node().name, "renamed");
    for c in opened.chunks.iter() {
        assert!((c.offset + c.size as u64) as usize <= buffer.len());
    }
}

#[test]
fn chain_has_one_version_per_save() {
    let mut buffer: Vec<u8> = Vec::new();
    let mut file = File::empty(Id { value: 99 });
    file.write(&mut buffer, &tree(), Id { value: 1 }).unwrap();
    file.append(&mut buffer, &tree(), Id { value: 1 }).unwrap();
    file.append(&mut buffer, &tree()[..1].to_vec(), Id { value: 1 }).unwrap();
    let (mut offset, mut index) = File::resolve_version(&buffer, None).unwrap();
    let mut hops = 0;
    loop {
        let version = File::open_at(&buffer, Some(offset)).unwrap();
        let mut records: Vec<u8> = Vec::new();
        for c in version.chunks.iter() {
            c.write(&mut records);
        }
        assert_eq!(records.len(), index.size as usize);
        hops += 1;
        if index.prev_offset == 0 {
            break;
        }
        let next = File::resolve_version(&buffer, Some(index.prev_offset)).unwrap();
        offset = next.0;
        index = next.1;
    }
    assert_eq!(hops, 3);
}

#[test]
fn reads_are_repeatable() {
    let mut buffer: Vec<u8> = Vec::new();
    let mut file = File::empty(Id { value: 99 });
    file.write(&mut buffer, &tree(), Id { value: 1 }).unwrap();
    let a = file.get_node(&buffer, Id { value: 3 }).unwrap();
    let b = file.get_node(&buffer, Id { value: 3 }).unwrap();
    assert_eq!(a.kind(), b.kind());
    assert_eq!(a.as_node().name, b.as_node().name);
    assert_eq!(a.as_node().payload, b.as_node().payload);
    assert_eq!(a.as_node().dependencies, b.as_node().dependencies);
}

#[test]
fn write_fails_on_missing_reference() {
    let doc = vec![node(NodeKind::Group, Id { value: 1 }, "root", vec![], vec![Id { value: 8 }])];
    let mut buffer: Vec<u8> = vec![1, 2, 3];
    let mut file = File::empty(Id { value: 99 });
    assert_eq!(file.write(&mut buffer, &doc, Id { value: 1 }), Err(Error::NotFound));
    assert_eq!(buffer, vec![1, 2, 3]);
    assert_eq!(file.write(&mut buffer, &doc, Id { value: 5 }), Err(Error::NotFound));
}

#[test]
fn open_rejects_other_format_version() {
    let mut buffer: Vec<u8> = Vec::new();
    let mut file = File::empty(Id { value: 99 });
    file.write(&mut buffer, &tree(), Id { value: 1 }).unwrap();
    let at = buffer.len() - 5;
    buffer[at] = 7;
    assert_eq!(File::open(&buffer).err(), Some(Error::UnsupportedVersion));
}

#[test]
fn open_short_container_is_truncated() {
    let mut buffer: Vec<u8> = vec![0; 10];
    Footer { version: FORMAT_VERSION }.write(&mut buffer);
    assert_eq!(File::open(&buffer).err(), Some(Error::Truncated));
}

#[test]
fn open_detects_forward_link() {
    let mut buffer: Vec<u8> = Vec::new();
    let mut file = File::empty(Id { value: 99 });
    file.write(&mut buffer, &tree(), Id { value: 1 }).unwrap();
    file.append(&mut buffer, &tree(), Id { value: 1 }).unwrap();
    let latest = buffer.len() - 49;
    let forward = (latest as u64 + 1).to_le_bytes();
    buffer[latest..latest + 8].copy_from_slice(&forward);
    assert_eq!(File::open_at(&buffer, Some(3)).err(), Some(Error::CorruptChain));
    assert_eq!(File::resolve_version(&buffer, Some(3)).err(), Some(Error::CorruptChain));
}

#[test]
fn resolve_unknown_offset_is_not_found() {
    let mut buffer: Vec<u8> = Vec::new();
    let mut file = File::empty(Id { value: 99 });
    file.write(&mut buffer, &tree(), Id { value: 1 }).unwrap();
    assert_eq!(File::resolve_version(&buffer, Some(3)).err(), Some(Error::NotFound));
}

#[test]
fn unknown_kind_is_invalid_data() {
    let mut buffer: Vec<u8> = Vec::new();
    let mut file = File::empty(Id { value: 99 });
    file.write(&mut buffer, &tree(), Id { value: 1 }).unwrap();
    let mut opened = File::open(&buffer).unwrap();
    opened.chunks[0].node = 40;
    assert_eq!(opened.get_node(&buffer, Id { value: 1 }).err(), Some(Error::InvalidData));
    opened.chunks[0].node = 0;
    opened.chunks[0].offset = buffer.len() as u64;
    assert_eq!(opened.get_node(&buffer, Id { value: 1 }).err(), Some(Error::Truncated));
}

#[test]
fn node_kind_views() {
    let n = node(NodeKind::Canvas, Id { value: 1 }, "c", vec![], vec![]);
    assert!(n.as_documentnode().is_none());
    assert!(n.as_spritenode().is_some());
    let g = node(NodeKind::Group, Id { value: 1 }, "g", vec![], vec![]);
    assert!(g.as_documentnode().is_some());
    assert!(g.as_spritenode().is_none());
    let cg = node(NodeKind::CanvasGroup, Id { value: 1 }, "cg", vec![], vec![]);
    assert!(cg.as_documentnode().is_some());
    assert!(cg.as_spritenode().is_some());
    assert_eq!(NodeKind::Group.discriminant(), 0);
    assert_eq!(NodeKind::Canvas.discriminant(), 4);
    assert_eq!(NodeKind::from_discriminant(2), Some(NodeKind::Palette));
    assert_eq!(NodeKind::from_discriminant(5), None);
    let mut out: Vec<u8> = Vec::new();
    assert_eq!(NodeKind::Note.write(&mut out), 2);
    assert_eq!(out, vec![1, 0]);
    assert_eq!(NodeKind::parse(&out, 0), Ok((NodeKind::Note, 2)));
    assert_eq!(NodeKind::parse(&[9, 0], 0), Err(Error::InvalidData));
    assert_eq!(NodeKind::parse(&[9], 0), Err(Error::Truncated));
}

#[test]
fn ranged_read_matches_full_read() {
    let mut buffer: Vec<u8> = Vec::new();
    let mut file = File::empty(Id { value: 99 });
    file.write(&mut buffer, &tree(), Id { value: 1 }).unwrap();
    let (offset, size) = file.chunk_range(Id { value: 3 }).unwrap();
    assert_eq!(size, 20);
    let payload = &buffer[offset as usize..offset as usize + size as usize];
    let node = file.decode_node(Id { value: 3 }, payload).unwrap();
    assert_eq!(node.kind(), NodeKind::Canvas);
    assert_eq!(node.as_node().payload, vec![9; 20]);
    assert_eq!(node.as_node().dependencies, vec![Id { value: 4 }]);
    assert_eq!(file.decode_node(Id { value: 3 }, &payload[1..]).err(), Some(Error::Truncated));
    assert_eq!(file.chunk_range(Id { value: 77 }).err(), Some(Error::NotFound));
    assert_eq!(file.decode_node(Id { value: 77 }, payload).err(), Some(Error::NotFound));
}

#[test]
fn append_keeps_every_old_byte() {
    let mut buffer: Vec<u8> = Vec::new();
    let mut file = File::empty(Id { value: 99 });
    file.write(&mut buffer, &tree(), Id { value: 1 }).unwrap();
    let old = buffer.clone();
    let n = file.append(&mut buffer, &tree()[..1].to_vec(), Id { value: 1 }).unwrap();
    assert_eq!(buffer.len(), old.len() + n);
    assert_eq!(&buffer[..old.len()], &old[..]);
    assert_eq!(file.index.prev_offset as usize, old.len() - 49);
    assert_eq!(file.index.hash, Id { value: 99 });
    assert_eq!(&buffer[buffer.len() - 5..], &[FORMAT_VERSION, 80, 88, 76, 82]);
}

#[test]
fn append_writes_only_new_payloads() {
    let mut buffer: Vec<u8> = Vec::new();
    let mut file = File::empty(Id { value: 99 });
    file.write(&mut buffer, &tree(), Id { value: 1 }).unwrap();
    let before = buffer.len();
    let old_canvas = file.chunk_range(Id { value: 3 }).unwrap();
    let doc = vec![node(NodeKind::Group, Id { value: 1 }, "root", vec![6, 6, 6], vec![Id { value: 3 }])];
    file.append(&mut buffer, &doc, Id { value: 1 }).unwrap();
    assert!(file.fits());
    assert_eq!(file.chunk_range(Id { value: 3 }).unwrap(), old_canvas);
    let table_start = file.offset as usize - file.index.size as usize;
    assert_eq!(&buffer[before..table_start], &[6u8, 6, 6][..]);
}
