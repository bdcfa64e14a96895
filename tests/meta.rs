use document_file::codec::{Error, Id, Rect};
use document_file::meta::{Chunk, Footer, Index};
use uuid::Uuid;

fn id(s: &str) -> Id {
    Id { value: Uuid::parse_str(s).unwrap().to_u128_le() }
}

fn sample_chunk() -> Chunk {
    Chunk {
        id: id("ac16bacf-9a95-413e-b2f4-fcf94274ad62"),
        node: 1,
        offset: 2,
        size: 3,
        rect: Rect { x: 4, y: 5, w: 6, h: 7 },
        name: "Chunk".into(),
        children: vec![
            id("291666d7-e9e2-4401-8e7b-c3177a2f8536"),
            id("5aed490e-e4f0-4a18-94ed-01472f8d52a7"),
        ],
        dependencies: vec![id("b1e02af1-468b-4a94-b80f-7050874b39ef")],
    }
}

fn sample_chunk_bytes() -> Vec<u8> {
    vec![
        172u8, 22, 186, 207, 154, 149, 65, 62, 178, 244, 252, 249, 66, 116, 173, 98, 1, 0, 2, 0,
        0, 0, 0, 0, 0, 0, 3, 0, 0, 0, 4, 0, 0, 0, 5, 0, 0, 0, 6, 0, 0, 0, 7, 0, 0, 0, 2, 0, 0, 0,
        1, 0, 0, 0, 5, 0, 0, 0, 67, 104, 117, 110, 107, 41, 22, 102, 215, 233, 226, 68, 1, 142,
        123, 195, 23, 122, 47, 133, 54, 90, 237, 73, 14, 228, 240, 74, 24, 148, 237, 1, 71, 47,
        141, 82, 167, 177, 224, 42, 241, 70, 139, 74, 148, 184, 15, 112, 80, 135, 75, 57, 239,
    ]
}

fn sample_index_bytes() -> Vec<u8> {
    vec![
        2u8, 0, 0, 0, 0, 0, 0, 0, 1, 0, 0, 0, 74, 137, 201, 85, 84, 254, 74, 72, 179, 103, 55,
        138, 138, 71, 171, 52, 104, 32, 73, 112, 165, 58, 78, 181, 190, 228, 147, 227, 253, 25,
        232, 222,
    ]
}

fn sample_index() -> Index {
    Index {
        hash: id("68204970-a53a-4eb5-bee4-93e3fd19e8de"),
        root: id("4a89c955-54fe-4a48-b367-378a8a47ab34"),
        size: 1,
        prev_offset: 2,
    }
}

#[test]
fn footer_parse() {
    let footer = Footer { version: 1 };
    let mut buffer: Vec<u8> = Vec::new();

    let size = footer.write(&mut buffer);
    assert_eq!(buffer.len(), size);
    assert_eq!(buffer, vec![1, 80, 88, 76, 82]);
}

#[test]
fn footer_write() {
    let buffer: Vec<u8> = vec![1u8, 80, 88, 76, 82];
    let (footer, _) = Footer::parse(&buffer, 0).expect("Could not parse");
    assert_eq!(footer, Footer { version: 1 });
}

#[test]
fn index_parse() {
    let index = sample_index();
    let mut buffer: Vec<u8> = Vec::new();

    let size = index.write(&mut buffer);
    assert_eq!(buffer.len(), size);
    assert_eq!(buffer, sample_index_bytes());
}

#[test]
fn index_write() {
    let buffer = sample_index_bytes();
    let (index, _) = Index::parse(&buffer, 0).expect("Could not parse");
    assert_eq!(index, sample_index());
}

#[test]
fn chunk_parse() {
    let chunk = sample_chunk();
    let mut buffer: Vec<u8> = Vec::new();

    let size = chunk.write(&mut buffer);
    assert_eq!(buffer.len(), size);
    assert_eq!(buffer, sample_chunk_bytes());
}

#[test]
fn chunk_write() {
    let buffer = sample_chunk_bytes();
    let (chunk, end) = Chunk::parse(&buffer, 0).expect("Could not parse");
    let expected = sample_chunk();
    assert_eq!(end, buffer.len());
    assert_eq!(chunk.id, expected.id);
    assert_eq!(chunk.node, expected.node);
    assert_eq!(chunk.offset, expected.offset);
    assert_eq!(chunk.size, expected.size);
    assert_eq!(chunk.rect, expected.rect);
    assert_eq!(chunk.name, expected.name);
    assert_eq!(chunk.children, expected.children);
    assert_eq!(chunk.dependencies, expected.dependencies);
}

#[test]
fn footer_rejects_wrong_magic() {
    let buffer: Vec<u8> = vec![1u8, 80, 88, 76, 83];
    assert_eq!(Footer::parse(&buffer, 0), Err(Error::UnsupportedVersion));
}

#[test]
fn footer_truncated() {
    let buffer: Vec<u8> = vec![1u8, 80, 88, 76];
    assert_eq!(Footer::parse(&buffer, 0), Err(Error::Truncated));
}

#[test]
fn index_truncated() {
    let buffer = sample_index_bytes();
    assert_eq!(Index::parse(&buffer[..43], 0), Err(Error::Truncated));
}

#[test]
fn chunk_truncated_in_header() {
    let buffer = sample_chunk_bytes();
    assert_eq!(Chunk::parse(&buffer[..53], 0).unwrap_err(), Error::Truncated);
}

#[test]
fn chunk_truncated_in_identifiers() {
    let buffer = sample_chunk_bytes();
    let cut = buffer.len() - 1;
    assert_eq!(Chunk::parse(&buffer[..cut], 0).unwrap_err(), Error::Truncated);
}

#[test]
fn chunk_name_not_utf8() {
    let mut buffer = sample_chunk_bytes();
    buffer[58] = 0xFF;
    assert_eq!(Chunk::parse(&buffer, 0).unwrap_err(), Error::InvalidData);
}

#[test]
fn chunk_parse_at_offset() {
    let mut buffer: Vec<u8> = vec![9, 9, 9];
    sample_chunk().write(&mut buffer);
    let (chunk, end) = Chunk::parse(&buffer, 3).expect("Could not parse");
    assert_eq!(end, buffer.len());
    assert_eq!(chunk.name, "Chunk");
}

#[test]
fn default_records() {
    let index = Index::default();
    assert_eq!(index.root, Id { value: 0 });
    assert_eq!(index.size, 0);
    assert_eq!(index.prev_offset, 0);
    let chunk = Chunk::default();
    assert_eq!(chunk.name, "Chunk");
    assert_eq!(chunk.size, 0);
    assert!(chunk.children.is_empty());
    assert_ne!(Chunk::default().id, chunk.id);
}
