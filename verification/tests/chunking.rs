use ron_ops::atoms::Payload;
use ron_ops::chunk::{chunk_frame, Chunk, ChunkError};
use ron_ops::op::Op;
use ron_ops::terminator::Terminator;
use ron_ops::token::Locator;

fn bare_op(event: &str, term: Terminator) -> Op {
    Op {
        ty: Locator::new("TY").unwrap(),
        object: Locator::new("OBJ").unwrap(),
        event: Locator::new(event).unwrap(),
        location: Locator::new("RE").unwrap(),
        atoms: Payload::new(),
        term,
    }
}

#[test]
fn three_chunks_from_a_mixed_frame() {
    let frame = vec![
        bare_op("a", Terminator::Header),
        bare_op("b", Terminator::Reduced),
        bare_op("c", Terminator::Reduced),
        bare_op("d", Terminator::Raw),
        bare_op("e", Terminator::Query),
        bare_op("f", Terminator::Reduced),
    ];
    let chunks = chunk_frame(&frame).unwrap();
    assert_eq!(
        chunks,
        vec![
            Chunk { start: 0, end: 3 },
            Chunk { start: 3, end: 4 },
            Chunk { start: 4, end: 6 },
        ]
    );
}

#[test]
fn dangling_continuation_fails() {
    let frame = vec![bare_op("x", Terminator::Reduced)];
    assert_eq!(chunk_frame(&frame), Err(ChunkError::Dangling { at: 0 }));
}

#[test]
fn continuation_after_raw_fails() {
    let frame = vec![bare_op("a", Terminator::Raw), bare_op("b", Terminator::Reduced)];
    assert_eq!(chunk_frame(&frame), Err(ChunkError::Dangling { at: 1 }));
}

#[test]
fn empty_frame_has_no_chunks() {
    let frame: Vec<Op> = Vec::new();
    assert_eq!(chunk_frame(&frame), Ok(Vec::new()));
}

#[test]
fn raw_operations_chunk_alone() {
    let frame = vec![bare_op("a", Terminator::Raw), bare_op("b", Terminator::Raw)];
    let chunks = chunk_frame(&frame).unwrap();
    assert_eq!(chunks, vec![Chunk { start: 0, end: 1 }, Chunk { start: 1, end: 2 }]);
}

#[test]
fn directive_closes_the_open_chunk() {
    let frame = vec![
        bare_op("a", Terminator::Query),
        bare_op("b", Terminator::Header),
        bare_op("c", Terminator::Reduced),
    ];
    let chunks = chunk_frame(&frame).unwrap();
    assert_eq!(chunks, vec![Chunk { start: 0, end: 1 }, Chunk { start: 1, end: 3 }]);
}

#[test]
fn chunking_twice_gives_the_same_answer() {
    let frame = vec![
        bare_op("a", Terminator::Header),
        bare_op("b", Terminator::Reduced),
        bare_op("c", Terminator::Raw),
    ];
    let first = chunk_frame(&frame);
    let second = chunk_frame(&frame);
    assert_eq!(first, second);
    // the frame itself is untouched: its operations still format the same
    assert_eq!(frame[0].to_text(), "*TY#OBJ@a:RE!");
    assert_eq!(frame[2].to_text(), "*TY#OBJ@c:RE;");
}
