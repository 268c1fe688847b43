use filexfer::{reassemble, split_into_chunks, Chunk, Packet, SessionError, FIXED_CHUNK_SIZE};

fn pattern(len: usize) -> Vec<u8> {
    (0..len).map(|i| (i % 251) as u8).collect()
}

#[test]
fn read_takes_at_most_one_block() {
    let data = pattern(1500);
    let first = Chunk::read(&data, 0);
    assert_eq!(first.len(), 1024);
    assert!(!first.end());
    assert_eq!(first.payload(), &data[..1024]);
    let second = Chunk::read(&data, 1024);
    assert_eq!(second.len(), 476);
    assert!(second.end());
    assert_eq!(second.payload(), &data[1024..]);
    let past = Chunk::read(&data, 1500);
    assert_eq!(past.len(), 0);
    assert!(past.end());
}

#[test]
fn write_appends_payload_and_reports_end() {
    let mut file = vec![9u8];
    let full = Chunk::read(&pattern(1024), 0);
    assert!(!full.write(&mut file));
    assert_eq!(file.len(), 1025);
    let short = Chunk::read(&[1, 2, 3], 0);
    assert!(short.write(&mut file));
    assert_eq!(&file[1025..], &[1, 2, 3]);
    assert_eq!(file[0], 9);
}

#[test]
fn final_chunk_wire_form() {
    let chunk = Chunk::read(&[0xAA, 0xBB, 0xCC], 0);
    let mut wire = Vec::new();
    chunk.send(&mut wire);
    assert_eq!(wire, vec![0x80, 0x03, 0xAA, 0xBB, 0xCC]);
}

#[test]
fn full_chunk_wire_form() {
    let data = pattern(1024);
    let chunk = Chunk::read(&data, 0);
    let mut wire = Vec::new();
    chunk.send(&mut wire);
    assert_eq!(wire.len(), 1026);
    assert_eq!(&wire[..2], &[0x00, 0x00]);
    assert_eq!(&wire[2..], &data[..]);
}

#[test]
fn empty_final_chunk_wire_form() {
    let chunk = Chunk::read(&[], 0);
    let mut wire = Vec::new();
    chunk.send(&mut wire);
    assert_eq!(wire, vec![0x80, 0x00]);
}

#[test]
fn recv_reads_one_chunk_and_leaves_the_rest() {
    let wire = vec![0x80, 0x02, 7, 8, 0xFF, 0xFF];
    let (chunk, used) = Chunk::recv(&wire).unwrap();
    assert_eq!(used, 4);
    assert_eq!(chunk.payload(), &[7, 8]);
    assert!(chunk.end());
}

#[test]
fn recv_masks_the_length_to_ten_bits() {
    // bits 10..14 are not part of the length
    let mut wire = vec![0x80 | 0x04, 0x01];
    wire.push(42);
    let (chunk, used) = Chunk::recv(&wire).unwrap();
    assert_eq!(used, 3);
    assert_eq!(chunk.payload(), &[42]);
}

#[test]
fn recv_non_final_header_takes_a_full_block() {
    let mut wire = vec![0x00, 0x05];
    wire.extend(pattern(1024));
    let (chunk, used) = Chunk::recv(&wire).unwrap();
    assert_eq!(used, 1026);
    assert_eq!(chunk.len(), 1024);
    assert!(!chunk.end());
}

#[test]
fn recv_truncated_is_a_protocol_violation() {
    assert_eq!(Chunk::recv(&[0x80]).err(), Some(SessionError::ProtocolViolation));
    assert_eq!(Chunk::recv(&[0x80, 0x03, 1, 2]).err(), Some(SessionError::ProtocolViolation));
    let mut wire = vec![0x00, 0x00];
    wire.extend(pattern(1000));
    assert_eq!(Chunk::recv(&wire).err(), Some(SessionError::ProtocolViolation));
}

#[test]
fn chunk_wire_len() {
    assert_eq!(Chunk::wire_len(&[]), Ok(2));
    assert_eq!(Chunk::wire_len(&[0x80]), Ok(2));
    assert_eq!(Chunk::wire_len(&[0x80, 0x10]), Ok(18));
    assert_eq!(Chunk::wire_len(&[0x00, 0x00]), Ok(1026));
}

fn round_trip(len: usize) {
    let data = pattern(len);
    let chunks = split_into_chunks(&data);
    assert_eq!(chunks.len(), len / FIXED_CHUNK_SIZE + 1);
    for (i, c) in chunks.iter().enumerate() {
        assert_eq!(c.end(), i == chunks.len() - 1);
    }
    let (back, complete) = reassemble(&chunks);
    assert!(complete);
    assert_eq!(back, data);

    let mut wire = Vec::new();
    for c in &chunks {
        c.send(&mut wire);
    }
    let mut at = 0;
    let mut received = Vec::new();
    loop {
        let (c, used) = Chunk::recv(&wire[at..]).unwrap();
        at += used;
        if c.write(&mut received) {
            break;
        }
    }
    assert_eq!(at, wire.len());
    assert_eq!(received, data);
}

#[test]
fn round_trip_various_lengths() {
    for len in [0, 1, 1023, 1025, 2047, 2048, 3000, 5 * 1024 - 1] {
        round_trip(len);
    }
}

#[test]
fn exact_block_file_ends_with_empty_final_chunk() {
    let data = pattern(1024);
    let chunks = split_into_chunks(&data);
    assert_eq!(chunks.len(), 2);
    assert_eq!(chunks[0].len(), 1024);
    assert!(!chunks[0].end());
    assert_eq!(chunks[1].len(), 0);
    assert!(chunks[1].end());
    round_trip(1024);
}

#[test]
fn empty_file_is_one_empty_final_chunk() {
    let chunks = split_into_chunks(&[]);
    assert_eq!(chunks.len(), 1);
    assert!(chunks[0].end());
    assert_eq!(reassemble(&chunks), (Vec::new(), true));
}

#[test]
fn reassemble_stops_at_first_final_chunk() {
    let a = Chunk::read(&pattern(1024), 0);
    let b = Chunk::read(&[1, 2], 0);
    let c = Chunk::read(&[3], 0);
    let (bytes, complete) = reassemble(&[a, b, c]);
    assert!(complete);
    assert_eq!(bytes.len(), 1026);
    assert_eq!(&bytes[1024..], &[1, 2]);
}

#[test]
fn reassemble_without_final_chunk_is_incomplete() {
    let a = Chunk::read(&pattern(1024), 0);
    let (bytes, complete) = reassemble(&[a]);
    assert!(!complete);
    assert_eq!(bytes.len(), 1024);
}
