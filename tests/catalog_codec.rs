use filexfer::{Catalog, CatalogEntry, Packet, SessionError};

fn entry(name: &str, size: u64) -> CatalogEntry {
    CatalogEntry { name: name.to_string(), size }
}

fn encode(c: &Catalog) -> Vec<u8> {
    let mut wire = Vec::new();
    c.send(&mut wire);
    wire
}

fn same(a: &Catalog, b: &Catalog) -> bool {
    a.entries.len() == b.entries.len()
        && a.entries.iter().zip(b.entries.iter()).all(|(x, y)| x.name == y.name && x.size == y.size)
}

fn scenario_a_bytes() -> Vec<u8> {
    let mut expected = vec![0, 0, 0, 0, 0, 0, 0, 2];
    expected.extend([0, 0, 0, 0, 0, 0, 0, 10]);
    expected.extend([0, 0, 0, 0, 0, 0, 8, 0]);
    expected.extend([0, 0, 0, 0, 0, 0, 0, 11]);
    expected.extend(b"a.txt\0b.bin");
    expected
}

#[test]
fn scenario_a_encodes_exactly() {
    let c = Catalog { entries: vec![entry("a.txt", 10), entry("b.bin", 2048)] };
    assert_eq!(encode(&c), scenario_a_bytes());
}

#[test]
fn scenario_a_decodes_in_order() {
    let (c, used) = Catalog::recv(&scenario_a_bytes()).unwrap();
    assert_eq!(used, 43);
    assert_eq!(c.len(), 2);
    assert_eq!(c.entries[0].name, "a.txt");
    assert_eq!(c.entries[0].size, 10);
    assert_eq!(c.entries[1].name, "b.bin");
    assert_eq!(c.entries[1].size, 2048);
}

#[test]
fn empty_catalog_round_trip() {
    let c = Catalog { entries: vec![] };
    let wire = encode(&c);
    assert_eq!(wire, vec![0u8; 16]);
    let (back, used) = Catalog::recv(&wire).unwrap();
    assert_eq!(used, 16);
    assert!(same(&c, &back));
}

#[test]
fn unicode_and_zero_size_round_trip() {
    let c = Catalog {
        entries: vec![
            entry("naïve résumé.pdf", 0),
            entry("日本語.txt", u64::MAX),
            entry("x", 1),
            entry("🎵 song.mp3", 123456789),
        ],
    };
    let mut wire = encode(&c);
    let len = wire.len();
    wire.extend([1, 2, 3]);
    let (back, used) = Catalog::recv(&wire).unwrap();
    assert_eq!(used, len);
    assert!(same(&c, &back));
}

#[test]
fn truncated_catalog_is_a_protocol_violation() {
    let wire = scenario_a_bytes();
    for cut in [0, 7, 8, 20, 24, 31, 32, 42] {
        assert_eq!(Catalog::recv(&wire[..cut]).err(), Some(SessionError::ProtocolViolation));
    }
}

#[test]
fn field_count_mismatch_is_a_protocol_violation() {
    // three entries declared, two names in the blob
    let mut wire = vec![0, 0, 0, 0, 0, 0, 0, 3];
    wire.extend([0u8; 24]);
    wire.extend([0, 0, 0, 0, 0, 0, 0, 3]);
    wire.extend(b"a\0b");
    assert_eq!(Catalog::recv(&wire).err(), Some(SessionError::ProtocolViolation));
    // no entries declared, but a blob
    let mut wire = vec![0u8; 8];
    wire.extend([0, 0, 0, 0, 0, 0, 0, 1]);
    wire.push(b'a');
    assert_eq!(Catalog::recv(&wire).err(), Some(SessionError::ProtocolViolation));
    // one entry declared, empty blob
    let mut wire = vec![0, 0, 0, 0, 0, 0, 0, 1];
    wire.extend([0u8; 8]);
    wire.extend([0u8; 8]);
    assert_eq!(Catalog::recv(&wire).err(), Some(SessionError::ProtocolViolation));
}

#[test]
fn invalid_utf8_name_is_a_protocol_violation() {
    let mut wire = vec![0, 0, 0, 0, 0, 0, 0, 1];
    wire.extend([0u8; 8]);
    wire.extend([0, 0, 0, 0, 0, 0, 0, 2]);
    wire.extend([0xC3, 0x28]);
    assert_eq!(Catalog::recv(&wire).err(), Some(SessionError::ProtocolViolation));
}

#[test]
fn catalog_wire_len_grows_with_what_is_known() {
    let wire = scenario_a_bytes();
    assert_eq!(Catalog::wire_len(&wire[..3]), Ok(8));
    assert_eq!(Catalog::wire_len(&wire[..8]), Ok(32));
    assert_eq!(Catalog::wire_len(&wire[..31]), Ok(32));
    assert_eq!(Catalog::wire_len(&wire[..32]), Ok(43));
    assert_eq!(Catalog::wire_len(&wire), Ok(43));
}

#[test]
fn catalog_wire_len_rejects_impossible_counts() {
    let wire = vec![0xFF; 8];
    assert_eq!(Catalog::wire_len(&wire), Err(SessionError::ProtocolViolation));
    assert_eq!(Catalog::recv(&wire).err(), Some(SessionError::ProtocolViolation));
}

#[test]
fn new_accepts_well_formed_catalog() {
    let c = Catalog::new(vec![entry("a.txt", 10), entry("b.bin", 2048)]).unwrap();
    assert_eq!(c.len(), 2);
}

#[test]
fn new_rejects_empty_nul_and_duplicate_names() {
    assert!(Catalog::new(vec![entry("", 1)]).is_none());
    assert!(Catalog::new(vec![entry("a\0b", 1)]).is_none());
    assert!(Catalog::new(vec![entry("a", 1), entry("b", 2), entry("a", 3)]).is_none());
    assert!(Catalog::new(vec![]).is_some());
}

#[test]
fn position_finds_first_match() {
    let c = Catalog { entries: vec![entry("a", 1), entry("b", 2), entry("b", 3)] };
    assert_eq!(c.position(&"b".to_string()), Some(1));
    assert_eq!(c.position(&"c".to_string()), None);
}
