use ohmc::nbt::{write_root, write_varint, Tag};

#[test]
fn varint_matches_leb128() {
    let cases: [(u32, &[u8]); 5] = [
        (0, &[0x00]),
        (1, &[0x01]),
        (127, &[0x7f]),
        (128, &[0x80, 0x01]),
        (300, &[0xac, 0x02]),
    ];
    for (v, expect) in cases {
        let mut buf = Vec::new();
        write_varint(&mut buf, v);
        assert_eq!(buf, expect, "varint({v})");
    }
}

#[test]
fn compound_roundtrip_shape() {
    let t = Tag::Compound(vec![("A".into(), Tag::Int(1))]);
    let bytes = write_root("R", &t);
    // 0a 0001 'R' | 03 0001 'A' 00000001 | 00
    assert_eq!(
        bytes,
        vec![0x0a, 0x00, 0x01, b'R', 0x03, 0x00, 0x01, b'A', 0, 0, 0, 1, 0x00]
    );
}

#[test]
fn empty_list_uses_tag_end() {
    let mut buf = Vec::new();
    Tag::List(10, vec![]).write_payload(&mut buf);
    assert_eq!(buf, vec![0x00, 0, 0, 0, 0]);
}
