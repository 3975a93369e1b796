use caver::file::index::FileIndex;
use caver::file::File;

fn leaf(name: &str) -> File {
    File { name: name.to_string(), children: vec![] }
}

fn node(name: &str, children: Vec<File>) -> File {
    File { name: name.to_string(), children }
}

fn sample() -> FileIndex {
    FileIndex {
        disks: vec![
            node(
                "C:\\",
                vec![node("docs", vec![leaf("notes.txt"), leaf("päö €")]), leaf("top")],
            ),
            node("D:\\", vec![]),
        ],
    }
}

#[test]
fn round_trip_keeps_shape_and_names() {
    let original = sample();
    let bytes = original.to_bytes();
    let loaded = FileIndex::from_bytes(&bytes).unwrap();
    assert_eq!(loaded, original);
}

#[test]
fn round_trip_of_empty_snapshot() {
    let original = FileIndex { disks: vec![] };
    let loaded = FileIndex::from_bytes(&original.to_bytes()).unwrap();
    assert_eq!(loaded, original);
}

#[test]
fn empty_bytes_fail_to_decode() {
    assert!(FileIndex::from_bytes(&vec![]).is_err());
}

#[test]
fn truncated_bytes_fail_to_decode() {
    let mut bytes = sample().to_bytes();
    bytes.pop();
    assert!(FileIndex::from_bytes(&bytes).is_err());
}

#[test]
fn trailing_bytes_fail_to_decode() {
    let mut bytes = sample().to_bytes();
    bytes.push(0);
    assert!(FileIndex::from_bytes(&bytes).is_err());
}

#[test]
fn non_scalar_character_value_fails_to_decode() {
    // One tree whose name is one character with value 0xD800, a
    // surrogate, which no character may carry.
    let mut bytes: Vec<u8> = Vec::new();
    bytes.extend_from_slice(&[1, 0, 0, 0, 0, 0, 0, 0]); // one tree
    bytes.extend_from_slice(&[1, 0, 0, 0, 0, 0, 0, 0]); // name of one char
    bytes.extend_from_slice(&[0x00, 0xD8, 0x00, 0x00]); // the surrogate
    bytes.extend_from_slice(&[0, 0, 0, 0, 0, 0, 0, 0]); // no children
    assert!(FileIndex::from_bytes(&bytes).is_err());
}

#[test]
fn format_is_little_endian_with_length_fields() {
    let bytes = FileIndex { disks: vec![leaf("A")] }.to_bytes();
    let expected: Vec<u8> = vec![
        1, 0, 0, 0, 0, 0, 0, 0, // one tree
        1, 0, 0, 0, 0, 0, 0, 0, // name of one char
        0x41, 0, 0, 0, // 'A'
        0, 0, 0, 0, 0, 0, 0, 0, // no children
    ];
    assert_eq!(bytes, expected);
}
