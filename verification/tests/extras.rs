use fingertips::ascii::Ascii;
use fingertips::tree::BinaryTree;

#[test]
fn test_ascii_to_string() {
    let bytes = b"ASCII and ye shall receive".to_vec();
    let ascii = match Ascii::from_bytes(bytes) {
        Ok(a) => a,
        Err(_) => panic!("the bytes are ASCII"),
    };
    let string = ascii.into_string();
    assert_eq!(string, "ASCII and ye shall receive");
}

#[test]
fn ascii_rejects_high_bytes_and_returns_them() {
    let bytes = vec![b'o', b'k', 0xC3, 0xA9];
    match Ascii::from_bytes(bytes.clone()) {
        Err(e) => assert_eq!(e.0, bytes),
        Ok(_) => panic!("0xC3 is not ASCII"),
    }
}

#[test]
fn test_into_iter() {
    let mut tree = BinaryTree::Empty;
    tree.add("jaeger".to_string());
    tree.add("robot".to_string());
    tree.add("droid".to_string());
    tree.add("mecha".to_string());

    let v = tree.iter();
    assert_eq!(v, vec!["droid", "jaeger", "mecha", "robot"]);

    let mega: Vec<String> = tree.iter().iter().map(|name| format!("mega-{}", name)).collect();
    assert_eq!(
        mega,
        vec!["mega-droid", "mega-jaeger", "mega-mecha", "mega-robot"]
    );
}

#[test]
fn gap_buffer_edits_at_the_gap() {
    let mut buf = fingertips::gap_buffer::GapBuffer::new();
    assert!(buf.is_empty());
    assert_eq!(buf.len(), 0);
    buf.insert_iter(vec!['h', 'e', 'l', 'o']);
    assert_eq!(buf.len(), 4);
    assert_eq!(buf.position(), 4);
    buf.set_position(3);
    buf.insert('l');
    assert_eq!(buf.len(), 5);
    let collected: Vec<char> = (0..buf.len()).map(|i| *buf.get(i).unwrap()).collect();
    assert_eq!(collected, vec!['h', 'e', 'l', 'l', 'o']);
    buf.set_position(0);
    assert_eq!(buf.remove(), Some('h'));
    assert_eq!(buf.len(), 4);
    assert_eq!(buf.get(0), Some(&'e'));
    assert_eq!(buf.get(9), None);
    buf.set_position(4);
    assert_eq!(buf.remove(), None);
}
