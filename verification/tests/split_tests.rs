use onebrc::split::into_chunks;

#[test]
fn empty() {
    let buffer = b"";
    let chunks = into_chunks(buffer, 2);
    assert_eq!(chunks, Vec::<&[u8]>::new());
}

#[test]
fn one() {
    let buffer = b"\n";
    let chunks = into_chunks(buffer, 2);
    assert_eq!(chunks, vec![b"\n" as &[u8]]);

    let buffer = b"\n";
    let chunks = into_chunks(buffer, 1);
    assert_eq!(chunks, vec![b"\n" as &[u8]]);

    let buffer = b"Kunming;19.8";
    let chunks = into_chunks(buffer, 2);
    assert_eq!(chunks, vec![b"Kunming;19.8" as &[u8]]);
}

#[test]
fn evenly_divisible_chunks() {
    let buffer = b"Row1\nRow2\nRow3\nRow4\n";
    let chunks = into_chunks(buffer, 2);
    assert_eq!(chunks, vec![b"Row1\nRow2\nRow3\n" as &[u8], b"Row4\n" as &[u8]]);
}

#[test]
fn not_evenly_divisible_chunks() {
    let buffer = b"Row1\nRow2\nRow3\nRow4\nRow5\n";
    let chunks = into_chunks(buffer, 2);
    assert_eq!(chunks, vec![b"Row1\nRow2\nRow3\n" as &[u8], b"Row4\nRow5\n" as &[u8]]);
}

#[test]
fn more_chunks_than_rows() {
    let buffer = b"1\n2\n3\n";
    let chunks = into_chunks(buffer, 5);
    assert_eq!(chunks, vec![b"1\n" as &[u8], b"2\n" as &[u8], b"3\n" as &[u8]]);
}

#[test]
fn chunks_concatenate_to_buffer() {
    let buffer = b"alpha;1.0\nbeta;2.5\ngamma;-3.2\ndelta;10.0";
    for n in 1..8usize {
        let chunks = into_chunks(buffer, n);
        let mut rebuilt: Vec<u8> = Vec::new();
        for c in &chunks {
            assert!(!c.is_empty());
            rebuilt.extend_from_slice(c);
        }
        assert_eq!(rebuilt, buffer.to_vec());
        for c in chunks.iter().take(chunks.len() - 1) {
            assert_eq!(*c.last().unwrap(), b'\n');
        }
    }
}
