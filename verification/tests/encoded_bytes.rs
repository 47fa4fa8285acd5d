use compositing::encoded_bytes::{char_to_latin1_u8, latin1_u8_to_char, EncodedBytes};

fn latin1_segments(input: &[u8]) -> Vec<Vec<u8>> {
    EncodedBytes::Latin1Bytes(input)
        .split_commas()
        .iter()
        .map(|seg| match seg {
            EncodedBytes::Latin1Bytes(b) => b.to_vec(),
            EncodedBytes::Utf8Bytes(_) => panic!("latin-1 input split into utf-8 segments"),
        })
        .collect()
}

fn utf8_segments(input: &str) -> Vec<String> {
    EncodedBytes::Utf8Bytes(input)
        .split_commas()
        .iter()
        .map(|seg| match seg {
            EncodedBytes::Utf8Bytes(s) => s.to_string(),
            EncodedBytes::Latin1Bytes(_) => panic!("utf-8 input split into latin-1 segments"),
        })
        .collect()
}

#[test]
fn test_char_conversions() {
    assert_eq!(char_to_latin1_u8(','), 44);
    assert_eq!(char_to_latin1_u8('A'), 65);
    assert_eq!(latin1_u8_to_char(44), ',');
    assert_eq!(latin1_u8_to_char(0), '\0');
    assert_eq!(latin1_u8_to_char(127), '\u{7f}');
}

#[test]
fn test_split_commas_latin1() {
    assert_eq!(
        latin1_segments(b"ab,c"),
        vec![b"ab".to_vec(), b"c".to_vec()]
    );
    assert_eq!(
        latin1_segments(b"a,,b"),
        vec![b"a".to_vec(), Vec::new(), b"b".to_vec()]
    );
    assert_eq!(latin1_segments(b""), vec![Vec::new()]);
    assert_eq!(latin1_segments(b"abc"), vec![b"abc".to_vec()]);
    assert_eq!(latin1_segments(b","), vec![Vec::new(), Vec::new()]);
}

#[test]
fn test_split_commas_utf8() {
    assert_eq!(utf8_segments("ab,c"), vec!["ab", "c"]);
    assert_eq!(utf8_segments(""), vec![""]);
    assert_eq!(utf8_segments("no commas"), vec!["no commas"]);
    // Multi-byte characters around the separators stay intact.
    assert_eq!(utf8_segments("\u{e9},\u{df}\u{4e16},x"), vec!["\u{e9}", "\u{df}\u{4e16}", "x"]);
    // The split agrees with the standard library's.
    let sample = "k\u{e9}y,,v\u{2603}lue,";
    let expected: Vec<String> = sample.split(',').map(|s| s.to_string()).collect();
    assert_eq!(utf8_segments(sample), expected);
}

#[test]
fn test_eq_str() {
    assert!(EncodedBytes::Utf8Bytes("abc").eq_str("abc"));
    assert!(!EncodedBytes::Utf8Bytes("abc").eq_str("abd"));
    assert!(!EncodedBytes::Utf8Bytes("abc").eq_str("ab"));
    assert!(EncodedBytes::Utf8Bytes("k\u{e9}y").eq_str("k\u{e9}y"));
    assert!(EncodedBytes::Latin1Bytes(b"abc").eq_str("abc"));
    assert!(!EncodedBytes::Latin1Bytes(b"abc").eq_str("abd"));
    assert!(EncodedBytes::Latin1Bytes(b"").eq_str(""));
    // A Latin-1 byte above 127 is encoded differently in UTF-8.
    assert!(!EncodedBytes::Latin1Bytes(&[0xe9]).eq_str("\u{e9}"));
}

#[test]
fn test_char_indices_latin1() {
    let pairs = EncodedBytes::Latin1Bytes(b"ab,").char_indices();
    assert_eq!(pairs, vec![(0, 'a'), (1, 'b'), (2, ',')]);
    assert!(EncodedBytes::Latin1Bytes(b"").char_indices().is_empty());
}

#[test]
fn test_char_indices_utf8() {
    let sample = "a\u{e9}\u{4e16}z";
    let pairs = EncodedBytes::Utf8Bytes(sample).char_indices();
    // The positions are byte positions, exactly as the standard library
    // reports them.
    let expected: Vec<(usize, char)> = sample.char_indices().collect();
    assert_eq!(pairs, expected);
    assert_eq!(pairs, vec![(0, 'a'), (1, '\u{e9}'), (3, '\u{4e16}'), (6, 'z')]);
}
