use webhook_bridge::base64::{decode, encode};

fn text(bytes: &[u8]) -> String {
    String::from_utf8(encode(bytes)).unwrap()
}

#[test]
fn encodes_the_empty_input_as_nothing() {
    assert_eq!(encode(b""), Vec::<u8>::new());
    assert_eq!(decode(b""), Some(Vec::new()));
}

#[test]
fn encodes_the_standard_vectors() {
    assert_eq!(text(b"f"), "Zg==");
    assert_eq!(text(b"fo"), "Zm8=");
    assert_eq!(text(b"foo"), "Zm9v");
    assert_eq!(text(b"foob"), "Zm9vYg==");
    assert_eq!(text(b"fooba"), "Zm9vYmE=");
    assert_eq!(text(b"foobar"), "Zm9vYmFy");
}

#[test]
fn encodes_with_every_part_of_the_alphabet() {
    assert_eq!(text(&[0xff, 0xfe]), "//4=");
    assert_eq!(text(&[0xfb, 0xff, 0xbf]), "+/+/");
    assert_eq!(text(&[0x00, 0x00, 0x00]), "AAAA");
    assert_eq!(text(&[0x69, 0xb7, 0x1d, 0x79, 0xf8, 0x21]), "abcdefgh");
    assert_eq!(text(&[0xd3, 0x5d, 0xb7, 0xe3, 0x9e, 0xbb, 0xf3, 0xdf, 0xbf]), "0123456789+/");
}

#[test]
fn decodes_the_standard_vectors() {
    assert_eq!(decode(b"Zg=="), Some(b"f".to_vec()));
    assert_eq!(decode(b"Zm8="), Some(b"fo".to_vec()));
    assert_eq!(decode(b"Zm9v"), Some(b"foo".to_vec()));
    assert_eq!(decode(b"Zm9vYmFy"), Some(b"foobar".to_vec()));
    assert_eq!(decode(b"//4="), Some(vec![0xff, 0xfe]));
}

#[test]
fn refuses_text_that_is_no_encoding() {
    // not whole groups
    assert_eq!(decode(b"Zg="), None);
    assert_eq!(decode(b"Z"), None);
    // outside the alphabet
    assert_eq!(decode(b"Zm9!"), None);
    assert_eq!(decode(b"Zm 9"), None);
    assert_eq!(decode(&[0x5a, 0x6d, 0x39, 0xff]), None);
    // padding in the middle or too much of it
    assert_eq!(decode(b"Zg==Zg=="), None);
    assert_eq!(decode(b"Z==="), None);
    assert_eq!(decode(b"===="), None);
    assert_eq!(decode(b"Zm=v"), None);
    // bits set that the padding cuts off
    assert_eq!(decode(b"Zh=="), None);
    assert_eq!(decode(b"Zm9="), None);
}

#[test]
fn decoding_gives_back_every_short_input() {
    for a in 0..=255u8 {
        assert_eq!(decode(&encode(&[a])), Some(vec![a]));
        for b in [0u8, 1, 63, 64, 127, 128, 254, 255] {
            assert_eq!(decode(&encode(&[a, b])), Some(vec![a, b]));
            assert_eq!(decode(&encode(&[b, a, b])), Some(vec![b, a, b]));
            assert_eq!(decode(&encode(&[a, b, a, b])), Some(vec![a, b, a, b]));
        }
    }
}

#[test]
fn the_encoding_has_four_symbols_for_every_three_bytes() {
    for n in 0..40usize {
        let data: Vec<u8> = (0..n).map(|i| (i * 37 % 256) as u8).collect();
        let symbols = encode(&data);
        assert_eq!(symbols.len(), 4 * ((n + 2) / 3));
        assert!(symbols.iter().all(|c| c.is_ascii_alphanumeric() || b"+/=".contains(c)));
        assert_eq!(decode(&symbols), Some(data));
    }
}
