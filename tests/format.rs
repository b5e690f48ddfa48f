use word_puzzle::count::CountSet;
use word_puzzle::dict::Dictionary;
use word_puzzle::format::{read_dict, write_dict, ReadError};
use word_puzzle::search::search;

fn dictionary(words: &[&str]) -> Dictionary {
    let mut dict = Dictionary::new();
    for w in words {
        dict.add(w).unwrap();
    }
    dict
}

#[test]
fn layout_of_one_word() {
    let dict = dictionary(&["ab"]);
    let bytes = write_dict(&dict);
    let mut expected = b"DICT".to_vec();
    expected.extend_from_slice(&1u32.to_le_bytes());
    expected.extend_from_slice(&1u64.to_le_bytes());
    expected.extend_from_slice(&2u64.to_le_bytes());
    expected.extend_from_slice(b"ab");
    expected.extend_from_slice(&0u64.to_le_bytes());
    expected.extend_from_slice(&2u64.to_le_bytes());
    expected.push(0x11);
    expected.extend_from_slice(&[0u8; 12]);
    assert_eq!(bytes, expected);
    assert_eq!(bytes.len(), 24 + 2 + 29);
}

#[test]
fn round_trip_keeps_words_and_counts() {
    let dict = dictionary(&["hello", "world", "held", "zebra"]);
    let bytes = write_dict(&dict);
    let back = read_dict(&bytes).unwrap();
    assert_eq!(back.word_string(), dict.word_string());
    assert_eq!(back.len(), dict.len());
    assert_eq!(back.word_count(), dict.word_count());
    assert_eq!(
        search(&back, "helload", 3, None).unwrap(),
        vec!["held".to_string(), "hello".to_string()]
    );
    assert_eq!(write_dict(&back), bytes);
}

#[test]
fn reload_forgets_seen_words() {
    let dict = dictionary(&["echo"]);
    let mut back = read_dict(&write_dict(&dict)).unwrap();
    back.add("echo").unwrap();
    assert_eq!(back.len(), 2);
    back.add("echo").unwrap();
    assert_eq!(back.len(), 2);
}

#[test]
fn empty_round_trip() {
    let dict = Dictionary::new();
    let bytes = write_dict(&dict);
    assert_eq!(bytes.len(), 24);
    let back = read_dict(&bytes).unwrap();
    assert_eq!(back.len(), 0);
}

fn is_format_error(r: Result<Dictionary, ReadError>) -> bool {
    match r {
        Err(e) => e.is_format_error(),
        Ok(_) => false,
    }
}

#[test]
fn bad_magic_and_version() {
    let good = write_dict(&dictionary(&["word"]));
    let mut bad = good.clone();
    bad[0] = b'X';
    assert!(is_format_error(read_dict(&bad)));
    let mut bad = good.clone();
    bad[4] = 2;
    assert!(is_format_error(read_dict(&bad)));
    assert!(is_format_error(read_dict(&good[..10])));
}

#[test]
fn truncated_text_or_records() {
    let good = write_dict(&dictionary(&["word", "other"]));
    for cut in [24, 25, 24 + 9, good.len() - 1] {
        assert!(is_format_error(read_dict(&good[..cut])));
    }
    assert!(read_dict(&good).is_ok());
}

#[test]
fn span_outside_text_is_rejected() {
    let mut bytes = write_dict(&dictionary(&["word"]));
    let record = 24 + 4;
    bytes[record + 8..record + 16].copy_from_slice(&9u64.to_le_bytes());
    assert!(is_format_error(read_dict(&bytes)));
}

#[test]
fn text_must_be_utf8() {
    let mut bytes = write_dict(&dictionary(&["word"]));
    bytes[24] = 0xFF;
    assert!(is_format_error(read_dict(&bytes)));
}

#[test]
fn packed_counts_are_read_back() {
    let mut bytes = write_dict(&dictionary(&["word"]));
    let back = read_dict(&bytes).unwrap();
    assert_eq!(back.word_count()[0].1, CountSet::from_word("word").unwrap());
    bytes.push(7);
    assert!(read_dict(&bytes).is_ok());
}
