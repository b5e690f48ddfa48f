use word_puzzle::count::{CountError, CountSet};

#[test]
fn sanity_test() {
    let counted_word = CountSet::from_word("hello").unwrap();
    let count_set = CountSet::try_from([
        //  a  b  c  d  e  f  g  h  i  j  k  l  m
        0, 0, 0, 0, 1, 0, 0, 1, 0, 0, 0, 2, 0,
        //  n  o  p  q  r  s  t  u  v  w  x  y  z
        0, 1, 0, 0, 0, 0, 0, 0, 0, 0, 0, 0, 0,
    ])
    .unwrap();
    assert_eq!(counted_word, count_set);

    let counted_word = CountSet::from_word("pneumonultramicroscopicsilicovolcanoconosis").unwrap();
    let count_set = CountSet::try_from([
        //  a  b  c  d  e  f  g  h  i  j  k  l  m
        2, 0, 6, 0, 1, 0, 0, 0, 5, 0, 0, 3, 2,
        //  n  o  p  q  r  s  t  u  v  w  x  y  z
        4, 8, 2, 0, 2, 4, 1, 2, 1, 0, 0, 0, 0,
    ])
    .unwrap();
    assert_eq!(counted_word, count_set);
}

#[test]
fn not_ascii() {
    let error = CountSet::from_word("こんにちは").unwrap_err();
    match error {
        CountError::NotAscii => {}
        _ => panic!("Wrong 'not_ascii' error! {:?}", error),
    }
}

#[test]
fn not_alphabetic() {
    let error = CountSet::from_word("hello world 123 !@#").unwrap_err();
    match error {
        CountError::NotAlphabetic => {}
        _ => panic!("Wrong 'not_alphabetic' error! {:?}", error),
    }
}

#[test]
fn count_overflow() {
    let error = CountSet::from_word("aaaaaaaaaaaaaaaa").unwrap_err();
    match error {
        CountError::CountOverflow => {}
        _ => panic!("Wrong 'count_overflow' error! {:?}", error),
    }
}

#[test]
fn fifteen_of_a_letter_fit() {
    let c = CountSet::from_word("aaaaaaaaaaaaaaa").unwrap();
    assert_eq!(c.decode()[0], 15);
    assert_eq!(c.slice()[0], 15);
    let sixteen = CountSet::from_word("AaaaaaaaaaaaaaaA").unwrap_err();
    assert_eq!(sixteen, CountError::CountOverflow);
}

#[test]
fn non_ascii_wins_over_digit() {
    assert_eq!(CountSet::from_word("ab1é").unwrap_err(), CountError::NotAscii);
    assert_eq!(CountSet::from_word("1é").unwrap_err(), CountError::NotAscii);
    assert_eq!(CountSet::from_word("ab1").unwrap_err(), CountError::NotAlphabetic);
}

#[test]
fn alphabetic_wins_over_overflow() {
    assert_eq!(
        CountSet::from_word("aaaaaaaaaaaaaaaa-").unwrap_err(),
        CountError::NotAlphabetic
    );
}

#[test]
fn single_letters_pack_to_their_nibble() {
    for i in 0..26u8 {
        let upper = [b'A' + i];
        let lower = [b'a' + i];
        for w in [std::str::from_utf8(&upper).unwrap(), std::str::from_utf8(&lower).unwrap()] {
            let counts = CountSet::from_word(w).unwrap().decode();
            for j in 0..26usize {
                assert_eq!(counts[j], if j == i as usize { 1 } else { 0 });
            }
        }
    }
    let b = CountSet::from_word("b").unwrap();
    assert_eq!(b.slice()[0], 0x10);
    let c = CountSet::from_word("c").unwrap();
    assert_eq!(c.slice()[1], 0x01);
}

#[test]
fn empty_word_counts_nothing() {
    let c = CountSet::from_word("").unwrap();
    assert_eq!(c.decode(), [0u8; 26]);
    assert_eq!(c.slice(), &[0u8; 13][..]);
}

#[test]
fn case_is_folded() {
    assert_eq!(CountSet::from_word("HeLLo").unwrap(), CountSet::from_word("hello").unwrap());
}

#[test]
fn contains_is_reflexive_and_not_symmetric() {
    let hello = CountSet::from_word("hello").unwrap();
    let held = CountSet::from_word("held").unwrap();
    let hell = CountSet::from_word("hell").unwrap();
    assert!(hello.contains(&hello));
    assert!(hello.contains(&hell));
    assert!(!hell.contains(&hello));
    assert!(!hello.contains(&held));
    assert!(!held.contains(&hello));
}

#[test]
fn contains_survives_removing_a_letter() {
    let a = CountSet::from_word("letters").unwrap();
    let b = CountSet::from_word("setter").unwrap();
    assert!(a.contains(&b));
    let smaller = CountSet::from_word("sette").unwrap();
    assert!(a.contains(&smaller));
}

#[test]
fn try_from_rejects_sixteen() {
    let mut counts = [0u8; 26];
    counts[25] = 16;
    assert_eq!(CountSet::try_from(counts).unwrap_err(), CountError::CountOverflow);
    counts[25] = 15;
    let c = CountSet::try_from(counts).unwrap();
    assert_eq!(c.slice()[12], 0xF0);
    assert_eq!(c.get(25), 15);
}

#[test]
fn iterator_walks_all_letters() {
    let c = CountSet::from_word("zebra").unwrap();
    let mut it = c.iter();
    assert_eq!(it.size_hint(), (26, Some(26)));
    let mut seen = Vec::new();
    while let Some(v) = it.next() {
        seen.push(v);
    }
    assert_eq!(seen.len(), 26);
    assert_eq!(seen[0], 1);
    assert_eq!(seen[1], 1);
    assert_eq!(seen[4], 1);
    assert_eq!(seen[17], 1);
    assert_eq!(seen[25], 1);
    assert_eq!(it.size_hint(), (0, Some(0)));
    assert_eq!(it.next(), None);
}

#[test]
fn packed_bytes_round_trip() {
    let c = CountSet::from_word("puzzle").unwrap();
    let mut packed = [0u8; 13];
    packed.copy_from_slice(c.slice());
    assert_eq!(CountSet::from_packed(packed), c);
}

#[test]
fn error_messages() {
    assert_eq!(CountError::NotAscii.message(), "String contains non-ASCII characters");
    assert_eq!(
        CountError::CountOverflow.message(),
        "Letter counter exceeded the count limit"
    );
}
