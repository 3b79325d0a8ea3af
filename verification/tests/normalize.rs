use letter_boxed::{has_repeating_letters, make_word, no_spaces, valid_word};

fn mask(letters: &[u8]) -> u32 {
    let mut m = 0u32;
    for &c in letters {
        m |= 1u32 << ((c - 65) as u32);
    }
    m
}

#[test]
fn make_word_mixed_input() {
    let w = make_word(b"a1b!C").expect("input has letters");
    assert_eq!(w.strip, b"ABC".to_vec());
    assert_eq!(w.start, b'A');
    assert_eq!(w.end, b'C');
    assert_eq!(w.mask, mask(b"ABC"));
}

#[test]
fn make_word_no_letters_is_none() {
    assert!(make_word(b"").is_none());
    assert!(make_word(b"123!?").is_none());
    assert!(make_word(b"   ").is_none());
}

#[test]
fn make_word_canonical_is_upper_and_no_longer() {
    let raw = b"Hello, World!";
    let w = make_word(raw).expect("input has letters");
    assert_eq!(w.strip, b"HELLOWORLD".to_vec());
    assert!(w.strip.len() <= raw.len());
    assert!(w.strip.iter().all(|&c| (b'A'..=b'Z').contains(&c)));
}

#[test]
fn mask_is_case_insensitive() {
    let lower = make_word(b"abc").expect("input has letters");
    let upper = make_word(b"ABC").expect("input has letters");
    assert_eq!(lower.mask, upper.mask);
    assert_eq!(lower.strip, upper.strip);
}

#[test]
fn mask_collapses_duplicates() {
    let w = make_word(b"AAA").expect("input has letters");
    assert_eq!(w.strip, b"AAA".to_vec());
    assert_eq!(w.mask, 1);
    assert_eq!(w.start, b'A');
    assert_eq!(w.end, b'A');
}

#[test]
fn repeating_letters_detected() {
    let w = make_word(b"ABCA").expect("input has letters");
    assert!(has_repeating_letters(&w));
    let v = make_word(b"ABC").expect("input has letters");
    assert!(!has_repeating_letters(&v));
}

#[test]
fn raw_prefilter() {
    assert!(!valid_word(b"ab"));
    assert!(!valid_word(b"a bc"));
    assert!(valid_word(b"abc"));
    assert!(no_spaces(b"abc"));
    assert!(!no_spaces(b"a c"));
    assert!(no_spaces(b""));
}
