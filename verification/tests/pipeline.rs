use letter_boxed::{build_puzzle, filter_words, solve, Solution};

fn lines(words: &[&[u8]]) -> Vec<Vec<u8>> {
    words.iter().map(|w| w.to_vec()).collect()
}

#[test]
fn scenario_akz_puzzle() {
    let p = build_puzzle(b"AKZ,JTI,PCD,ORE").expect("well-formed puzzle");
    let dict = lines(&[b"ZIP", b"PORK", b"KATE"]);
    let words = filter_words(&dict, &p);
    // PORK walks O then R on one side, KATE walks K then A on one side:
    // only ZIP survives.
    assert_eq!(words.len(), 1);
    assert_eq!(words[0].strip, b"ZIP".to_vec());
    // ZIP cannot chain with itself (P != Z), so no pair is reported.
    let sols = solve(&words, p.whole.mask);
    assert_eq!(sols, Vec::<Solution>::new());
}

#[test]
fn short_or_spaced_lines_never_admitted() {
    let p = build_puzzle(b"AKZ,JTI,PCD,ORE").expect("well-formed puzzle");
    // "AK" is too short; "Z IP" holds a space; both would otherwise pass.
    let dict = lines(&[b"AK", b"Z IP", b"ZIP"]);
    let words = filter_words(&dict, &p);
    assert_eq!(words.len(), 1);
    assert_eq!(words[0].strip, b"ZIP".to_vec());
}

#[test]
fn noise_lines_are_skipped_not_fatal() {
    let p = build_puzzle(b"AKZ,JTI,PCD,ORE").expect("well-formed puzzle");
    let dict = lines(&[b"!!!!", b"1234", b"ZIP"]);
    let words = filter_words(&dict, &p);
    assert_eq!(words.len(), 1);
    assert_eq!(words[0].strip, b"ZIP".to_vec());
}

#[test]
fn letters_outside_puzzle_rejected() {
    let p = build_puzzle(b"AKZ,JTI,PCD,ORE").expect("well-formed puzzle");
    let dict = lines(&[b"ZIPS"]);
    let words = filter_words(&dict, &p);
    assert_eq!(words.len(), 0);
}

#[test]
fn duplicate_entries_kept() {
    let p = build_puzzle(b"AKZ,JTI,PCD,ORE").expect("well-formed puzzle");
    let dict = lines(&[b"ZIP", b"ZIP"]);
    let words = filter_words(&dict, &p);
    assert_eq!(words.len(), 2);
}

#[test]
fn two_word_solution_found() {
    let p = build_puzzle(b"AD,BE,CF").expect("well-formed puzzle");
    let dict = lines(&[b"ECAB", b"BDF"]);
    let words = filter_words(&dict, &p);
    assert_eq!(words.len(), 2);
    let sols = solve(&words, p.whole.mask);
    assert_eq!(sols, vec![Solution { w1: 0, w2: 1 }]);
}

#[test]
fn self_pair_permitted() {
    let p = build_puzzle(b"AD,BE,CF").expect("well-formed puzzle");
    // One word that covers every letter and ends where it starts.
    let dict = lines(&[b"ABCDEFA"]);
    let words = filter_words(&dict, &p);
    assert_eq!(words.len(), 1);
    let sols = solve(&words, p.whole.mask);
    assert_eq!(sols, vec![Solution { w1: 0, w2: 0 }]);
}

#[test]
fn pairs_in_nested_order_without_dedup() {
    let p = build_puzzle(b"AD,BE,CF").expect("well-formed puzzle");
    let dict = lines(&[b"ECAB", b"BDF", b"BDF"]);
    let words = filter_words(&dict, &p);
    assert_eq!(words.len(), 3);
    let sols = solve(&words, p.whole.mask);
    assert_eq!(
        sols,
        vec![Solution { w1: 0, w2: 1 }, Solution { w1: 0, w2: 2 }]
    );
}

#[test]
fn rerun_gives_identical_output() {
    let dict = lines(&[b"ECAB", b"BDF", b"zzz", b"ABCDEFA"]);
    let p1 = build_puzzle(b"AD,BE,CF").expect("well-formed puzzle");
    let w1 = filter_words(&dict, &p1);
    let s1 = solve(&w1, p1.whole.mask);
    let p2 = build_puzzle(b"AD,BE,CF").expect("well-formed puzzle");
    let w2 = filter_words(&dict, &p2);
    let s2 = solve(&w2, p2.whole.mask);
    let strips1: Vec<Vec<u8>> = w1.iter().map(|w| w.strip.clone()).collect();
    let strips2: Vec<Vec<u8>> = w2.iter().map(|w| w.strip.clone()).collect();
    assert_eq!(strips1, strips2);
    assert_eq!(s1, s2);
}
