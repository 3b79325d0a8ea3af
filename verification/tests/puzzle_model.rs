use letter_boxed::{build_puzzle, get_side, no_repeated_sides, PuzzleError};

fn mask(letters: &[u8]) -> u32 {
    let mut m = 0u32;
    for &c in letters {
        m |= 1u32 << ((c - 65) as u32);
    }
    m
}

#[test]
fn two_sides_rejected() {
    let r = build_puzzle(b"AB,CD");
    assert!(matches!(r, Err(PuzzleError::TooFewSides)));
}

#[test]
fn duplicate_letter_rejected() {
    let r = build_puzzle(b"ABC,CDE,FGH");
    assert!(matches!(r, Err(PuzzleError::RepeatingLetter)));
}

#[test]
fn empty_side_rejected() {
    let r = build_puzzle(b"AB,,CD");
    assert!(matches!(r, Err(PuzzleError::InvalidWord)));
}

#[test]
fn no_letters_rejected() {
    let r = build_puzzle(b"12,34,56");
    assert!(matches!(r, Err(PuzzleError::InvalidWord)));
}

#[test]
fn four_sides_accepted() {
    let p = build_puzzle(b"AKZ,JTI,PCD,ORE").expect("well-formed puzzle");
    assert_eq!(p.sides.len(), 4);
    assert_eq!(p.sides[0].strip, b"AKZ".to_vec());
    assert_eq!(p.sides[3].strip, b"ORE".to_vec());
    assert_eq!(p.whole.strip, b"AKZJTIPCDORE".to_vec());
    assert_eq!(p.whole.mask, mask(b"AKZJTIPCDORE"));
}

#[test]
fn puzzle_is_case_insensitive() {
    let upper = build_puzzle(b"AKZ,JTI,PCD,ORE").expect("well-formed puzzle");
    let lower = build_puzzle(b"akz,jti,pcd,ore").expect("well-formed puzzle");
    assert_eq!(upper.whole.mask, lower.whole.mask);
    assert_eq!(upper.whole.strip, lower.whole.strip);
}

#[test]
fn side_lookup() {
    let p = build_puzzle(b"AKZ,JTI,PCD,ORE").expect("well-formed puzzle");
    assert_eq!(get_side(&b'Z', &p.sides), 0);
    assert_eq!(get_side(&b'T', &p.sides), 1);
    assert_eq!(get_side(&b'D', &p.sides), 2);
    assert_eq!(get_side(&b'E', &p.sides), 3);
    assert_eq!(get_side(&b'Q', &p.sides), -1);
}

#[test]
fn adjacent_same_side_rejected() {
    let p = build_puzzle(b"AKZ,JTI,PCD,ORE").expect("well-formed puzzle");
    assert!(no_repeated_sides(b"ZIP", &p.sides));
    // O and R sit on the same side.
    assert!(!no_repeated_sides(b"PORK", &p.sides));
    // K and A sit on the same side.
    assert!(!no_repeated_sides(b"KATE", &p.sides));
    // A first letter on no side clashes with the initial sentinel.
    assert!(!no_repeated_sides(b"QAT", &p.sides));
    assert!(no_repeated_sides(b"", &p.sides));
}
