use document_file::braille::{braille_fmt, braille_fmt2};
use document_file::mask::Mask;

fn bits(v: &[u8]) -> Mask {
    let b: Vec<bool> = v.iter().map(|b| *b == 1).collect();
    Mask::from_bits(&b)
}

#[test]
fn it_braille_fmt() {
    let v = bits(&[1, 0, 1, 1, 1]);
    assert_eq!(braille_fmt(&v), "⠗");
    let v = bits(&[1, 0, 1, 1, 0, 1, 0, 1, 1, 0, 1, 0, 0, 1, 1]);
    assert_eq!(braille_fmt(&v), "⢕⡝");
}

#[test]
fn it_braille_fmt2() {
    let v = bits(&[1, 1, 1]);
    assert_eq!(braille_fmt2(&v, 1, 3, ""), "⠇");
    let v = bits(&[1, 1, 1]);
    assert_eq!(braille_fmt2(&v, 3, 1, ""), "⠉⠁");
    let v = bits(&[1, 0, 1, 1, 1]);
    assert_eq!(braille_fmt2(&v, 5, 1, ""), "⠁⠉⠁");
    let v = bits(&[1, 0, 1, 1, 0, 1, 0, 1, 1, 0, 1, 0, 0, 1, 1]);
    assert_eq!(braille_fmt2(&v, 15, 1, ""), "⠁⠉⠈⠈⠁⠁⠈⠁");
}

#[test]
fn braille_empty_and_separators() {
    assert_eq!(braille_fmt2(&Mask::from_bits(&[]), 0, 0, "|"), "");
    assert_eq!(braille_fmt2(&Mask::from_bits(&[true; 10]), 2, 5, "|"), "⣿|⠉");
    assert_eq!(braille_fmt2(&Mask::from_bits(&[false; 4]), 2, 2, "|"), "⠀");
}
