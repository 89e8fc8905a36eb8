use nelf::{NelfIter, ToCell};

#[test]
fn nelf_iter_1() {
    assert_eq!(NelfIter::from_string(b"C|A|C").collect(), [b"A"]);
    assert_eq!(NelfIter::from_string(b"|A|").collect(), [b"A"]);
    assert_eq!(
        NelfIter::from_string(b"C||A||C||B||C").collect(),
        [b"A", b"B"]
    );
}

#[test]
fn nelf_iter_2() {
    assert_eq!(NelfIter::from_string(b"C/A\\C").collect(), [b"A"]);
    assert_eq!(NelfIter::from_string(b"C\\A/C").collect(), [b"A"]);
    assert_eq!(NelfIter::from_string(b"/A\\").collect(), [b"A"]);
    assert_eq!(NelfIter::from_string(b"\\A/").collect(), [b"A"]);
    assert_eq!(
        NelfIter::from_string(b"C//A\\\\C\\\\B//C").collect(),
        [b"A", b"B"]
    );
}

#[test]
fn nelf_iter_3() {
    assert_eq!(NelfIter::from_string(b"123").next(), None);
    assert_eq!(NelfIter::from_string(b"|ABC").collect(), [b"ABC"]);
    assert_eq!(NelfIter::from_string(b"/ABC").collect(), [b"ABC"]);
    assert_eq!(NelfIter::from_string(b"\\ABC").collect(), [b"ABC"]);
}

#[test]
fn nelf_iter_4() {
    assert_eq!(NelfIter::from_string(b"||A|A||").collect(), [b"A|A"]);
    assert_eq!(NelfIter::from_string(b"|A/\\A|").collect(), [b"A/\\A"]);
    assert_eq!(NelfIter::from_string(b"/|\\").collect(), [b"|"]);
    assert_eq!(NelfIter::from_string(b"\\|/").collect(), [b"|"]);
}

#[test]
fn nelf_cell_1() {
    assert_eq!(b"|".to_cell(), b"/|\\");
    assert_eq!(b"/".to_cell(), b"|/|");
    assert_eq!(b"\\".to_cell(), b"|\\|");
    assert_eq!(b"||".to_cell(), b"/||\\");
    assert_eq!(b"//".to_cell(), b"|//|");
    assert_eq!(b"\\\\".to_cell(), b"|\\\\|");
}

#[test]
fn nelf_cell_2() {
    assert_eq!(b"/|".to_cell(), b"\\\\/|//");
    assert_eq!(b"\\|".to_cell(), b"//\\|\\\\");
    assert_eq!(b"|/\\|".to_cell(), b"//|/\\|\\\\");
    assert_eq!(b"/|/".to_cell(), b"||/|/||");
}
