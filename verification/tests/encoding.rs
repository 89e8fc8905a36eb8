use nelf::runs::longest_run_of;
use nelf::{NelfIter, ToCell, ToNelf};

fn decode(buffer: &[u8]) -> Vec<Vec<u8>> {
    NelfIter::from_string(buffer)
        .collect()
        .into_iter()
        .map(|cell| cell.to_vec())
        .collect()
}

/// All the strings of at most `max` bytes over `alphabet`.
fn strings(alphabet: &[u8], max: usize) -> Vec<Vec<u8>> {
    let mut all = vec![Vec::new()];
    let mut last = vec![Vec::new()];
    for _ in 0..max {
        let mut next = Vec::new();
        for s in &last {
            for &b in alphabet {
                let mut longer: Vec<u8> = s.clone();
                longer.push(b);
                next.push(longer);
            }
        }
        all.extend(next.iter().cloned());
        last = next;
    }
    all
}

#[test]
fn longest_run_values() {
    assert_eq!(longest_run_of(b"", b'|'), 0);
    assert_eq!(longest_run_of(b"abc", b'|'), 0);
    assert_eq!(longest_run_of(b"|", b'|'), 1);
    assert_eq!(longest_run_of(b"a|b||c|||", b'|'), 3);
    assert_eq!(longest_run_of(b"|||a||b|", b'|'), 3);
    assert_eq!(longest_run_of(b"a//b/", b'/'), 2);
    assert_eq!(longest_run_of(b"a//b/", b'\\'), 0);
}

#[test]
fn empty_string_cell() {
    assert_eq!(b"".to_cell(), b"/\\");
    assert_eq!(Vec::<u8>::new().to_cell(), b"/\\");
    assert_eq!(decode(b"/\\"), vec![Vec::<u8>::new()]);
}

#[test]
fn plain_string_takes_the_pipe() {
    assert_eq!(b"A".to_cell(), b"|A|");
    assert_eq!(b"hello world".to_cell(), b"|hello world|");
}

#[test]
fn inner_pipes_lengthen_or_switch() {
    // One pipe inside: the pipe scheme needs 2, the slashes need 1.
    assert_eq!(b"A|A".to_cell(), b"/A|A\\");
    // A pipe and a backslash inside: `\` opening and `/` closing needs 1.
    assert_eq!(b"A|\\A".to_cell(), b"\\A|\\A/");
    // All three inside: every scheme needs 2, the pipe comes first.
    assert_eq!(b"A|/\\A".to_cell(), b"||A|/\\A||");
    // Runs of 2, 1 and 1: the two slash schemes need 2, the pipe 3.
    assert_eq!(b"A||/\\A".to_cell(), b"//A||/\\A\\\\");
}

#[test]
fn ties_go_to_pipe_then_forward_then_back() {
    assert_eq!(b"x".to_cell(), b"|x|");
    // The pipe is out at the edge; both slash schemes need 1.
    assert_eq!(b"|x".to_cell(), b"/|x\\");
    // The pipe is out at the edge; `/` opening would need 2, `\` opening 1.
    assert_eq!(b"|\\x".to_cell(), b"\\|\\x/");
    // The pipe needs 2, both slash schemes need 1.
    assert_eq!(b"x|x".to_cell(), b"/x|x\\");
}

#[test]
fn edge_bytes_rule_schemes_out() {
    // Begins with `/`: not opened by `/`. Ends with `/`: not closed by `/`.
    assert_eq!(b"/x".to_cell(), b"|/x|");
    assert_eq!(b"x/".to_cell(), b"|x/|");
    assert_eq!(b"|x/".to_cell(), b"/|x/\\");
    assert_eq!(b"|x\\".to_cell(), b"\\|x\\/");
    assert_eq!(b"/x|".to_cell(), b"\\\\/x|//");
    assert_eq!(b"\\x|".to_cell(), b"//\\x|\\\\");
}

#[test]
fn run_is_one_more_than_the_longest_inner_run() {
    for s in strings(b"|/\\A", 5) {
        let cell = s.as_slice().to_cell();
        let open = cell[0];
        let close = match open {
            b'|' => b'|',
            b'/' => b'\\',
            _ => b'/',
        };
        let run = (cell.len() - s.len()) / 2;
        assert_eq!(cell.len(), s.len() + 2 * run);
        assert!(cell[..run].iter().all(|&b| b == open));
        assert_eq!(&cell[run..run + s.len()], s.as_slice());
        assert!(cell[run + s.len()..].iter().all(|&b| b == close));
        assert_eq!(run, longest_run_of(&s, close) + 1);
        if !s.is_empty() {
            assert_ne!(s[0], open);
            assert_ne!(s[s.len() - 1], close);
        }
    }
}

#[test]
fn no_eligible_scheme_is_cheaper() {
    for s in strings(b"|/\\A", 5) {
        if s.is_empty() {
            continue;
        }
        let cell = s.as_slice().to_cell();
        let run = (cell.len() - s.len()) / 2;
        let order = [(b'|', b'|'), (b'/', b'\\'), (b'\\', b'/')];
        let chosen = order.iter().position(|&(open, _)| open == cell[0]).unwrap();
        for (rank, &(open, close)) in order.iter().enumerate() {
            if s[0] != open && s[s.len() - 1] != close {
                let needed = longest_run_of(&s, close) + 1;
                assert!(run <= needed);
                if run == needed {
                    assert!(chosen <= rank);
                }
            }
        }
    }
}

#[test]
fn shorter_run_is_misread() {
    // `A|A` framed by single pipes reads as `A`.
    assert_eq!(decode(b"|A|A|"), vec![b"A".to_vec()]);
    // `/|` framed by one `\` and one `/` closes at once.
    assert_eq!(decode(b"\\/|/"), vec![b"".to_vec(), b"/".to_vec()]);
    // With the run it needs, each is read back.
    assert_eq!(decode(b"||A|A||"), vec![b"A|A".to_vec()]);
    assert_eq!(decode(b"\\\\/|//"), vec![b"/|".to_vec()]);
}

#[test]
fn round_trip_of_short_strings() {
    for s in strings(b"|/\\A", 6) {
        let cell = s.as_slice().to_cell();
        assert_eq!(decode(&cell), vec![s]);
    }
}

#[test]
fn round_trip_of_every_single_byte() {
    for b in 0..=255u8 {
        assert_eq!(decode(&[b].to_cell()), vec![vec![b]]);
        assert_eq!(decode(&[b, b].to_cell()), vec![vec![b, b]]);
    }
}

#[test]
fn encoding_twice_gives_the_same_bytes() {
    for s in strings(b"|/\\A", 4) {
        assert_eq!(s.as_slice().to_cell(), s.as_slice().to_cell());
        assert_eq!(s.clone().to_cell(), s.as_slice().to_cell());
    }
}

#[test]
fn list_round_trip_of_short_lists() {
    let items = strings(b"|/\\A", 2);
    for a in &items {
        for b in &items {
            for c in &items {
                let list = vec![a.clone(), b.clone(), c.clone()];
                let encoded = list.clone().to_nelf();
                assert_eq!(decode(&encoded), list);
            }
        }
    }
}

#[test]
fn list_is_the_cells_one_after_the_other() {
    let list = [b"A".to_vec(), b"".to_vec(), b"|".to_vec(), b"/|".to_vec()];
    assert_eq!(list.clone().to_nelf(), b"|A|/\\/|\\\\\\/|//");
    let mut expected = Vec::new();
    for s in &list {
        expected.extend(s.to_cell());
    }
    assert_eq!(list.to_nelf(), expected);
}

#[test]
fn empty_list_is_empty() {
    let none: [Vec<u8>; 0] = [];
    assert_eq!(none.to_nelf(), b"");
    assert_eq!(Vec::<Vec<u8>>::new().to_nelf(), b"");
    assert!(decode(b"").is_empty());
}

#[test]
fn every_byte_container_is_a_cell() {
    let vec = b"/|".to_vec();
    let array: [u8; 2] = *b"/|";
    let expected = b"\\\\/|//";
    assert_eq!((&vec[..]).to_cell(), expected);
    assert_eq!((&vec).to_cell(), expected);
    assert_eq!((&array).to_cell(), expected);
    assert_eq!(array.to_cell(), expected);
    assert_eq!(vec.to_cell(), expected);
}

#[test]
fn as_bytes_borrows_the_string() {
    let vec = b"abc".to_vec();
    let array: [u8; 3] = *b"abc";
    assert_eq!((&vec[..]).as_bytes(), b"abc");
    assert_eq!(ToCell::as_bytes(&&vec), b"abc");
    assert_eq!(ToCell::as_bytes(&&array), b"abc");
    assert_eq!(ToCell::as_bytes(&array), b"abc");
    assert_eq!(ToCell::as_bytes(&vec), b"abc");
}

#[test]
fn every_container_is_a_list() {
    let expected = b"|a|/|\\";
    let array = [b"a".to_vec(), b"|".to_vec()];
    let vec = array.to_vec();
    assert_eq!((&array).to_nelf(), expected);
    assert_eq!((&vec).to_nelf(), expected);
    assert_eq!((&vec[..]).to_nelf(), expected);
    assert_eq!(vec.to_nelf(), expected);
    assert_eq!(array.to_nelf(), expected);
    assert_eq!([&b"a"[..], &b"|"[..]].to_nelf(), expected);
    assert_eq!(vec![b"a", b"|"].to_nelf(), expected);
}

#[test]
fn nested_lists_are_read_back() {
    let inner = vec![b"x|y".to_vec(), b"".to_vec(), b"\\/".to_vec()];
    let outer = vec![inner.clone().to_nelf()];
    let encoded = outer.clone().to_nelf();
    let once = decode(&encoded);
    assert_eq!(once, outer);
    assert_eq!(decode(&once[0]), inner);
}
