use velox_server::serv::{end_of_input, Reader, Serv};
use velox_server::wire::{Cause, ErrorKind};

#[test]
fn numbers_travel_in_network_order() {
    let mut w = Vec::new();
    assert_eq!(0x0102_0304_0506_0708u64.send(&mut w), Ok(()));
    assert_eq!(w, vec![1, 2, 3, 4, 5, 6, 7, 8]);
    assert_eq!(258usize.send(&mut w), Ok(()));
    assert_eq!(w[8..], [0, 0, 0, 0, 0, 0, 1, 2]);
}

#[test]
fn numbers_are_read_back() {
    let mut r = Reader::new(vec![0, 0, 0, 0, 0, 0, 1, 0, 0xff, 0, 0, 0, 0, 0, 0, 7, 9]);
    assert_eq!(u64::receive(&mut r), Ok(256));
    assert_eq!(r.pos, 8);
    assert_eq!(u64::receive(&mut r), Ok(0xff00_0000_0000_0007));
    assert_eq!(r.pos, 16);
    assert_eq!(u64::receive(&mut r), Err(end_of_input()));
}

#[test]
fn end_of_input_is_an_unexpected_end() {
    let e = end_of_input();
    assert_eq!(e.kind, ErrorKind::UnexpectedEof);
    assert_eq!(e.cause, Cause::UnexpectedEnd);
    let mut r = Reader::new(vec![1, 2, 3]);
    assert_eq!(usize::receive(&mut r), Err(e));
}

#[test]
fn lists_round_trip() {
    let list: Vec<u64> = vec![1, 0, u64::MAX, 42];
    let mut w = Vec::new();
    assert_eq!(list.send(&mut w), Ok(()));
    assert_eq!(w.len(), 8 + 4 * 8);
    assert_eq!(w[..8], [0, 0, 0, 0, 0, 0, 0, 4]);
    let mut r = Reader::new(w);
    assert_eq!(Vec::<u64>::receive(&mut r), Ok(list));
    assert_eq!(r.pos, 40);
}

#[test]
fn nested_lists_round_trip() {
    let list: Vec<Vec<usize>> = vec![vec![], vec![3, 4], vec![5]];
    let mut w = Vec::new();
    list.send(&mut w).unwrap();
    let mut r = Reader::new(w);
    assert_eq!(Vec::<Vec<usize>>::receive(&mut r), Ok(list));
}

#[test]
fn a_list_that_ends_early_is_an_error() {
    let mut w = Vec::new();
    vec![1u64, 2, 3].send(&mut w).unwrap();
    w.truncate(8 + 2 * 8 + 3);
    let mut r = Reader::new(w);
    assert_eq!(Vec::<u64>::receive(&mut r), Err(end_of_input()));
    let mut r = Reader::new(vec![0xff; 8]);
    assert_eq!(Vec::<u64>::receive(&mut r), Err(end_of_input()));
}

#[test]
fn strings_round_trip() {
    let s = String::from("héllo, wörld");
    let mut w = Vec::new();
    assert_eq!(s.send(&mut w), Ok(()));
    assert_eq!(w.len(), 8 + s.len());
    assert_eq!(w[7], s.len() as u8);
    assert_eq!(&w[8..], s.as_bytes());
    let mut r = Reader::new(w);
    assert_eq!(String::receive(&mut r), Ok(s));
}

#[test]
fn strings_are_read_leniently() {
    let mut r = Reader::new(vec![0, 0, 0, 0, 0, 0, 0, 3, b'a', 0xff, b'b', b'c']);
    assert_eq!(String::receive(&mut r), Ok(String::from("a\u{fffd}b")));
    assert_eq!(r.pos, 11);
    let mut r = Reader::new(vec![0, 0, 0, 0, 0, 0, 0, 5, b'a', b'b']);
    assert_eq!(String::receive(&mut r), Err(end_of_input()));
}
