use textcodec::{hex_check, map_collect, rand_bytes};

#[test]
fn hex_digits() {
    assert!(hex_check(b""));
    assert!(hex_check(b"0123456789abcdefABCDEF"));
    assert!(!hex_check(b"12g4"));
    assert!(!hex_check(b"/"));
    assert!(!hex_check(b":"));
}

#[test]
fn random_bytes_have_requested_length() {
    assert_eq!(rand_bytes(0).len(), 0);
    assert_eq!(rand_bytes(37).len(), 37);
}

#[test]
fn map_collect_keeps_order() {
    let v: Vec<usize> = map_collect(vec![1usize, 2, 3], |x: usize| x * 10);
    assert_eq!(v, vec![10, 20, 30]);
    let lens: Vec<usize> = map_collect(vec![3usize, 0], |n: usize| rand_bytes(n).len());
    assert_eq!(lens, vec![3, 0]);
}
