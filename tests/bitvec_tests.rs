use los::bitmat::BitMat;
use los::bitvec::{BitVec, WORDSIZE};

#[test]
fn it_works() {
    let mut vec = BitVec::new();
    vec.push(true);
    assert_eq!(vec.get(0), true);
    vec.set(0, false);
    assert_eq!(vec.pop(), Some(false));
    assert_eq!(vec.len(), 0);

    let mut mat = BitMat::with_size(10, 10);
    mat.rows_mut()[0].set(0, true);
    assert_eq!(mat.rows()[0].get(0), true);
}

#[test]
fn new_vector_is_empty() {
    let vec = BitVec::new();
    assert_eq!(vec.len(), 0);
    assert_eq!(vec.capacity(), 0);
    assert_eq!(vec.stringify(), "");
}

#[test]
fn with_capacity_rounds_up_to_words() {
    let mut vec = BitVec::with_capacity(WORDSIZE);
    assert_eq!(vec.len(), 0);
    assert_eq!(vec.capacity(), WORDSIZE);
    for _ in 0..WORDSIZE {
        vec.push(true);
    }
    assert_eq!(vec.len(), WORDSIZE);
    assert_eq!(vec.capacity(), WORDSIZE);
    vec.push(true);
    assert_eq!(vec.len(), WORDSIZE + 1);
    assert_eq!(vec.capacity(), WORDSIZE * 2);
    assert_eq!(BitVec::with_capacity(10).capacity(), WORDSIZE);
}

#[test]
fn with_length_is_all_false() {
    let vec = BitVec::with_length(WORDSIZE);
    assert_eq!(vec.len(), WORDSIZE);
    assert_eq!(vec.capacity(), WORDSIZE);
    assert_eq!(vec.count_ones(), 0);
    let short = BitVec::with_length(3);
    assert_eq!(short.stringify(), "000");
}

#[test]
fn set_then_get_across_words() {
    let mut vec = BitVec::with_length(130);
    for &i in &[0usize, 1, 63, 64, 65, 127, 128, 129] {
        vec.set(i, true);
        assert_eq!(vec.get(i), true);
        vec.set(i, false);
        assert_eq!(vec.get(i), false);
    }
    vec.set(64, true);
    assert_eq!(vec.get(63), false);
    assert_eq!(vec.get(65), false);
    assert_eq!(vec.count_ones(), 1);
}

#[test]
fn text_round_trip() {
    for s in &["", "0", "1", "0110", "0011", "1111111111111111111111111111111111111111111111111111111111111111101"] {
        assert_eq!(BitVec::from(s).stringify(), *s);
    }
    let vec = BitVec::from("0110");
    assert_eq!(vec.len(), 4);
    assert_eq!(vec.get(0), false);
    assert_eq!(vec.get(1), true);
}

#[test]
fn other_characters_read_as_false() {
    let vec = BitVec::from("a1b2 1");
    assert_eq!(vec.stringify(), "010001");
}

#[test]
fn setall_then_count() {
    let mut vec = BitVec::new();
    vec.resize(100);
    vec.setall(true);
    assert_eq!(vec.count_ones(), 100);
    vec.setall(false);
    assert_eq!(vec.count_ones(), 0);
    for &n in &[0usize, 1, 63, 64, 65, 128] {
        let mut v = BitVec::with_length(n);
        v.setall(true);
        assert_eq!(v.count_ones(), n);
        v.setall(false);
        assert_eq!(v.count_ones(), 0);
    }
}

#[test]
fn xor_flips_only_when_true() {
    let mut vec = BitVec::new();
    vec.push(true);
    vec.xor(0, true);
    assert_eq!(vec.pop(), Some(false));
    let mut vec = BitVec::from("101");
    vec.xor(1, false);
    assert_eq!(vec.stringify(), "101");
    vec.xor(1, true);
    assert_eq!(vec.stringify(), "111");
}

#[test]
fn push_and_pop() {
    let mut vec = BitVec::new();
    assert_eq!(vec.pop(), None);
    vec.push(true);
    assert_eq!(vec.len(), 1);
    let value = vec.pop();
    assert_eq!(value, Some(true));
    assert_eq!(vec.len(), 0);
    assert_eq!(vec.pop(), None);
}

#[test]
fn resize_grows_with_false() {
    let mut vec = BitVec::with_capacity(100);
    vec.resize(150);
    assert_eq!(vec.len(), 150);
    vec.resize(50);
    assert_eq!(vec.len(), 50);

    let mut vec = BitVec::with_length(10);
    vec.setall(true);
    vec.resize(5);
    vec.resize(10);
    assert_eq!(vec.stringify(), "1111100000");
    assert_eq!(vec.count_ones(), 5);
}

#[test]
fn extend_appends_false() {
    let mut vec = BitVec::new();
    vec.extend(1);
    vec.set(0, true);
    assert_eq!(vec.get(0), true);
    assert_eq!(vec.len(), 1);
    vec.extend(3);
    assert_eq!(vec.stringify(), "1000");
}

#[test]
fn truncate_drops_words() {
    let mut vec = BitVec::new();
    for _ in 0..WORDSIZE + 1 {
        vec.push(true);
    }
    assert_eq!(vec.len(), WORDSIZE + 1);
    assert_eq!(vec.capacity(), WORDSIZE * 2);
    vec.truncate(WORDSIZE);
    assert_eq!(vec.len(), WORDSIZE);
    assert_eq!(vec.capacity(), WORDSIZE);
    vec.truncate(WORDSIZE + 10);
    assert_eq!(vec.len(), WORDSIZE);
}

#[test]
fn count_ones_ignores_padding() {
    let mut vec = BitVec::new();
    for _ in 0..128 {
        vec.push(true);
    }
    assert_eq!(vec.count_ones(), 128);
    vec.resize(100);
    assert_eq!(vec.count_ones(), 100);
    vec.set(0, false);
    vec.set(99, false);
    assert_eq!(vec.count_ones(), 98);
}

#[test]
fn clone_keeps_elements() {
    let a = BitVec::from("0011");
    let b = a.clone();
    assert_eq!(a.stringify(), "0011");
    assert_eq!(b.stringify(), "0011");
}

#[test]
fn buffer_holds_packed_words() {
    let mut vec = BitVec::from("101");
    assert_eq!(vec.buf().len(), 1);
    assert_eq!(vec.buf()[0] & 0b111, 0b101);
    vec.buf_mut()[0] = 0b010;
    assert_eq!(vec.stringify(), "010");
}
