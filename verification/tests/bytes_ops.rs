use lib::mem::{mem_move, mem_set, self_mem_move};
use lib::mutations::{
    bitflip_at, byteflip_at, byteinc_at, bytedec_at, byteneg_at, byteset_at, delete_at,
    expand_at, insert_at, locate_diffs, splice_at, swap_at, INTERESTING_16, INTERESTING_32,
    INTERESTING_8,
};
use lib::words::{load_word, word_arith_at, word_store_at};

#[test]
fn bitflip_at_flips_one_bit() {
    let mut v = vec![0x00u8, 0x00];
    bitflip_at(&mut v, 9);
    assert_eq!(v, vec![0x00, 0x40]);
    bitflip_at(&mut v, 0);
    assert_eq!(v, vec![0x80, 0x40]);
}

#[test]
fn bitflip_twice_restores() {
    let mut v = vec![0x12u8, 0x34, 0x56];
    bitflip_at(&mut v, 13);
    assert_ne!(v, vec![0x12, 0x34, 0x56]);
    bitflip_at(&mut v, 13);
    assert_eq!(v, vec![0x12, 0x34, 0x56]);
}

#[test]
fn single_byte_ops() {
    let mut v = vec![0x0fu8, 0xff, 0x00, 0x5a];
    byteflip_at(&mut v, 0);
    assert_eq!(v[0], 0xf0);
    byteinc_at(&mut v, 1);
    assert_eq!(v[1], 0x00);
    bytedec_at(&mut v, 2);
    assert_eq!(v[2], 0xff);
    byteneg_at(&mut v, 3);
    assert_eq!(v[3], 0xa5);
    byteset_at(&mut v, 3, 7);
    assert_eq!(v, vec![0xf0, 0x00, 0xff, 0x07]);
}

#[test]
fn byte_inc_dec_inverse() {
    let mut v = vec![0xffu8];
    byteinc_at(&mut v, 0);
    bytedec_at(&mut v, 0);
    assert_eq!(v, vec![0xff]);
}

#[test]
fn word_arith_little_endian() {
    let mut v = vec![0xffu8, 0x00, 0x11];
    word_arith_at(&mut v, 0, 2, 1, false, false);
    assert_eq!(v, vec![0x00, 0x01, 0x11]);
    let mut w = vec![0x00u8, 0x00];
    word_arith_at(&mut w, 0, 2, 1, true, false);
    assert_eq!(w, vec![0xff, 0xff]);
}

#[test]
fn word_arith_big_endian() {
    let mut v = vec![0x00u8, 0xff];
    word_arith_at(&mut v, 0, 2, 1, false, true);
    assert_eq!(v, vec![0x01, 0x00]);
    let mut q = vec![0u8; 8];
    word_arith_at(&mut q, 0, 8, 1, true, true);
    assert_eq!(q, vec![0xff; 8]);
}

#[test]
fn word_arith_past_the_end() {
    let mut v = vec![0x00u8, 0xff, 0xff];
    word_arith_at(&mut v, 1, 4, 1, false, false);
    assert_eq!(v, vec![0x00, 0x00, 0x00]);
    let mut b = vec![0x00u8, 0x05];
    word_arith_at(&mut b, 0, 4, 1, true, true);
    assert_eq!(b, vec![0x00, 0x04]);
}

#[test]
fn word_arith_inverse() {
    let orig = vec![0x10u8, 0x20, 0x30, 0x40, 0x50, 0x60, 0x70, 0x80, 0x90];
    for &(w, be) in &[(1usize, false), (2, false), (4, true), (8, true), (8, false)] {
        let mut v = orig.clone();
        word_arith_at(&mut v, 1, w, 35, false, be);
        assert_ne!(v, orig);
        word_arith_at(&mut v, 1, w, 35, true, be);
        assert_eq!(v, orig);
    }
}

#[test]
fn byte_add_wraps() {
    let mut v = vec![250u8, 1];
    word_arith_at(&mut v, 0, 1, 10, false, false);
    assert_eq!(v, vec![4, 1]);
    word_arith_at(&mut v, 1, 1, 3, true, false);
    assert_eq!(v, vec![4, 254]);
}

#[test]
fn word_store_both_orders() {
    let mut v = vec![0u8, 0, 0];
    word_store_at(&mut v, 0, 2, 0x1234, false);
    assert_eq!(v, vec![0x34, 0x12, 0]);
    word_store_at(&mut v, 0, 2, 0x1234, true);
    assert_eq!(v, vec![0x12, 0x34, 0]);
    word_store_at(&mut v, 1, 4, 0xaabbccdd, true);
    assert_eq!(v, vec![0x12, 0xaa, 0xbb]);
}

#[test]
fn load_after_store() {
    let mut v = vec![9u8; 6];
    word_store_at(&mut v, 1, 4, 0xdeadbeef, false);
    assert_eq!(load_word(&v, 1, 4, false), 0xdeadbeef);
    word_store_at(&mut v, 1, 4, 0x0102030405, true);
    assert_eq!(load_word(&v, 1, 4, true), 0x02030405);
    assert_eq!(v[0], 9);
    assert_eq!(v[5], 9);
}

#[test]
fn interesting_values() {
    assert_eq!(INTERESTING_8[0] as u8, 0x80);
    assert_eq!(INTERESTING_16[0] as u16, 0xff80);
    assert_eq!(INTERESTING_32[19] as u32, 0x8000_0000);
    assert_eq!(INTERESTING_32.len(), 27);
}

#[test]
fn memory_moves() {
    let mut v = vec![1u8, 2, 3, 4, 5];
    self_mem_move(&mut v, 0, 1, 3);
    assert_eq!(v, vec![1, 1, 2, 3, 5]);
    let mut w = vec![1u8, 2, 3, 4, 5];
    self_mem_move(&mut w, 1, 0, 3);
    assert_eq!(w, vec![2, 3, 4, 4, 5]);
    let mut d = vec![0u8; 4];
    mem_move(&mut d, &[7, 8, 9], 1, 2, 2);
    assert_eq!(d, vec![0, 0, 8, 9]);
    mem_set(&mut d, 0, 3, 5);
    assert_eq!(d, vec![5, 5, 5, 9]);
}

#[test]
fn delete_expand_insert() {
    let mut v = vec![1u8, 2, 3, 4, 5];
    delete_at(&mut v, 1, 2);
    assert_eq!(v, vec![1, 4, 5]);
    let mut e = vec![1u8, 2, 3];
    expand_at(&mut e, 1, 2);
    assert_eq!(e, vec![1, 1, 2, 0, 0]);
    let mut i = vec![1u8, 2, 3, 4];
    insert_at(&mut i, 1, 2, 9);
    assert_eq!(i, vec![1, 9, 9, 2, 3]);
    let mut t = vec![1u8, 2, 3, 4, 5, 6, 7, 8];
    insert_at(&mut t, 1, 1, 9);
    assert_eq!(t, vec![1, 9, 2]);
}

#[test]
fn swap_ranges() {
    let mut v = vec![1u8, 2, 3, 4, 5];
    swap_at(&mut v, 0, 3, 2);
    assert_eq!(v, vec![4, 5, 3, 1, 2]);
    swap_at(&mut v, 0, 3, 2);
    assert_eq!(v, vec![1, 2, 3, 4, 5]);
}

#[test]
fn locate_diffs_values() {
    assert_eq!(locate_diffs(&[1, 2, 3, 4], &[1, 9, 3, 8, 7]), (1, 3));
    assert_eq!(locate_diffs(&[1, 2, 3], &[1, 2, 3, 4]), (-1, -1));
    assert_eq!(locate_diffs(&[5], &[6]), (0, 0));
    assert_eq!(locate_diffs(&[], &[1]), (-1, -1));
    assert_eq!(locate_diffs(&[1, 9, 3, 8, 7], &[1, 2, 3, 4]), (1, 3));
}

#[test]
fn splice_values() {
    let mut v = vec![1u8, 2, 3, 4];
    splice_at(&mut v, &[9, 9, 9, 9, 9, 9], 2);
    assert_eq!(v, vec![1, 2, 9, 9, 9, 9]);
    let mut w = vec![1u8, 2, 3, 4];
    splice_at(&mut w, &[9, 9, 9], 3);
    assert_eq!(w, vec![1, 2, 3]);
}
