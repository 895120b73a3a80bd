use remote_agent::hash::do_hash;

fn counting(n: usize) -> Vec<u8> {
    let mut v: Vec<u8> = Vec::new();
    let mut i: usize = 0;
    while i < n {
        v.push(i as u8);
        i += 1;
    }
    v
}

#[test]
fn hash_of_counting_bytes() {
    let mut h: Vec<u8> = counting(64);
    do_hash(&mut h);
    let expected: [u8; 64] = [
        6, 142, 92, 100, 140, 105, 53, 236, 226, 72, 41, 42, 124, 199, 241, 24, 132, 98, 196, 93,
        66, 198, 92, 95, 87, 111, 225, 42, 126, 215, 244, 45, 37, 241, 28, 101, 124, 154, 136, 4,
        194, 141, 230, 214, 11, 169, 157, 17, 101, 207, 202, 43, 185, 138, 130, 87, 9, 151, 89, 60,
        179, 100, 244, 3,
    ];
    assert_eq!(h, expected.to_vec());
}

#[test]
fn hash_of_all_ones_bits() {
    let mut h: [u8; 64] = [0xff; 64];
    do_hash(&mut h);
    let expected: [u8; 64] = [
        124, 127, 156, 110, 23, 235, 224, 105, 3, 42, 147, 180, 188, 40, 175, 160, 79, 67, 12, 37,
        48, 28, 115, 218, 117, 107, 115, 34, 130, 36, 167, 179, 38, 143, 114, 170, 244, 225, 29,
        130, 220, 238, 104, 51, 159, 74, 44, 238, 183, 48, 58, 124, 62, 36, 158, 159, 169, 112,
        108, 0, 126, 138, 88, 4,
    ];
    assert_eq!(h, expected);
}

#[test]
fn hash_keeps_zero_state() {
    let mut h: [u8; 64] = [0; 64];
    do_hash(&mut h);
    assert_eq!(h, [0u8; 64]);
}

#[test]
fn hash_moves_single_bit_to_second_lane() {
    let mut h: [u8; 64] = [0; 64];
    h[0] = 1;
    do_hash(&mut h);
    let mut expected: [u8; 64] = [0; 64];
    expected[16] = 1;
    assert_eq!(h, expected);
}

#[test]
fn hash_is_deterministic() {
    let mut first: Vec<u8> = counting(64);
    let mut second: Vec<u8> = counting(64);
    do_hash(&mut first);
    do_hash(&mut second);
    assert_eq!(first, second);
    assert_ne!(first, counting(64));
}

#[test]
fn hash_leaves_short_buffer_alone() {
    let mut h: Vec<u8> = counting(63);
    do_hash(&mut h);
    assert_eq!(h, counting(63));
    let mut empty: Vec<u8> = Vec::new();
    do_hash(&mut empty);
    assert!(empty.is_empty());
}

#[test]
fn hash_keeps_bytes_past_the_state() {
    let mut h: Vec<u8> = counting(64);
    h.push(9);
    h.push(8);
    h.push(7);
    let mut plain: Vec<u8> = counting(64);
    do_hash(&mut h);
    do_hash(&mut plain);
    assert_eq!(h.len(), 67);
    assert_eq!(&h[..64], &plain[..]);
    assert_eq!(&h[64..], &[9u8, 8, 7][..]);
}
