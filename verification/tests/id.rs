use nargun::id::{hamming_weight, ID, ID_LEN};
use std::cmp::Ordering;

#[test]
fn create() {
    let arr: [u8; ID_LEN] = rand::random();

    let id = ID::new(arr.to_owned());

    for (i, x) in arr.iter().enumerate() {
        assert_eq!(*x, id.0[i]);
    }
}

#[test]
fn get_bit() {
    let mut id = ID::new(rand::random());

    id.0[13] = 0b0001_0000;
    assert!(!id.get_bit(13 * 8 + 1));
    assert!(id.get_bit(13 * 8 + 3));

    id.0[13] = 0b0100_1001;
    assert!(id.get_bit(13 * 8 + 1));
    assert!(!id.get_bit(13 * 8 + 3));
}

#[test]
fn flip_bit() {
    let mut id = ID::new(rand::random());

    id.0[13] = 0b0000_1111;
    id.flip_bit(13 * 8 + 3);

    assert_eq!(0b0001_1111, id.0[13])
}

#[test]
fn change_bit() {
    let mut id = ID::new(rand::random());
    id.0[17] = 0b0101_1010;

    id.change_bit(17 * 8 + 1, false);
    id.change_bit(17 * 8 + 7, true);

    assert_eq!(0b0001_1011, id.0[17]);
}

#[test]
fn cmp() {
    let mut id0 = ID::new(rand::random());
    let mut id1 = ID::new(rand::random());

    id0.0[0] = 0b1010_1010;
    id1.0[0] = 0b1010_1010;

    id0.0[1] = 0b1010_0101;
    id1.0[1] = 0b1010_1010;

    assert_eq!(Ordering::Equal, id0.cmp_first_n_bits(&id1, 7));
    assert_eq!(Ordering::Equal, id1.cmp_first_n_bits(&id0, 7));
    assert_eq!(Ordering::Equal, id0.cmp_first_n_bits(&id1, 10));

    assert_eq!(Ordering::Greater, id1.cmp_first_n_bits(&id0, 15));
    assert_eq!(Ordering::Less, id0.cmp_first_n_bits(&id1, 14));
}

#[test]
fn randomize() {
    let mut id = ID::new([0; 20]);

    for _ in 0..64 {
        id.randomize_after_bit(8 + 2);
        assert!(id.as_byte_ref()[1] <= 0b0001_1111);
    }

    assert!(id.weight() > 0);
}

#[test]
fn id_weight() {
    assert_eq!(
        51,
        ID::new([1, 1, 1, 1, 1, 0xFF, 0xFF, 0, 0x11, 0xFF, 0xFF, 0xFF, 1, 0, 0, 0, 0, 0, 1, 5,])
            .weight()
    );
}

#[test]
fn eq() {
    let arr: [u8; ID_LEN] = rand::random();
    let arr2 = arr;

    let id = ID::new(arr);
    let id2 = ID::new(arr2);

    assert_eq!(id, id2);
}

#[test]
fn ne() {
    let arr: [u8; ID_LEN] = rand::random();

    let mut arr2 = arr;
    arr2[9] = arr2[9].wrapping_add(1);

    let id = ID::new(arr);
    let id2 = ID::new(arr2);

    assert_ne!(id, id2);
}

#[test]
fn ord() {
    let arr = [0, 1, 2, 3, 4, 5, 6, 7, 8, 9, 0, 1, 2, 3, 4, 5, 6, 7, 8, 9];
    let id = ID::new(arr);

    let eq_arr = arr;
    let eq_id = ID::new(eq_arr);

    let mut less_arr = arr;
    less_arr[9] -= 1;
    let less_id = ID::new(less_arr);

    let mut greater_arr = arr;
    greater_arr[9] += 1;
    let greater_id = ID::new(greater_arr);

    assert_eq!(eq_id.cmp(&id), Ordering::Equal);
    assert_eq!(less_id.cmp(&id), Ordering::Less);
    assert_eq!(greater_id.cmp(&id), Ordering::Greater);
}

#[test]
fn xor() {
    let left = ID::new([
        0, 0, 0, 0, 0, 0b0000_1111, 0xff, 0xff, 0xff, 0xff, 0xff, 0xff, 0xff, 0xff, 0xff,
        0b1010_1010, 0, 0xff, 0, 0xff,
    ]);
    let right = ID::new([
        0xff, 0xff, 0, 0, 0, 0b1010_1010, 0, 0xff, 0, 0xff, 0, 0, 0, 0, 0, 0b1110_0011, 0, 0, 0, 0,
    ]);
    let res = ID::new([
        0xff, 0xff, 0, 0, 0, 0b1010_0101, 0xff, 0, 0xff, 0, 0xff, 0xff, 0xff, 0xff, 0xff,
        0b0100_1001, 0, 0xff, 0, 0xff,
    ]);

    assert_eq!(&left ^ &right, res);
}

#[test]
fn sub() {
    let left = ID::new(rand::random());
    let right = ID::new(rand::random());

    assert_eq!(&left ^ &right, &left - &right);
    assert_eq!(&left ^ &right, &right - &left);
}

#[test]
fn id_first_diff_bit_idx() {
    let a = ID::new([0; 20]);
    let mut b = a;
    assert_eq!(None, a.first_diff_bit_idx(&b));
    b.flip_bit(37);
    assert_eq!(Some(37), a.first_diff_bit_idx(&b));
    b.flip_bit(3);
    assert_eq!(Some(3), b.first_diff_bit_idx(&a));
}

#[test]
fn id_bit_based_order() {
    let mut id = ID::new([0; 20]);
    assert_eq!((2, 1), id.bit_based_order(5, 1, 2));
    id.flip_bit(5);
    assert_eq!((1, 2), id.bit_based_order(5, 1, 2));
}

#[test]
fn id_hamming_weight_of_words() {
    assert_eq!(0, hamming_weight(0));
    assert_eq!(32, hamming_weight(u32::MAX));
    assert_eq!(3, hamming_weight(0b1011));
}

#[test]
fn id_hash_as_bytes_is_the_digest_of_id_and_secret() {
    let id = ID::new([7; 20]);
    let h1 = id.hash_as_bytes(b"secret");
    let h2 = id.hash_as_bytes(b"secret");
    let h3 = id.hash_as_bytes(b"other");
    assert_eq!(20, h1.len());
    assert_eq!(h1, h2);
    assert_ne!(h1, h3);
    // SHA-1 of twenty 7s followed by "secret" differs from the plain input
    let mut plain = vec![7u8; 20];
    plain.extend_from_slice(b"secret");
    assert_ne!(&plain[..20], &h1[..]);
}

#[test]
fn id_from_vec_keeps_bytes() {
    let v: Vec<u8> = (0..20).collect();
    let id = ID::from_vec(v.clone());
    assert_eq!(&v[..], id.as_byte_ref());
}

#[test]
fn random_ids_differ() {
    let a = ID::random();
    let b = ID::random();
    let c = ID::random();
    assert!(a != b || b != c);
}
