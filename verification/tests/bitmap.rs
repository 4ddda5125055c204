use nargun::bitmap::Bitmap;

#[test]
fn setup() {
    let len = 67;
    let bitmap = Bitmap::new(len);

    assert_eq!(len, bitmap.len());

    assert_eq!((67 + 7) / 8, bitmap.data().len());
}

#[test]
fn change() {
    let mut bitmap = Bitmap::new(67);
    let mut data = vec![0u8; 9];
    data[7] = 0b0101_1010;
    bitmap.replace_data(&data).unwrap();

    assert_eq!(true, bitmap.change(7 * 8 + 1, false));
    assert_eq!(false, bitmap.change(7 * 8 + 7, true));

    assert_eq!(0b0001_1011, bitmap.data()[7]);
}

#[test]
fn bitmap_weight() {
    let mut bitmap = Bitmap::new(21);

    let new_data = [0b0000_1111, 0b1110_0011, 0b1111_0000];
    bitmap.replace_data(&new_data).unwrap();

    assert_eq!(13, bitmap.weight())
}

#[test]
fn replace() {
    let mut bitmap = Bitmap::new(21);

    let new_data = [0b0000_1111, 0b1110_0011, 0b1111_0000];

    bitmap.replace_data(&new_data).unwrap();

    for (idx, byte) in bitmap.data().iter().enumerate() {
        assert_eq!(new_data[idx], *byte);
    }
}

#[test]
#[should_panic]
fn replace_with_too_long() {
    let mut bitmap = Bitmap::new(21);

    let new_data = [0, 1, 2, 3, 4];

    bitmap.replace_data(&new_data).unwrap();
}

#[test]
fn iter() {
    let mut bitmap = Bitmap::new(13);

    let new_data = [0b0000_1111, 0b1110_0000];
    bitmap.replace_data(&new_data).unwrap();

    let mut iter = bitmap.iter();

    assert_eq!(Some(false), iter.next());
    assert_eq!(Some(false), iter.next());
    assert_eq!(Some(false), iter.next());
    assert_eq!(Some(false), iter.next());
    assert_eq!(Some(true), iter.next());
    assert_eq!(Some(true), iter.next());
    assert_eq!(Some(true), iter.next());
    assert_eq!(Some(true), iter.next());

    assert_eq!(Some(true), iter.next());
    assert_eq!(Some(true), iter.next());
    assert_eq!(Some(true), iter.next());
    assert_eq!(Some(false), iter.next());
    assert_eq!(Some(false), iter.next());

    assert_eq!(None, iter.next());
}

#[test]
fn bitmap_get_reads_back_a_change() {
    let mut bitmap = Bitmap::new(20);
    bitmap.change(9, true);
    assert!(bitmap.get(9));
    assert!(!bitmap.get(8));
    bitmap.change(9, false);
    assert!(!bitmap.get(9));
}

#[test]
fn bitmap_replace_data_refuses_wrong_length() {
    let mut bitmap = Bitmap::new(8);
    assert!(bitmap.replace_data(&[1, 2]).is_err());
    assert!(bitmap.replace_data(&[]).is_err());
    assert!(bitmap.replace_data(&[0xff]).is_ok());
    assert_eq!(8, bitmap.weight());
}

#[test]
fn bitmap_change_moves_the_weight() {
    let mut bitmap = Bitmap::new(21);
    bitmap.replace_data(&[0b0000_1111, 0b1110_0011, 0b1111_0000]).unwrap();
    assert_eq!(bitmap.weight(), 13);
    assert_eq!(bitmap.change(0, true), false);
    assert_eq!(bitmap.weight(), 14);
    assert_eq!(bitmap.change(4, false), true);
    assert_eq!(bitmap.weight(), 13);
    assert_eq!(bitmap.change(5, true), true);
    assert_eq!(bitmap.weight(), 13);
    assert!(bitmap.get(0));
    assert!(!bitmap.get(4));
}

#[test]
fn bitmap_get_agrees_with_iteration() {
    let mut bitmap = Bitmap::new(19);
    bitmap.replace_data(&[0b1010_0001, 0b0111_0000, 0b1100_0000]).unwrap();
    let mut it = bitmap.iter();
    let mut seen = Vec::new();
    while let Some(v) = it.next() {
        seen.push(v);
    }
    assert_eq!(seen.len(), 19);
    for (i, v) in seen.iter().enumerate() {
        assert_eq!(*v, bitmap.get(i));
    }
}
