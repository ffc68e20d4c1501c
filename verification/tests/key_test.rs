use nested_map::key::{bytes_agree, Key};

#[test]
fn integers_are_their_little_endian_bytes() {
    assert_eq!(0x12u8.to_bytes(), vec![0x12]);
    assert_eq!(0x1234u16.to_bytes(), vec![0x34, 0x12]);
    assert_eq!(0x1234_5678u32.to_bytes(), vec![0x78, 0x56, 0x34, 0x12]);
    assert_eq!(
        0x0102_0304_0506_0708u64.to_bytes(),
        vec![8, 7, 6, 5, 4, 3, 2, 1]
    );
    assert_eq!(258usize.to_bytes(), vec![2, 1, 0, 0, 0, 0, 0, 0]);
}

#[test]
fn signed_integers_are_their_twos_complement_bytes() {
    assert_eq!((-1i32).to_bytes(), vec![0xff, 0xff, 0xff, 0xff]);
    assert_eq!((-2i64).to_bytes(), vec![0xfe, 0xff, 0xff, 0xff, 0xff, 0xff, 0xff, 0xff]);
    assert_eq!(91i32.to_bytes(), vec![91, 0, 0, 0]);
    assert_eq!(i32::MIN.to_bytes(), vec![0, 0, 0, 0x80]);
}

#[test]
fn strings_are_their_utf8_bytes() {
    assert_eq!("aa".to_bytes(), vec![0x61, 0x61]);
    assert_eq!("".to_bytes(), Vec::<u8>::new());
    assert_eq!(String::from("é").to_bytes(), vec![0xc3, 0xa9]);
    assert_eq!(vec![3u8, 1, 2].to_bytes(), vec![3, 1, 2]);
}

#[test]
fn same_goes_by_the_bytes() {
    assert!(5u8.same(&5));
    assert!(!5u8.same(&6));
    assert!(70000u32.same(&70000));
    assert!(!70000u32.same(&4464));
    assert!((-7i32).same(&-7));
    assert!(!(-7i32).same(&7));
    assert!((-7i64).same(&-7));
    assert!(!i64::MAX.same(&i64::MIN));
    assert!(9usize.same(&9));
    assert!(!9usize.same(&10));
    assert!(1000u16.same(&1000));
    assert!(!1000u16.same(&1001));
    assert!(u64::MAX.same(&u64::MAX));
    assert!(!u64::MAX.same(&0));
    assert!("abc".same(&"abc"));
    assert!(!"abc".same(&"abd"));
    assert!(!"abc".same(&"ab"));
    assert!(String::from("abc").same(&String::from("abc")));
    assert!(!String::from("abc").same(&String::from("")));
    assert!(vec![1u8, 2].same(&vec![1, 2]));
    assert!(!vec![1u8, 2].same(&vec![1, 2, 0]));
}

#[test]
fn bytes_agree_compares_whole_runs() {
    assert!(bytes_agree(&[], &[]));
    assert!(bytes_agree(&[1, 2, 3], &[1, 2, 3]));
    assert!(!bytes_agree(&[1, 2, 3], &[1, 2]));
    assert!(!bytes_agree(&[1, 2], &[1, 2, 3]));
    assert!(!bytes_agree(&[1, 2, 3], &[1, 2, 4]));
    assert!(!bytes_agree(&[0, 2, 3], &[1, 2, 3]));
}
