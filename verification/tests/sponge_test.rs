use nested_map::sponge::Sponge;

fn squeeze_many(sponge: &mut Sponge, n: usize) -> Vec<u8> {
    let mut out = Vec::new();
    for _ in 0..n {
        out.push(sponge.squeeze());
    }
    out
}

#[test]
fn stream_of_a_one_byte_key() {
    let mut sponge = Sponge::new(&7u8);
    assert_eq!(
        squeeze_many(&mut sponge, 12),
        vec![2, 49, 73, 92, 7, 187, 201, 216, 183, 165, 137, 22]
    );
}

#[test]
fn stream_of_the_empty_key() {
    let key: Vec<u8> = Vec::new();
    let mut sponge = Sponge::new(&key);
    // The digest of no bytes at all, lowest byte first, then the closing `1`
    // and the zeros after it through the absorbing chain.
    assert_eq!(
        squeeze_many(&mut sponge, 11),
        vec![0x26, 0x29, 0x99, 0xba, 0x60, 0x1f, 0xd0, 0xef, 103, 237, 229]
    );
}

#[test]
fn stream_of_a_string_key() {
    let mut sponge = Sponge::new(&"aa");
    assert_eq!(
        squeeze_many(&mut sponge, 13),
        vec![228, 21, 50, 84, 98, 33, 95, 176, 208, 225, 220, 37, 196]
    );
}

#[test]
fn stream_of_signed_keys() {
    let mut sponge = Sponge::new(&91i32);
    assert_eq!(
        squeeze_many(&mut sponge, 14),
        vec![198, 97, 139, 241, 208, 24, 172, 3, 210, 90, 114, 224, 226, 13]
    );
    let mut sponge = Sponge::new(&-1i32);
    assert_eq!(
        squeeze_many(&mut sponge, 14),
        vec![109, 73, 156, 227, 88, 179, 190, 93, 248, 80, 59, 250, 199, 221]
    );
}

#[test]
fn stream_of_a_wide_key() {
    let mut sponge = Sponge::new(&256u64);
    assert_eq!(
        squeeze_many(&mut sponge, 18),
        vec![117, 76, 192, 174, 62, 253, 33, 212, 104, 45, 242, 173, 130, 95, 77, 25, 136, 55]
    );
}

#[test]
fn stream_across_two_counters() {
    // Thirty bytes: the digest, then two blocks of the stretch and the start
    // of a third.
    let mut sponge = Sponge::new(&"a longer key, to cross a counter");
    assert_eq!(
        squeeze_many(&mut sponge, 30),
        vec![
            1, 26, 129, 144, 8, 176, 251, 34, 153, 227, 117, 28, 27, 71, 212, 63, 136, 199, 50,
            23, 195, 50, 150, 91, 152, 199, 56, 86, 119, 74
        ]
    );
}

#[test]
fn equal_keys_have_equal_streams() {
    let mut a = Sponge::new(&String::from("the same key"));
    let mut b = Sponge::new(&"the same key");
    assert_eq!(squeeze_many(&mut a, 64), squeeze_many(&mut b, 64));
}

#[test]
fn keys_of_one_width_stream_alike_whatever_their_type() {
    let mut a = Sponge::new(&300u32);
    let mut b = Sponge::new(&300i32);
    assert_eq!(squeeze_many(&mut a, 20), squeeze_many(&mut b, 20));
    let mut c = Sponge::new(&300u64);
    let mut d = Sponge::new(&300usize);
    let mut e = Sponge::new(&300i64);
    let wide = squeeze_many(&mut c, 20);
    if usize::BITS == 64 {
        assert_eq!(wide, squeeze_many(&mut d, 20));
    }
    assert_eq!(wide, squeeze_many(&mut e, 20));
}

#[test]
fn different_keys_part_before_their_horizon() {
    // Keys of which one is the start of the other, and keys that differ in
    // one late byte only.
    let keys: Vec<Vec<u8>> = vec![
        vec![],
        vec![0],
        vec![1],
        vec![0, 0],
        vec![0, 1],
        vec![1, 0],
        vec![0, 0, 0, 0, 0, 0, 0, 0, 0],
        vec![0, 0, 0, 0, 0, 0, 0, 0, 1],
        vec![9; 40],
        vec![9; 41],
    ];
    for a in 0..keys.len() {
        for b in 0..keys.len() {
            if a == b {
                continue;
            }
            let longest = keys[a].len().max(keys[b].len());
            let horizon = longest + 8 + 1;
            let mut left = Sponge::new(&keys[a]);
            let mut right = Sponge::new(&keys[b]);
            let left = squeeze_many(&mut left, horizon);
            let right = squeeze_many(&mut right, horizon);
            assert_ne!(left, right, "{:?} and {:?}", keys[a], keys[b]);
        }
    }
}

#[test]
fn matching_moves_forward_to_the_other_cursor() {
    let mut ahead = Sponge::new(&5u16);
    let _ = squeeze_many(&mut ahead, 11);
    let mut fresh = Sponge::new(&77u16);
    fresh.matching(&ahead);
    let mut plain = Sponge::new(&77u16);
    let all = squeeze_many(&mut plain, 20);
    assert_eq!(squeeze_many(&mut fresh, 9), all[11..].to_vec());
}

#[test]
fn matching_moves_back_to_the_other_cursor() {
    let mut behind = Sponge::new(&5u16);
    let _ = squeeze_many(&mut behind, 3);
    let mut far = Sponge::new(&77u16);
    let _ = squeeze_many(&mut far, 15);
    far.matching(&behind);
    let mut plain = Sponge::new(&77u16);
    let all = squeeze_many(&mut plain, 20);
    assert_eq!(squeeze_many(&mut far, 17), all[3..].to_vec());
}

#[test]
fn matching_a_sponge_at_the_same_cursor_changes_nothing() {
    let mut a = Sponge::new(&1u8);
    let mut b = Sponge::new(&2u8);
    let _ = squeeze_many(&mut a, 10);
    let _ = squeeze_many(&mut b, 10);
    a.matching(&b);
    let mut plain = Sponge::new(&1u8);
    let all = squeeze_many(&mut plain, 14);
    assert_eq!(squeeze_many(&mut a, 4), all[10..].to_vec());
}

#[test]
fn cursor_counts_the_bytes_squeezed() {
    let mut sponge = Sponge::new(&"count");
    assert_eq!(sponge.cursor(), 0);
    let _ = squeeze_many(&mut sponge, 13);
    assert_eq!(sponge.cursor(), 13);
    let fresh = Sponge::new(&"other");
    sponge.matching(&fresh);
    assert_eq!(sponge.cursor(), 0);
    let mut far = Sponge::new(&"far");
    let _ = squeeze_many(&mut far, 300);
    sponge.matching(&far);
    assert_eq!(sponge.cursor(), 300);
}
