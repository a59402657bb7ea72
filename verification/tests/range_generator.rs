use pathmap::range_generator::{bytes_number, compressed_range, decompose_seq, one_up, pattern, repetition};
use pathmap::trie_map::BytesTrieMap;

#[test]
fn range_generator_0() {
    let params: Vec<(u8, u8, u8)> = vec![
        (0, 255, 1), //Standard step-by-one, fill the whole range
        (2, 16, 3), //Step by 3, non-zero starting point
        (135, 255, 150), //Step should not cause an overflow
    ];

    for &(start, stop, step) in params.iter() {
        let mut i = start as usize;
        let map = BytesTrieMap::new_with_root(compressed_range(start, stop, step, ()).unwrap());

        for (path, _) in map.iter() {
            let cn = u8::from_be_bytes(path.try_into().unwrap());
            assert_eq!(cn as usize, i);
            i += step as usize;
        }
        assert!((i - step as usize) < stop as usize);
        assert!(i >= stop as usize);
    }
}

#[test]
fn range_generator_1() {
    let params: Vec<(u16, u16, u16)> = vec![
        (0, 20, 2), //Standard short step-by-one
    ];

    for &(start, stop, step) in params.iter() {
        let mut i = start as usize;
        let cr_root = compressed_range(start, stop, step, ()).unwrap();

        let map = BytesTrieMap::new_with_root(cr_root);

        for (path, _) in map.iter() {
            let cn = u16::from_be_bytes(path.try_into().unwrap());
            assert_eq!(cn as usize, i);
            i += step as usize;
        }
        assert!((i - step as usize) < stop as usize);
        assert!(i >= stop as usize);
    }
}

#[test]
fn compressed_range_u16_odd_step() {
    let (start, stop, step) = (1000u16, 5000u16, 7u16);
    let map = BytesTrieMap::new_with_root(compressed_range(start, stop, step, ()).unwrap());
    let keys: Vec<u16> = map.iter().into_iter().map(|(p, _)| u16::from_be_bytes(p.try_into().unwrap())).collect();
    let expected: Vec<u16> = (start..stop).step_by(step as usize).collect();
    assert_eq!(keys, expected);
}

#[test]
fn compressed_range_u32_small() {
    for &(start, stop, step) in [(0u32, 10000u32, 42u32), (1000, 318021, 188), (65530, 65700, 256), (5, 6, 1)].iter() {
        let map = BytesTrieMap::new_with_root(compressed_range(start, stop, step, ()).unwrap());
        let keys: Vec<u32> = map.iter().into_iter().map(|(p, _)| u32::from_be_bytes(p.try_into().unwrap())).collect();
        let expected: Vec<u32> = (start..stop).step_by(step as usize).collect();
        assert_eq!(keys, expected);
    }
}

#[test]
fn compressed_range_u64_across_top_byte() {
    let start = 0x00ff_ffff_ffff_ff00u64;
    let stop = 0x0100_0000_0000_0100u64;
    let step = 5u64;
    let map = BytesTrieMap::new_with_root(compressed_range(start, stop, step, ()).unwrap());
    let keys: Vec<u64> = map.iter().into_iter().map(|(p, _)| u64::from_be_bytes(p.try_into().unwrap())).collect();
    let expected: Vec<u64> = (start..stop).step_by(step as usize).collect();
    assert_eq!(keys, expected);
}

#[test]
fn pattern_low_bytes() {
    let p = pattern(3u16, 1u16);
    assert_eq!(p.len(), 256);
    assert_eq!(&p[..4], &[1u8, 4, 7, 10]);
    assert_eq!(p[85], 0);
    assert_eq!(p[86], 3);
}

#[test]
fn repetition_counts() {
    assert_eq!(repetition(3u16, 0u16), vec![86, 85, 85]);
    assert_eq!(repetition(2u16, 1u16), vec![128, 128]);
    assert_eq!(repetition(6u16, 0u16), vec![43, 43, 42, 43, 43, 42]);
}

#[test]
fn decompose_seq_periods() {
    assert_eq!(decompose_seq(&[43, 43, 42, 43, 43, 42]), (6, &[43usize, 43, 42][..]));
    assert_eq!(decompose_seq(&[86, 85, 85]), (3, &[86usize, 85, 85][..]));
    assert_eq!(decompose_seq(&[1, 2, 1]), (1, &[1usize, 2, 1][..]));
    assert_eq!(decompose_seq(&[]), (0, &[][..]));
    assert_eq!(decompose_seq(&[5, 5, 5, 5]), (4, &[5usize][..]));
}

#[test]
fn one_up_window_sums() {
    assert_eq!(one_up(&[1, 2], 2), vec![384, 384]);
    assert_eq!(one_up(&[1, 2, 3], 3), vec![511, 512, 513]);
    assert_eq!(one_up(&[], 0), Vec::<usize>::new());
}

#[test]
fn bytes_number_big_endian() {
    assert_eq!(bytes_number::<2, u16>(&[1, 2]), 258u16);
    assert_eq!(bytes_number::<4, u32>(&[0, 0, 1, 0]), 256u32);
    assert_eq!(bytes_number::<1, u8>(&[200]), 200u8);
}

#[test]
fn compressed_range_equivalent() {
    let params = vec![
        (0u32, 10000u32, 42u32),
        (1000u32, 318021u32, 188u32),
        (1000u32, 318021u32, 3u32),
        (498230428u32, 1498230428u32, 128u32),
        (256u32, 65535u32, 2u32),
    ];

    for &(start, stop, step) in params.iter() {
        let mut i = start as usize;
        let cr_root = compressed_range(start, stop, step, ()).unwrap();
        let cr = BytesTrieMap::new_with_root(cr_root);

        for (path, _) in cr.iter() {
            let cn = u32::from_be_bytes(path.try_into().unwrap());
            assert_eq!(cn as usize, i);
            i += step as usize;
        }
        assert!((i - step as usize) < stop as usize);
        assert!(i >= stop as usize);
    }
}
