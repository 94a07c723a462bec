use submerge::{
    bin_hash, bin_prefix, compare_bytes, dict_encode, dict_encode_bins, neg_virt_base_and_factor,
    pos_virt_base_and_factor, run_end_decode, run_end_encode, write_dict_codes, Error, Heap,
    MemWriter, WordTy, WordTy256,
};

#[test]
fn test_pos_virt_base_and_factor() {
    assert_eq!(pos_virt_base_and_factor(&[2, 6, 10, 14, 18]), Some((2, 4)));
}

#[test]
fn test_neg_virt_base_and_factor() {
    assert_eq!(neg_virt_base_and_factor(&[2, 2, 3, 3, 3]), None);
    assert_eq!(
        neg_virt_base_and_factor(&[2, 2, 2, 3, 3, 3, 4, 4, 4, 5, 5]),
        Some((2, -3))
    );
}

#[test]
fn test_wordty() {
    assert_eq!(WordTy::select_min_and_ty(&[]), (0, WordTy::Word1));
    assert_eq!(WordTy::select_min_and_ty(&[0]), (0, WordTy::Word1));
    assert_eq!(WordTy::select_min_and_ty(&[1]), (1, WordTy::Word1));
    assert_eq!(WordTy::select_min_and_ty(&[0xfff]), (0xfff, WordTy::Word1));
    assert_eq!(
        WordTy::select_min_and_ty(&[0xff00, 0x00ff]),
        (0xff, WordTy::Word2)
    );
}

#[test]
fn wordty_widths_and_negative_values() {
    assert_eq!(WordTy::select_min_and_ty(&[0, 0x10000]), (0, WordTy::Word4));
    assert_eq!(WordTy::select_min_and_ty(&[0, 0x1_0000_0000]), (0, WordTy::Word8));
    assert_eq!(WordTy::select_min_and_ty(&[-1, 0]), (0, WordTy::Word8));
    assert_eq!(WordTy::select_min_and_ty(&[100, 355]), (100, WordTy::Word1));
    assert_eq!(WordTy::select_min_and_ty(&[100, 356]), (100, WordTy::Word2));
    assert_eq!(WordTy::Word4.len(), 4);
    assert_eq!(WordTy::Word2.slice_name(), "word2_slice");
}

#[test]
fn wordty256_codes() {
    let mut w = WordTy256::new();
    assert_eq!(w.get_word_ty(9), WordTy::Word1);
    w.set_word_ty(9, WordTy::Word8);
    w.set_word_ty(10, WordTy::Word4);
    w.set_word_ty(11, WordTy::Word2);
    assert_eq!(w.get_word_ty(9), WordTy::Word8);
    assert_eq!(w.get_word_ty(10), WordTy::Word4);
    assert_eq!(w.get_word_ty(11), WordTy::Word2);
    assert_eq!(w.bitmaps.get(9), 3);
    assert_eq!(w.bitmaps.get(10), 2);
}

#[test]
fn pos_virt_edges() {
    assert_eq!(pos_virt_base_and_factor(&[]), None);
    assert_eq!(pos_virt_base_and_factor(&[7]), None);
    assert_eq!(pos_virt_base_and_factor(&[10, 20, 30, 40]), Some((10, 10)));
    assert_eq!(pos_virt_base_and_factor(&[10, 20, 31, 40]), None);
    assert_eq!(pos_virt_base_and_factor(&[5, 5, 5]), Some((5, 0)));
    assert_eq!(pos_virt_base_and_factor(&[9, 6, 3, 0]), Some((9, -3)));
    assert_eq!(pos_virt_base_and_factor(&[i64::MIN, i64::MAX]), None);
}

#[test]
fn neg_virt_edges() {
    assert_eq!(neg_virt_base_and_factor(&[1]), None);
    assert_eq!(neg_virt_base_and_factor(&[1, 1, 1]), None);
    assert_eq!(neg_virt_base_and_factor(&[1, 2]), Some((1, -1)));
    assert_eq!(neg_virt_base_and_factor(&[4, 4, 5, 5, 6]), Some((4, -2)));
    assert_eq!(neg_virt_base_and_factor(&[4, 4, 5, 5, 5]), None);
    assert_eq!(neg_virt_base_and_factor(&[4, 4, 6, 6]), None);
    assert_eq!(neg_virt_base_and_factor(&[i64::MAX, i64::MAX]), None);
}

#[test]
fn run_end_encoding_cases() {
    let (vals, ends) = run_end_encode(&[]).unwrap();
    assert!(vals.is_empty() && ends.is_empty());
    assert_eq!(run_end_encode(&[7]).unwrap(), (vec![7], vec![0]));
    assert_eq!(
        run_end_encode(&[1, 1, 2, 3, 3, 3]).unwrap(),
        (vec![1, 2, 3], vec![1, 2, 5])
    );
    assert_eq!(run_end_encode(&[0u16; 1024]).unwrap(), (vec![0], vec![1023]));
    assert_eq!(run_end_encode(&vec![0u16; 0x10000]), Err(Error::TooManyRows));
}

#[test]
fn run_end_round_trip() {
    let xs = [5u16, 5, 9, 9, 9, 1, 5, 5];
    let (vals, ends) = run_end_encode(&xs).unwrap();
    assert_eq!(run_end_decode(&vals, &ends), xs.to_vec());
}

#[test]
fn dict_encode_scenario() {
    let (dict, codes) = dict_encode(&[5, 5, 5, 6, 6, 6, 5, 6, 5, 3, 4, 2]).unwrap();
    assert_eq!(dict, vec![2, 3, 4, 5, 6]);
    assert_eq!(codes, vec![3, 3, 3, 4, 4, 4, 3, 4, 3, 1, 2, 0]);
}

#[test]
fn dict_round_trip_and_limits() {
    let xs = [-4i64, 100, -4, 7, i64::MAX, i64::MIN, 7];
    let (dict, codes) = dict_encode(&xs).unwrap();
    let back: Vec<i64> = codes.iter().map(|c| dict[*c as usize]).collect();
    assert_eq!(back, xs.to_vec());
    assert_eq!(dict, vec![i64::MIN, -4, 7, 100, i64::MAX]);
    let (dict, codes) = dict_encode(&[]).unwrap();
    assert!(dict.is_empty() && codes.is_empty());
    assert_eq!(dict_encode(&vec![1i64; 0x10000]), Err(Error::TooManyRows));
    let (dict, codes) = dict_encode(&vec![0xFFFF_FFFFi64; 1024]).unwrap();
    assert_eq!(dict, vec![0xFFFF_FFFF]);
    assert!(codes.iter().all(|c| *c == 0));
}

#[test]
fn dict_encode_bins_scenario() {
    let vals: Vec<Vec<u8>> = vec![
        b"hi there silly!".to_vec(),
        b"can see no way".to_vec(),
        b"no".to_vec(),
    ];
    let (dict, codes) = dict_encode_bins(&vals).unwrap();
    assert_eq!(
        dict,
        vec![
            b"can see no way".to_vec(),
            b"hi there silly!".to_vec(),
            b"no".to_vec()
        ]
    );
    assert_eq!(codes, vec![1, 0, 2]);
    let (dict, codes) = dict_encode_bins(&[b"ab".to_vec(), b"a".to_vec(), b"ab".to_vec(), vec![]]).unwrap();
    assert_eq!(dict, vec![vec![], b"a".to_vec(), b"ab".to_vec()]);
    assert_eq!(codes, vec![2, 1, 2, 0]);
}

#[test]
fn byte_order() {
    assert!(compare_bytes(b"a", b"b") < 0);
    assert!(compare_bytes(b"ab", b"a") > 0);
    assert_eq!(compare_bytes(b"same", b"same"), 0);
    assert!(compare_bytes(b"", b"x") < 0);
}

#[test]
fn bin_prefix_and_hash() {
    assert_eq!(bin_prefix(b"no"), 0x6e6f_0000_0000_0000);
    assert_eq!(bin_prefix(b"hi there silly!"), i64::from_be_bytes(*b"hi there"));
    assert_eq!(bin_prefix(b""), 0);
    let h = bin_hash(b"hi there silly!");
    assert_eq!(h, (rapidhash::v1::rapidhash_v1(b"hi there silly!") & 0xffff) as i64);
    assert!((0..=0xffff).contains(&h));
}

#[test]
fn heap_dedups_substrings() {
    let mut heap = Heap::new();
    assert_eq!(heap.add(b"hello world"), 0);
    assert_eq!(heap.add(b"world"), 6);
    assert_eq!(heap.data.len(), 11);
    assert_eq!(heap.add(b"!!"), 11);
    assert_eq!(heap.data, b"hello world!!".to_vec());
    assert_eq!(heap.get_at(6, 5), Some(b"world".to_vec()));
    assert_eq!(heap.get_at(12, 5), None);
    let again = heap.add(b"!!");
    assert_eq!(again, 11);
}

#[test]
fn code_chunk_plain_and_run_coded() {
    let mut w = MemWriter::new();
    let m = write_dict_codes(&[1, 2, 3], &mut w);
    assert!(!m.two_bytes && !m.run_coded);
    assert_eq!((m.min_dict_code, m.max_dict_code), (1, 3));
    assert_eq!(w.into_bytes(), vec![1, 2, 3]);

    let mut w = MemWriter::new();
    let m = write_dict_codes(&[0x0102, 0x0102, 0x0102, 0x0102, 5], &mut w);
    assert!(m.two_bytes && m.run_coded);
    assert_eq!((m.min_dict_code, m.max_dict_code), (5, 0x0102));
    // Run values' high lane, low lane, then run ends.
    assert_eq!(w.into_bytes(), vec![0x01, 0x00, 0x02, 0x05, 3, 0, 4, 0]);
}

#[test]
fn heap_offset_can_move_when_appended_bytes_straddle() {
    // Appending [1, 1] to [1] makes it occur first at 0, so a second add
    // returns 0 rather than the 1 that the first add returned.
    let mut heap = Heap::new();
    assert_eq!(heap.add(&[1]), 0);
    assert_eq!(heap.add(&[1, 1]), 1);
    assert_eq!(heap.add(&[1, 1]), 0);
    assert_eq!(heap.data, vec![1, 1, 1]);
}
