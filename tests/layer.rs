use submerge::{
    DictEntryChunkReader, Error, LayerReader, LayerWriter, LogicalType, MemReader, MemWriter, WordTy,
    LAYER_VERSION,
};

fn bytes_of(w: MemWriter) -> Vec<u8> {
    w.into_bytes()
}

#[test]
fn test_annotations() {
    let mut w = MemWriter::new();
    let bins: Vec<Vec<u8>> = vec![
        "hi there silly!".as_bytes().to_vec(),
        "can see no way".as_bytes().to_vec(),
        "no".as_bytes().to_vec(),
    ];
    LayerWriter::new(&mut w)
        .unwrap()
        .begin_block(&mut w)
        .unwrap()
        .begin_track(&mut w)
        .unwrap()
        .write_dict_encoded(&[0xaa55, 0xaa55, 0xaa55, 6, 6, 6, 5, 6, 5, 3, 4, 2_i64], &mut w)
        .unwrap()
        .finish_track(&mut w)
        .unwrap()
        .begin_track(&mut w)
        .unwrap()
        .write_dict_encoded_bins(&bins, &mut w)
        .unwrap()
        .finish_track(&mut w)
        .unwrap()
        .begin_track(&mut w)
        .unwrap()
        .write_dict_encoded(&[0xffff_ffff_i64; 1024], &mut w)
        .unwrap()
        .finish_track(&mut w)
        .unwrap()
        .finish_block(&mut w)
        .unwrap()
        .finish_layer(&mut w)
        .unwrap();
    let annotations = w.get_annotations();
    let mut dump = String::new();
    for a in annotations.records.iter() {
        dump += &format!("- {} ({} bytes)\n", a.labels.join("."), a.end - a.start);
    }
    println!("dump:\n{}", dump);
    assert!(annotations.records.iter().any(|a| a.labels.join(".") == "layer.magic"));
    let mut prev_end = 0;
    for a in annotations.records.iter() {
        assert!(a.start >= prev_end || a.start == a.end);
        if a.end > a.start {
            prev_end = a.end;
        }
    }
}

#[test]
fn empty_layer_scenario() {
    let mut w = MemWriter::new();
    LayerWriter::new(&mut w)
        .unwrap()
        .begin_block(&mut w)
        .unwrap()
        .finish_block(&mut w)
        .unwrap()
        .finish_layer(&mut w)
        .unwrap();
    let mut rd = w.try_into_reader();
    let layer = LayerReader::new(&mut rd).unwrap();
    assert_eq!(layer.meta.vers, LAYER_VERSION);
    assert_eq!(layer.meta.rows, 0);
    assert_eq!(layer.meta.cols, 0);
    assert_eq!(layer.meta.block_end_offsets.len(), 1);
    let block = layer.new_block_reader(0, &mut rd).unwrap();
    assert_eq!(block.meta.track_lo_vals.len(), 0);
    assert_eq!(layer.new_block_reader(1, &mut rd).err(), Some(Error::OutOfRange));
}

#[test]
fn single_int_track_scenario() {
    let mut w = MemWriter::new();
    let t = LayerWriter::new(&mut w)
        .unwrap()
        .begin_block(&mut w)
        .unwrap()
        .begin_track(&mut w)
        .unwrap()
        .write_dict_encoded(&[5, 5, 5, 6, 6, 6, 5, 6, 5, 3, 4, 2], &mut w)
        .unwrap();
    assert_eq!(t.info.lo_val, 2);
    assert_eq!(t.info.hi_val, 6);
    assert_eq!(t.info.rows, 12);
    assert_eq!(t.meta.dict_entry_count, 5);
    assert_eq!(t.meta.code_chunk_populated.count(), 1);
    assert!(!t.meta.code_chunk_two_bytes.get(0));
    assert_eq!(t.meta.code_chunk_mins, vec![0]);
    assert_eq!(t.meta.code_chunk_maxs, vec![4]);
    t.finish_track(&mut w)
        .unwrap()
        .finish_block(&mut w)
        .unwrap()
        .finish_layer(&mut w)
        .unwrap();
    let mut rd = MemReader::new(bytes_of(w));
    let layer = LayerReader::new(&mut rd).unwrap();
    assert_eq!(layer.meta.rows, 12);
    assert_eq!(layer.meta.cols, 1);
    let block = layer.new_block_reader(0, &mut rd).unwrap();
    assert_eq!(block.meta.track_lo_vals, vec![2]);
    assert_eq!(block.meta.track_hi_vals, vec![6]);
    assert_eq!(block.meta.track_rows, vec![12]);
    assert!(!block.is_implicit(0));
    let track = block.new_track_reader(0, false, &mut rd).unwrap();
    assert_eq!(track.meta.dict_entry_count, 5);
    assert_eq!(track.meta.code_chunk_mins, vec![0]);
    assert_eq!(track.meta.code_chunk_maxs, vec![4]);
    assert_eq!(track.meta.dict_val_chunk_tys.get_word_ty(0), WordTy::Word1);
    // From the first dict-entry chunk: five one-byte entries, then twelve
    // one-byte codes.
    assert_eq!(track.map.dict_chunk_offsets, vec![Some(0)]);
    assert_eq!(track.map.code_chunk_offsets, vec![Some(5)]);
    assert_eq!(track.map.heap_offset, Some(17));
}

#[test]
fn int_track_body_bytes() {
    let mut w = MemWriter::new();
    let t = LayerWriter::new(&mut w)
        .unwrap()
        .begin_block(&mut w)
        .unwrap()
        .begin_track(&mut w)
        .unwrap();
    let before = 8;
    let t = t.write_dict_encoded(&[7, 9, 7], &mut w).unwrap();
    let all = bytes_of(w);
    // Dictionary length 2, entries 7 and 9 less their minimum 7, then one
    // byte per code (run-end coding would not be smaller).
    assert_eq!(all[before..].to_vec(), vec![2, 0, 0, 2, 0, 1, 0]);
    assert_eq!(t.info.lo_val, 7);
}

#[test]
fn single_bin_track_scenario() {
    let bins: Vec<Vec<u8>> = vec![
        b"hi there silly!".to_vec(),
        b"can see no way".to_vec(),
        b"no".to_vec(),
    ];
    let mut w = MemWriter::new();
    let t = LayerWriter::new(&mut w)
        .unwrap()
        .begin_block(&mut w)
        .unwrap()
        .begin_track(&mut w)
        .unwrap()
        .write_dict_encoded_bins(&bins, &mut w)
        .unwrap();
    assert!(t.meta.dict_bin_large.get(0));
    assert_eq!(t.meta.dict_entry_count, 3);
    assert_eq!(t.info.lo_val, i64::from_be_bytes(*b"can see "));
    assert_eq!(t.info.hi_val, i64::from_be_bytes([b'n', b'o', 0, 0, 0, 0, 0, 0]));
    t.finish_track(&mut w)
        .unwrap()
        .finish_block(&mut w)
        .unwrap()
        .finish_layer(&mut w)
        .unwrap();
    let all = bytes_of(w);
    let text = String::from_utf8_lossy(&all).to_string();
    assert!(text.contains("can see no way"));
    assert!(text.contains("hi there silly!"));
    let mut rd = MemReader::new(all);
    let layer = LayerReader::new(&mut rd).unwrap();
    let block = layer.new_block_reader(0, &mut rd).unwrap();
    let track = block.new_track_reader(0, true, &mut rd).unwrap();
    assert!(track.meta.dict_bin_large.get(0));
    // The chunk holds hashes of unrecorded width, so what follows it has no
    // known offset.
    assert_eq!(track.map.dict_chunk_offsets, vec![Some(0)]);
    assert_eq!(track.map.code_chunk_offsets, vec![None]);
    assert_eq!(track.map.heap_offset, None);
    assert!(!track.meta.dict_bin_large.get(1));
    assert_eq!(track.meta.dict_entry_count, 3);
}

#[test]
fn large_duplicate_int_track_scenario() {
    let mut w = MemWriter::new();
    let t = LayerWriter::new(&mut w)
        .unwrap()
        .begin_block(&mut w)
        .unwrap()
        .begin_track(&mut w)
        .unwrap()
        .write_dict_encoded(&[0xFFFF_FFFF_i64; 1024], &mut w)
        .unwrap();
    assert_eq!(t.meta.dict_entry_count, 1);
    assert_eq!(t.meta.code_chunk_populated.count(), 4);
    for c in 0..4u8 {
        assert!(t.meta.code_chunk_run_coded.get(c));
        assert!(!t.meta.code_chunk_two_bytes.get(c));
    }
    assert_eq!(t.meta.code_chunk_mins, vec![0, 0, 0, 0]);
    assert_eq!(t.meta.code_chunk_maxs, vec![0, 0, 0, 0]);
    assert_eq!((t.info.lo_val, t.info.hi_val, t.info.rows), (0xFFFF_FFFF, 0xFFFF_FFFF, 1024));
}

#[test]
fn implicit_track_scenario() {
    let mut w = MemWriter::new();
    let t = LayerWriter::new(&mut w)
        .unwrap()
        .begin_block(&mut w)
        .unwrap()
        .begin_track(&mut w)
        .unwrap();
    let t = t.write_ints_detecting_implicit(&[10, 20, 30, 40], &mut w).unwrap();
    assert!(t.info.implicit);
    assert_eq!((t.info.lo_val, t.info.hi_val, t.info.rows), (10, 10, 4));
    let b = t.finish_track(&mut w).unwrap();
    assert_eq!(b.meta.track_lo_vals, vec![10]);
    assert_eq!(b.meta.track_hi_vals, vec![10]);
    assert!(b.meta.track_implicit.get(0));
    let t = b.begin_track(&mut w).unwrap();
    let t = t.write_ints_detecting_implicit(&[3, 3, 4, 4, 5], &mut w).unwrap();
    assert!(t.info.implicit);
    assert_eq!((t.info.lo_val, t.info.hi_val), (3, -2));
    let b = t.finish_track(&mut w).unwrap();
    let t = b.begin_track(&mut w).unwrap();
    let t = t.write_ints_detecting_implicit(&[1, 5, 2], &mut w).unwrap();
    assert!(!t.info.implicit);
    let l = t.finish_track(&mut w).unwrap().finish_block(&mut w).unwrap();
    l.finish_layer(&mut w).unwrap();
    let mut rd = w.try_into_reader();
    let layer = LayerReader::new(&mut rd).unwrap();
    let block = layer.new_block_reader(0, &mut rd).unwrap();
    assert!(block.is_implicit(0) && block.is_implicit(1) && !block.is_implicit(2));
    assert_eq!(block.meta.track_lo_vals, vec![10, 3, 1]);
    assert_eq!(block.meta.track_hi_vals, vec![10, -2, 5]);
}

#[test]
fn corrupted_magic_scenario() {
    let mut w = MemWriter::new();
    LayerWriter::new(&mut w)
        .unwrap()
        .begin_block(&mut w)
        .unwrap()
        .finish_block(&mut w)
        .unwrap()
        .finish_layer(&mut w)
        .unwrap();
    let mut bytes = bytes_of(w);
    for b in bytes.iter_mut().take(8) {
        *b = b'x';
    }
    let mut rd = MemReader::new(bytes);
    let err = LayerReader::new(&mut rd).err().unwrap();
    assert_eq!(err, Error::BadMagic);
    assert_eq!(err.message(), "bad magic number");
}

#[test]
fn truncated_and_short_content() {
    let mut rd = MemReader::new(b"subm".to_vec());
    assert_eq!(LayerReader::new(&mut rd).err(), Some(Error::UnexpectedEof));
    let mut w = MemWriter::new();
    LayerWriter::new(&mut w)
        .unwrap()
        .begin_block(&mut w)
        .unwrap()
        .finish_block(&mut w)
        .unwrap()
        .finish_layer(&mut w)
        .unwrap();
    let mut bytes = bytes_of(w);
    let n = bytes.len();
    // A footer length that reaches before the start of the content.
    bytes[n - 8..].copy_from_slice(&1000i64.to_le_bytes());
    let mut rd = MemReader::new(bytes.clone());
    assert_eq!(LayerReader::new(&mut rd).err(), Some(Error::FooterSeekUnderflow));
    bytes[n - 8..].copy_from_slice(&(-1i64).to_le_bytes());
    let mut rd = MemReader::new(bytes);
    assert_eq!(LayerReader::new(&mut rd).err(), Some(Error::NegativeFooterLen));
}

#[test]
fn future_version_is_refused() {
    let mut w = MemWriter::new();
    LayerWriter::new(&mut w)
        .unwrap()
        .begin_block(&mut w)
        .unwrap()
        .finish_block(&mut w)
        .unwrap()
        .finish_layer(&mut w)
        .unwrap();
    let mut bytes = bytes_of(w);
    let n = bytes.len();
    let footer_len = i64::from_le_bytes(bytes[n - 8..].try_into().unwrap()) as usize;
    let start = n - 8 - footer_len;
    bytes[start..start + 8].copy_from_slice(&1i64.to_le_bytes());
    let mut rd = MemReader::new(bytes);
    assert_eq!(LayerReader::new(&mut rd).err(), Some(Error::FutureVersion));
}

#[test]
fn too_many_rows_is_refused() {
    let mut w = MemWriter::new();
    let t = LayerWriter::new(&mut w)
        .unwrap()
        .begin_block(&mut w)
        .unwrap()
        .begin_track(&mut w)
        .unwrap();
    assert_eq!(t.write_dict_encoded(&vec![0i64; 0x10000], &mut w).err(), Some(Error::TooManyRows));
}

#[test]
fn too_many_tracks_is_refused() {
    let mut w = MemWriter::new();
    let mut b = LayerWriter::new(&mut w).unwrap().begin_block(&mut w).unwrap();
    for _ in 0..256 {
        b = b.begin_track(&mut w).unwrap().finish_track(&mut w).unwrap();
    }
    assert_eq!(b.meta.track_end_offsets.len(), 256);
    assert_eq!(b.begin_track(&mut w).err(), Some(Error::TooManyTracks));
}

#[test]
fn rewriting_read_metadata_gives_the_same_bytes() {
    let mut w = MemWriter::new();
    LayerWriter::new(&mut w)
        .unwrap()
        .begin_block(&mut w)
        .unwrap()
        .begin_track(&mut w)
        .unwrap()
        .write_dict_encoded(&[3, 1, 4, 1, 5, 9, 2, 6], &mut w)
        .unwrap()
        .finish_track(&mut w)
        .unwrap()
        .finish_block(&mut w)
        .unwrap()
        .finish_layer(&mut w)
        .unwrap();
    let bytes = bytes_of(w);
    let mut rd = MemReader::new(bytes.clone());
    let layer = LayerReader::new(&mut rd).unwrap();
    let block = layer.new_block_reader(0, &mut rd).unwrap();
    let track = block.new_track_reader(0, false, &mut rd).unwrap();
    let mut again = MemWriter::new();
    track.meta.write(&mut again).unwrap();
    let track_footer = again.into_bytes();
    let end = block.meta.track_end_offsets[0] as usize;
    assert_eq!(bytes[end - track_footer.len()..end].to_vec(), track_footer);
    let mut again = MemWriter::new();
    block.meta.write(&mut again).unwrap();
    let block_footer = again.into_bytes();
    let end = layer.meta.block_end_offsets[0] as usize;
    assert_eq!(bytes[end - block_footer.len()..end].to_vec(), block_footer);
    let mut again = MemWriter::new();
    layer.meta.write(&mut again).unwrap();
    let layer_footer = again.into_bytes();
    assert_eq!(bytes[bytes.len() - layer_footer.len()..].to_vec(), layer_footer);
}

#[test]
fn independent_readers() {
    let mut rd = MemReader::new(vec![1, 0, 2, 0, 0, 0, 0, 0, 0, 0]);
    assert_eq!(rd.read_le_u16(), Ok(1));
    let mut other = rd.try_clone_independent();
    assert_eq!(other.pos(), 0);
    assert_eq!(rd.read_le_i64(), Ok(2));
    assert_eq!(other.read_le_u16(), Ok(1));
    assert_eq!(rd.read_le_u16(), Err(Error::UnexpectedEof));
}

#[test]
fn logical_type_codes() {
    assert_eq!(LogicalType::from_u8_low_2_bits(0), LogicalType::Bit);
    assert_eq!(LogicalType::from_u8_low_2_bits(1), LogicalType::Int);
    assert_eq!(LogicalType::from_u8_low_2_bits(2), LogicalType::Flo);
    assert_eq!(LogicalType::from_u8_low_2_bits(3), LogicalType::Bin);
    assert_eq!(LogicalType::from_u8_low_2_bits(0b1111_1101), LogicalType::Int);
}

#[test]
fn dict_entry_chunk_reader_widths() {
    let mut w = MemWriter::new();
    let vals: Vec<i64> = (0..300).map(|i| i * 1000).collect();
    LayerWriter::new(&mut w)
        .unwrap()
        .begin_block(&mut w)
        .unwrap()
        .begin_track(&mut w)
        .unwrap()
        .write_dict_encoded(&vals, &mut w)
        .unwrap()
        .finish_track(&mut w)
        .unwrap()
        .finish_block(&mut w)
        .unwrap()
        .finish_layer(&mut w)
        .unwrap();
    let mut rd = w.try_into_reader();
    let layer = LayerReader::new(&mut rd).unwrap();
    let block = layer.new_block_reader(0, &mut rd).unwrap();
    let track = block.new_track_reader(0, false, &mut rd).unwrap();
    assert_eq!(track.meta.dict_entry_count, 300);
    // Entries 0..256 span 0..255000, which needs four bytes; entries
    // 256..300 span 256000..299000 less 256000, which needs two.
    let c0 = DictEntryChunkReader::new(&track, 0);
    let c1 = DictEntryChunkReader::new(&track, 1);
    assert_eq!(c0.meta.val_ty, Some(WordTy::Word4));
    assert_eq!(c1.meta.val_ty, Some(WordTy::Word2));
    assert!(!c0.meta.any_bin_large && c0.meta.bin_off_ty.is_none());
    assert_eq!(track.map.dict_chunk_offsets, vec![Some(0), Some(256 * 4)]);
    assert_eq!(track.map.code_chunk_offsets[0], Some(256 * 4 + 44 * 2));
    // Codes above 0xFF need two bytes.
    assert!(!track.meta.code_chunk_two_bytes.get(0));
    assert!(track.meta.code_chunk_two_bytes.get(1));
    assert_eq!(track.meta.code_chunk_mins, vec![0, 256]);
    assert_eq!(track.meta.code_chunk_maxs, vec![255, 299]);
}

#[test]
fn falling_and_constant_sequences_stay_explicit() {
    let mut w = MemWriter::new();
    let t = LayerWriter::new(&mut w)
        .unwrap()
        .begin_block(&mut w)
        .unwrap()
        .begin_track(&mut w)
        .unwrap();
    let t = t.write_ints_detecting_implicit(&[10, 9, 8], &mut w).unwrap();
    assert!(!t.info.implicit);
    assert_eq!((t.info.lo_val, t.info.hi_val), (8, 10));
    let t = t.finish_track(&mut w).unwrap().begin_track(&mut w).unwrap();
    let t = t.write_ints_detecting_implicit(&[5, 5, 5], &mut w).unwrap();
    assert!(!t.info.implicit);
    assert_eq!(t.meta.dict_entry_count, 1);
}

#[test]
fn negative_row_count_is_refused() {
    let mut w = MemWriter::new();
    LayerWriter::new(&mut w)
        .unwrap()
        .begin_block(&mut w)
        .unwrap()
        .finish_block(&mut w)
        .unwrap()
        .finish_layer(&mut w)
        .unwrap();
    let mut bytes = bytes_of(w);
    let n = bytes.len();
    let footer_len = i64::from_le_bytes(bytes[n - 8..].try_into().unwrap()) as usize;
    let start = n - 8 - footer_len;
    bytes[start + 8..start + 16].copy_from_slice(&(-1i64).to_le_bytes());
    let mut rd = MemReader::new(bytes);
    assert_eq!(LayerReader::new(&mut rd).err(), Some(Error::NegativeCount));
}
