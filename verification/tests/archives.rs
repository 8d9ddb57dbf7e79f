use dearlystars::blz::{blz_compress, blz_compress_accepts, blz_decompress, blz_is_decodable, BlzError};
use dearlystars::ez::{
    do_not_compress, extract_bin, extract_bin_accepts, hex4_chars, indent, padding_alignment, parse_hex,
    parse_index, read_idx, EzBuilder, EzError, EzTableEntry,
};
use dearlystars::lz10::{compress, decompress, is_decodable, Lz10Error};

fn chars(s: &str) -> Vec<char> {
    s.chars().collect()
}

#[test]
fn lz10_literals() {
    let c = compress(&[0x41, 0x42, 0x43]).unwrap();
    assert_eq!(c, vec![0x10, 3, 0, 0, 0x00, 0x41, 0x42, 0x43]);
    assert_eq!(decompress(&c), Ok(vec![0x41, 0x42, 0x43]));
}

#[test]
fn lz10_back_reference() {
    let data = [0xAAu8; 10];
    let c = compress(&data).unwrap();
    assert_eq!(c, vec![0x10, 10, 0, 0, 0x20, 0xAA, 0xAA, 0x50, 0x01]);
    assert_eq!(decompress(&c), Ok(data.to_vec()));
}

#[test]
fn lz10_roundtrip_of_text() {
    let data: Vec<u8> = b"the quick brown fox jumps over the lazy dog; the quick brown fox again".to_vec();
    let c = compress(&data).unwrap();
    assert!(c.len() < data.len() + 4);
    assert!(is_decodable(&c));
    assert_eq!(decompress(&c), Ok(data));
}

#[test]
fn lz10_errors() {
    assert_eq!(decompress(&[0x11, 0, 0, 0]), Err(Lz10Error::BadMagic));
    assert_eq!(decompress(&[0x10, 5, 0, 0, 0x00, 1]), Err(Lz10Error::UnexpectedEof));
    assert_eq!(decompress(&[0x10, 1, 0]), Err(Lz10Error::UnexpectedEof));
    assert_eq!(decompress(&[0x10, 2, 0, 0, 0x40, 1, 0x00, 0x00]), Err(Lz10Error::Overrun));
    assert!(!is_decodable(&[0x10, 4, 0, 0, 0x80, 0x00, 0x05]));
}

#[test]
fn blz_roundtrip() {
    let mut data = vec![0u8; 64];
    for (i, b) in data.iter_mut().enumerate() {
        *b = (i % 4) as u8;
    }
    assert!(blz_compress_accepts(&data, 0));
    let c = blz_compress(&data, 0).unwrap().unwrap();
    assert!(c.len() < data.len());
    assert!(blz_is_decodable(&c));
    assert_eq!(blz_decompress(&c), Ok(data));
}

#[test]
fn blz_keeps_the_uncompressed_region() {
    let mut data = vec![7u8; 16];
    data.extend(std::iter::repeat(3u8).take(48));
    let c = blz_compress(&data, 16).unwrap().unwrap();
    assert_eq!(&c[0..16], &data[0..16]);
    assert_eq!(blz_decompress(&c), Ok(data));
}

#[test]
fn blz_errors() {
    assert_eq!(blz_compress(&[1, 2, 3], 4), Err(BlzError::MinRegionTooLarge));
    assert!(!blz_compress_accepts(&[1, 2, 3], 3));
}

#[test]
fn ez_names() {
    assert_eq!(indent(2), chars("        "));
    assert!(do_not_compress(&chars("FONT.NFTR")));
    assert!(do_not_compress(&chars("AI_WALK.NSBCA")));
    assert!(!do_not_compress(&chars("ZZ_WALK.NSBCA")));
    assert!(!do_not_compress(&chars("A.TXT")));
    assert_eq!(padding_alignment(&chars("X.NCLR")), 0x10);
    assert_eq!(padding_alignment(&chars("X.NCGR")), 0x20);
    assert_eq!(hex4_chars(0x0A3F), chars("0A3F"));
    assert_eq!(parse_hex(&chars("0a3f")), Some(0x0A3F));
    assert_eq!(parse_hex(&chars("+FF")), Some(0xFF));
    assert_eq!(parse_hex(&chars("10000")), None);
    assert_eq!(parse_hex(&chars("")), None);
}

#[test]
fn ez_index_listing() {
    assert_eq!(parse_index(&[]), Err(EzError::IndexEmpty));
    assert_eq!(parse_index(&["xyz"]), Err(EzError::IndexHex));
    assert_eq!(
        parse_index(&["00FF", "DIR_BEGIN", "    A.TXT", "DIR_END"]),
        Ok((0xFF, vec!["DIR_BEGIN".to_string(), "A.TXT".to_string(), "DIR_END".to_string()]))
    );
}

#[test]
fn ez_build_then_extract() {
    let mut b = EzBuilder::new(0x1234);
    assert_eq!(b.entry_path("DIR_BEGIN"), None);
    b.add_entry("DIR_BEGIN", &[]).unwrap();
    assert_eq!(b.entry_path("A.TXT"), Some(vec!["DIR".to_string(), "0001_A.TXT".to_string()]));
    let a = vec![0xAAu8; 40];
    b.add_entry("A.TXT", &a).unwrap();
    let c = vec![1u8, 2, 3];
    b.add_entry("C.BIN", &c).unwrap();
    b.add_entry("DIR_END", &[]).unwrap();
    let (bin, idx) = b.finish();
    assert_eq!(&bin[0..8], &[0x45, 0x5A, 0x50, 0x00, 0x0E, 0x07, 0xD9, 0x07]);
    assert_eq!(&idx[0..8], &[0x45, 0x5A, 0x54, 0x00, 0x0E, 0x07, 0xD9, 0x07]);
    let entries = read_idx(&idx).unwrap();
    assert_eq!(entries.len(), 4);
    assert!(entries[1].is_compressed());
    assert_eq!(entries[1].decompressed_size(), 40);
    assert!(!entries[2].is_compressed());
    assert_eq!(entries[2].decompressed_size(), 3);
    assert!(extract_bin_accepts(&bin, &entries));
    let plan = extract_bin(&bin, &entries).unwrap();
    assert_eq!(plan.index_lines, vec!["1234", "DIR_BEGIN", "    A.TXT", "    C.BIN", "DIR_END"]);
    assert_eq!(plan.actions.len(), 3);
    assert!(plan.actions[0].is_dir);
    assert_eq!(plan.actions[0].path, vec!["DIR".to_string()]);
    assert_eq!(plan.actions[1].path, vec!["DIR".to_string(), "0001_A.TXT".to_string()]);
    assert_eq!(plan.actions[1].data, a);
    assert_eq!(plan.actions[2].path, vec!["DIR".to_string(), "0002_C.BIN".to_string()]);
    assert_eq!(plan.actions[2].data, c);
}

#[test]
fn ez_errors() {
    assert_eq!(read_idx(&[0; 4]), Err(EzError::UnexpectedEof));
    assert_eq!(read_idx(&[0; 16]), Err(EzError::IdxHeader));
    let mut b = EzBuilder::new(0);
    b.add_entry("X_BEGIN", &[]).unwrap();
    assert_eq!(b.add_entry("Y_END", &[]), Err(EzError::EndMismatch));
    let bad = [EzTableEntry { file_offset: 0, size_and_compressed_flag: 0, name_offset: 0 }];
    assert_eq!(extract_bin(&[0u8; 16], &bad).err(), Some(EzError::BinHeader));
}

#[test]
fn listing_read_back() {
    let mut b = EzBuilder::new(0xBEEF);
    b.add_entry("DIR_BEGIN", &[]).unwrap();
    b.add_entry("A.TXT", &[5u8; 3]).unwrap();
    b.add_entry("DIR_END", &[]).unwrap();
    let (bin, idx) = b.finish();
    let entries = read_idx(&idx).unwrap();
    let plan = extract_bin(&bin, &entries).unwrap();
    let lines: Vec<&str> = plan.index_lines.iter().map(|s| s.as_str()).collect();
    assert_eq!(
        parse_index(&lines),
        Ok((0xBEEF, vec!["DIR_BEGIN".to_string(), "A.TXT".to_string(), "DIR_END".to_string()]))
    );
}

#[test]
fn decompress_refuses_region_past_start() {
    assert_eq!(blz_decompress(&[0x10, 0x00, 0x00, 0x08, 0x00, 0x00, 0x00, 0x00]), Err(BlzError::RegionPastStart));
}
