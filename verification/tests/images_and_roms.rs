use dearlystars::exec_strings::{exec_file_path, string_patch, StringInjectionError};
use dearlystars::gld::{
    color_distance, get_color_index, pack_2bits_be, pack_2bits_le, pack_4bits_be, pack_4bits_le, u16_to_color,
    u16_to_transparency, unpack_2bits_le, unpack_4bits_le, Gld, GldError,
};
use dearlystars::modcrypt::aes_ctr;
use dearlystars::nds_build::{add_name_table, arm7_addresses, arm9_addresses, size_fields};
use dearlystars::blz::blz_compress;
use dearlystars::exec_pack::{pack_arm9, pack_executable, pack_parts, parts_fit_packing};
use dearlystars::nds_rom::{banner_size, read_fnt, read_from_rom, rom_is_readable, DsiExtraFields, DsiLayout};
use dearlystars::nds_tree::{format_overlay_name, format_overlay_string, write_overlay_table, OverlayEntry, SourceTreeNode};
use dearlystars::nds_write::{data_file_paths, nds_fits, write_nds_rom, NdsBuildError, NdsParts};

#[test]
fn bit_unpacking() {
    assert_eq!(unpack_2bits_le(&[0b1110_0100]), vec![0, 1, 2, 3]);
    assert_eq!(unpack_4bits_le(&[0xAB, 0x01]), vec![0xB, 0xA, 0x1, 0x0]);
}

#[test]
fn bit_packing() {
    assert_eq!(pack_2bits_le(&[0, 1, 2, 3, 1], 0xFF), vec![0xE4, 0xFD]);
    assert_eq!(pack_4bits_le(&[1, 2, 3], 0x50), vec![0x21, 0x53]);
    assert_eq!(pack_2bits_be(&[0, 1, 2, 3, 1]), vec![0x1B, 0x40]);
    assert_eq!(pack_4bits_be(&[1, 2, 3]), vec![0x12, 0x30]);
}

#[test]
fn pack_undoes_unpack() {
    let data = [0x00u8, 0x5A, 0xFF, 0x93];
    assert_eq!(pack_2bits_le(&unpack_2bits_le(&data), 0), data.to_vec());
    assert_eq!(pack_4bits_le(&unpack_4bits_le(&data), 0), data.to_vec());
}

#[test]
fn colors() {
    assert_eq!(u16_to_color(0x7FFF), [255, 255, 255]);
    assert_eq!(u16_to_color(0x001F), [255, 0, 0]);
    assert_eq!(u16_to_color(0x0421), [8, 8, 8]);
    assert!(u16_to_transparency(0x8000));
    assert!(!u16_to_transparency(0x7FFF));
    assert_eq!(color_distance(&[255, 0, 0], 0x001F), 0);
    assert_eq!(color_distance(&[0, 0, 0], 0x7FFF), 93);
    assert_eq!(get_color_index(&[8, 8, 8], &[0x7FFF, 0x0421, 0x0000]), 1);
    assert_eq!(get_color_index(&[0, 0, 8], &[0x7FFF, 0x0421]), 1);
    assert_eq!(get_color_index(&[0, 0, 0], &[]), 0);
}

fn small_gld() -> Vec<u8> {
    let mut d = Vec::new();
    d.extend_from_slice(b"GLD\0");
    d.extend_from_slice(&2u16.to_le_bytes());
    d.extend_from_slice(&1u16.to_le_bytes());
    d.extend_from_slice(&0u32.to_le_bytes());
    d.extend_from_slice(&0u32.to_le_bytes());
    d.extend_from_slice(&0u32.to_le_bytes());
    d.extend_from_slice(&4u32.to_le_bytes());
    d.extend_from_slice(&4u32.to_le_bytes());
    d.extend_from_slice(&1u32.to_le_bytes());
    d.extend_from_slice(&[0, 1, 1, 0]);
    d.extend_from_slice(&0x7FFFu16.to_le_bytes());
    d.extend_from_slice(&0x801Fu16.to_le_bytes());
    d.extend_from_slice(&0u32.to_le_bytes());
    for v in [0u16, 4, 2, 2, 0, 0, 0, 0, 0, 0] {
        d.extend_from_slice(&v.to_le_bytes());
    }
    d
}

#[test]
fn gld_read_write_extract() {
    let d = small_gld();
    let g = Gld::read(&d, "sheet").unwrap();
    assert_eq!(g.file_stem, "sheet");
    assert_eq!(g.pixel_data, vec![0, 1, 1, 0]);
    assert_eq!(g.palettes, vec![(0u16, vec![0x7FFFu16, 0x801F])]);
    assert_eq!(g.footer_entries.len(), 1);
    assert_eq!(g.render_width(&g.footer_entries[0]), 2);
    assert_eq!(g.write(), d);
    let img = g.extract_png(0).unwrap();
    assert_eq!((img.width, img.height, img.bit_depth), (2, 2, 8));
    assert_eq!(img.palette, vec![255, 255, 255, 255, 0, 0]);
    assert_eq!(img.trns, vec![0, 255]);
    assert_eq!(img.data, vec![0, 1, 1, 0]);
}

#[test]
fn gld_inject() {
    let d = small_gld();
    let mut g = Gld::read(&d, "sheet").unwrap();
    let buffer = [255u8, 0, 0, 255, 255, 255, 250, 0, 0, 0, 0, 0];
    g.inject_png(0, 2, 2, false, false, &buffer).unwrap();
    assert_eq!(g.pixel_data, vec![1, 0, 1, 1]);
    assert_eq!(g.inject_png(0, 3, 2, false, false, &[0; 18]), Err(GldError::Dimensions));
    assert_eq!(g.inject_png(0, 2, 2, true, false, &buffer), Err(GldError::Animated));
}

#[test]
fn gld_read_errors() {
    assert_eq!(Gld::read(&[], "x").err(), Some(GldError::NoData));
    let mut d = small_gld();
    d[4] = 3;
    assert_eq!(Gld::read(&d, "x").err(), Some(GldError::BadHeader));
    let d = small_gld();
    assert_eq!(Gld::read(&d[0..40], "x").err(), Some(GldError::UnexpectedEof));
}

#[test]
fn overlay_names_and_table() {
    let e = OverlayEntry {
        id: 7,
        ram_address: 0x0200_0000,
        ram_size: 0x100,
        bss_size: 0,
        sinit_init: 0,
        sinit_init_end: 0,
        file_id: 7,
        compressed_size_flag: 0x0300_0100,
    };
    assert_eq!(format_overlay_string(&e), "overlay_0007.bin");
    assert_eq!(format_overlay_name(&e), "overlay_0007.bin");
    assert!(e.is_compressed());
    let t = write_overlay_table(&[e, e]);
    assert_eq!(t.len(), 64);
    assert_eq!(&t[0..8], &[7, 0, 0, 0, 0, 0, 0, 2]);
    assert_eq!(&t[28..32], &[0x00, 0x01, 0x00, 0x03]);
}

#[test]
fn rom_sizes_and_addresses() {
    assert_eq!(size_fields(0x1234), (0x1234, 0));
    assert_eq!(size_fields(0x30001), (0x30004, 1));
    assert_eq!(arm9_addresses(0, 0), (0x0200_0000, 0x0200_0000));
    assert_eq!(arm9_addresses(0x0200_0800, 0), (0x0200_0800, 0x0200_0800));
    assert_eq!(arm7_addresses(0, 0x0238_0000), (0x0238_0000, 0x0238_0000));
    assert_eq!(arm7_addresses(1, 2), (1, 2));
    assert_eq!(banner_size(1), 0x840);
    assert_eq!(banner_size(0x0103), 0x23C0);
    assert_eq!(banner_size(9), 0x840);
}

#[test]
fn modcrypt_is_its_own_inverse() {
    let plain: Vec<u8> = (0..48u8).collect();
    let mut data = plain.clone();
    aes_ctr(&mut data, 0x0123_4567_89AB_CDEF_0011_2233_4455_6677, 5);
    assert_ne!(data, plain);
    aes_ctr(&mut data, 0x0123_4567_89AB_CDEF_0011_2233_4455_6677, 5);
    assert_eq!(data, plain);
}

#[test]
fn string_table_rows() {
    let row = |v: &[&str]| v.iter().map(|s| s.to_string()).collect::<Vec<String>>();
    assert_eq!(string_patch(&row(&["jp", ""])), Ok(None));
    assert_eq!(string_patch(&row(&["jp", "AB", "x", "0x10", "4"])), Ok(Some((0x10, vec![b'A', b'B', 0, 0]))));
    assert_eq!(string_patch(&row(&["jp", "AB", "x", "zz", "4"])), Err(StringInjectionError::Offset));
    assert_eq!(string_patch(&row(&["jp", "AB", "x", "10", "n"])), Err(StringInjectionError::MaxBytes));
    assert_eq!(string_patch(&row(&["jp", "ABCD", "x", "10", "4"])), Err(StringInjectionError::TooLong));
    assert_eq!(exec_file_path("overlay_0001.bin"), vec!["overlay".to_string(), "overlay_0001.bin".to_string()]);
    assert_eq!(exec_file_path("arm9.bin"), vec!["arm9.bin".to_string()]);
}

fn rgb_png(width: u32, height: u32, data: &[u8]) -> Vec<u8> {
    let mut out = Vec::new();
    {
        let mut encoder = png::Encoder::new(&mut out, width, height);
        encoder.set_color(png::ColorType::Rgb);
        encoder.set_depth(png::BitDepth::Eight);
        let mut writer = encoder.write_header().unwrap();
        writer.write_image_data(data).unwrap();
        writer.finish().unwrap();
    }
    out
}

#[test]
fn gld_png_files() {
    let d = small_gld();
    let g = Gld::read(&d, "sheet").unwrap();
    let file = g.extract_png_file(0).unwrap().unwrap();
    assert_eq!(&file[0..8], &[0x89, b'P', b'N', b'G', 0x0D, 0x0A, 0x1A, 0x0A]);
    let mut decoder = png::Decoder::new(std::io::Cursor::new(&file));
    decoder.set_transformations(png::Transformations::IDENTITY);
    let mut reader = decoder.read_info().unwrap();
    let mut buf = vec![0u8; reader.output_buffer_size().unwrap()];
    reader.next_frame(&mut buf).unwrap();
    assert_eq!(buf, vec![0, 1, 1, 0]);
}

#[test]
fn gld_inject_png_file() {
    let d = small_gld();
    let mut g = Gld::read(&d, "sheet").unwrap();
    let file = rgb_png(2, 2, &[255, 0, 0, 255, 255, 255, 250, 0, 0, 0, 0, 0]);
    assert_eq!(g.try_inject_png_file(0, &file), Some(Ok(())));
    assert_eq!(g.pixel_data, vec![1, 0, 1, 1]);
    let wide = rgb_png(3, 2, &[0; 18]);
    assert_eq!(g.inject_png_file(0, &wide), Err(GldError::Dimensions));
    assert_eq!(g.inject_png_file(0, &[1, 2, 3]), Err(GldError::Png));
}

#[test]
fn name_table_read_back() {
    let root = SourceTreeNode {
        name: String::new(),
        children: Some(vec![
            SourceTreeNode {
                name: "D".to_string(),
                children: Some(vec![SourceTreeNode { name: "B.TXT".to_string(), children: None }]),
            },
            SourceTreeNode { name: "A.BIN".to_string(), children: None },
        ]),
    };
    let (table, fnt_size, fat_size) = add_name_table(&root, 0);
    assert_eq!(fnt_size as usize, table.len());
    assert_eq!(fat_size, 16);
    let fat = vec![(100u32, 5u32), (200u32, 7u32)];
    let tree = read_fnt(&table, &fat, 0).unwrap();
    let kids = tree.children.unwrap();
    assert_eq!(kids.len(), 2);
    assert_eq!(kids[0].name, "A.BIN");
    assert_eq!((kids[0].pos, kids[0].size), (100, 5));
    assert!(kids[0].children.is_none());
    assert_eq!(kids[1].name, "D");
    let inner = kids[1].children.as_ref().unwrap();
    assert_eq!(inner.len(), 1);
    assert_eq!(inner[0].name, "B.TXT");
    assert_eq!((inner[0].pos, inner[0].size), (200, 7));
}

fn small_parts() -> NdsParts {
    let mut arm9 = vec![0u8; 0x3F00];
    arm9[0x3E00] = 0x12;
    let mut header = vec![0u8; 0x180];
    header[0x24] = 0x00;
    NdsParts {
        header,
        arm9,
        arm9_overlay_table: vec![],
        arm9_overlays: vec![],
        arm7: vec![7u8; 10],
        arm7_overlay_table: vec![],
        arm7_overlays: vec![],
        name_table: vec![8u8, 0, 0, 0, 0, 0, 1, 0, 0],
        banner: vec![0xBB; 4],
        files: vec![vec![1, 2, 3]],
    }
}

#[test]
fn rom_layout() {
    let p = small_parts();
    assert!(nds_fits(&p));
    let rom = write_nds_rom(&p).unwrap();
    let le32 = |pos: usize| u32::from_le_bytes(rom[pos..pos + 4].try_into().unwrap());
    assert_eq!(le32(0x84), 0x200);
    assert_eq!(le32(0x20), 0x200);
    assert_eq!(le32(0x24), 0x0200_0000);
    assert_eq!(le32(0x2C), 0x3F00);
    assert_eq!(le32(0x30), 0x8000);
    assert_eq!(le32(0x34), 0x037F_8000);
    assert_eq!(le32(0x3C), 12);
    assert_eq!(le32(0x50), 0);
    let fnt = le32(0x40) as usize;
    assert_eq!(fnt, 0x8200);
    assert_eq!(le32(0x44), 9);
    let fat = le32(0x48) as usize;
    assert_eq!(fat, 0x8400);
    assert_eq!(le32(0x4C), 8);
    let banner = le32(0x68) as usize;
    assert_eq!(banner, 0x8600);
    assert_eq!(&rom[banner..banner + 4], &[0xBB; 4]);
    let top = u32::from_le_bytes(rom[fat..fat + 4].try_into().unwrap()) as usize;
    let bottom = u32::from_le_bytes(rom[fat + 4..fat + 8].try_into().unwrap()) as usize;
    assert_eq!(top, 0x8800);
    assert_eq!(&rom[top..bottom], &[1, 2, 3]);
    assert_eq!(&rom[0x8000..0x800A], &[7u8; 10]);
    assert_eq!(le32(0x80) as usize, rom.len());
    assert_eq!(rom.len(), 0x8804);
    assert_eq!(rom[0x14], 0);
    assert_eq!(rom[0xC0], 0x24);
}

#[test]
fn rom_errors() {
    let mut p = small_parts();
    p.header = vec![0u8; 0x100];
    assert_eq!(write_nds_rom(&p), Err(NdsBuildError::HeaderTooShort));
    let mut p = small_parts();
    p.arm9 = vec![0u8; 8];
    assert_eq!(write_nds_rom(&p), Err(NdsBuildError::Arm9TooShort));
    let mut p = small_parts();
    p.arm9 = vec![0u8; 0x100];
    assert_eq!(write_nds_rom(&p), Err(NdsBuildError::NoSecureArea));
    let mut p = small_parts();
    p.arm9[0x3E00..0x3E08].copy_from_slice(&[0xFF, 0xDE, 0xFF, 0xE7, 0xFF, 0xDE, 0xFF, 0xE7]);
    assert_eq!(write_nds_rom(&p), Err(NdsBuildError::SecureAreaDecrypted));
}

#[test]
fn data_paths_in_id_order() {
    let root = SourceTreeNode {
        name: String::new(),
        children: Some(vec![
            SourceTreeNode {
                name: "D".to_string(),
                children: Some(vec![SourceTreeNode { name: "B.TXT".to_string(), children: None }]),
            },
            SourceTreeNode { name: "A.BIN".to_string(), children: None },
        ]),
    };
    assert_eq!(data_file_paths(&root), Some(vec!["A.BIN".to_string(), "D/B.TXT".to_string()]));
}

fn overlay_entry(id: u32, file_id: u32, flag: u32) -> OverlayEntry {
    OverlayEntry { id, ram_address: 0, ram_size: 0, bss_size: 0, sinit_init: 0, sinit_init_end: 0, file_id, compressed_size_flag: flag }
}

#[test]
fn overlays_read_back_decompressed() {
    let plain: Vec<u8> = (0..512u32).map(|i| (i % 7) as u8).collect();
    let packed = blz_compress(&plain, 0).unwrap().unwrap();
    assert!(packed.len() < plain.len());
    let raw = vec![9u8, 8, 7, 6];
    let entries = [
        overlay_entry(0, 0, 0x0300_0000 | packed.len() as u32),
        overlay_entry(1, 1, 0),
    ];
    let mut p = small_parts();
    p.arm9_overlay_table = write_overlay_table(&entries);
    p.arm9_overlays = vec![packed.clone(), raw.clone()];
    p.name_table = vec![8u8, 0, 0, 0, 2, 0, 1, 0, 0];
    assert!(nds_fits(&p));
    let rom = write_nds_rom(&p).unwrap();
    assert!(rom_is_readable(&rom));
    let layout = read_from_rom(&rom).unwrap();
    assert_eq!(layout.arm9_overlays.len(), 2);
    assert!(layout.arm7_overlays.is_empty());
    assert_eq!(layout.arm9_overlays[0], entries[0]);
    assert_eq!(layout.arm9_overlays[1], entries[1]);
    assert!(layout.overlay_is_openable(&rom, &entries[0]));
    assert!(layout.overlay_is_openable(&rom, &entries[1]));
    assert_eq!(layout.open_overlay(&rom, &entries[0]), plain);
    assert_eq!(layout.open_overlay(&rom, &entries[1]), raw);
    assert!(!layout.overlay_is_openable(&rom, &overlay_entry(2, 2, 0)));
}

fn dsi_layout(encrypted: bool, crypt_start: u32, crypt_size: u32) -> DsiLayout {
    let mut raw = vec![0u8; 0xE80];
    let mut put = |off: usize, v: u32| raw[off..off + 4].copy_from_slice(&v.to_le_bytes());
    put(0x40, 0x10);
    put(0x4C, 0x20);
    put(0xA0, crypt_start);
    put(0xA4, crypt_size);
    put(0x50, 0x40);
    put(0x5C, 0x8);
    DsiLayout {
        dsi_fields: DsiExtraFields { raw },
        arm9i_has_footer: true,
        is_modcrypted: encrypted,
        key: 0x0011_2233_4455_6677_8899_AABB_CCDD_EEFF,
        iv1: 7,
        iv2: 9,
    }
}

#[test]
fn dsi_binaries() {
    let d: Vec<u8> = (0..0x60u8).collect();
    let plain = dsi_layout(false, 0, 0);
    assert!(plain.binary_is_readable(&d, false));
    assert_eq!(plain.open_binary(&d, false), d[0x10..0x3C].to_vec());
    assert_eq!(plain.open_binary(&d, true), d[0x40..0x48].to_vec());
    let enc = dsi_layout(true, 0x20, 0x10);
    assert!(enc.binary_is_readable(&d, false));
    let mut expected = d[0x10..0x3C].to_vec();
    let mut mid = expected[0x10..0x20].to_vec();
    aes_ctr(&mut mid, enc.key, enc.iv1);
    expected[0x10..0x20].copy_from_slice(&mid);
    assert_eq!(enc.open_binary(&d, false), expected);
    assert!(!dsi_layout(true, 0x8, 0x10).binary_is_readable(&d, false));
    assert!(!dsi_layout(true, 0x20, 0x8).binary_is_readable(&d, false));
    assert!(!dsi_layout(true, 0x30, 0x20).binary_is_readable(&d, false));
}

#[test]
fn binaries_read_back() {
    let p = small_parts();
    let rom = write_nds_rom(&p).unwrap();
    let le32 = |pos: usize| u32::from_le_bytes(rom[pos..pos + 4].try_into().unwrap()) as usize;
    let (p9, p7) = (le32(0x20), le32(0x30));
    assert_eq!(&rom[p9..p9 + p.arm9.len()], &p.arm9[..]);
    assert_eq!(&rom[p7..p7 + p.arm7.len()], &p.arm7[..]);
    assert_eq!(le32(0x3C), (p.arm7.len() + 3) / 4 * 4);
}

#[test]
fn file_after_directory_takes_next_file_id() {
    // directory table: root (list at 16, first file 0), D (list at 23, first file 1)
    let mut d = Vec::new();
    d.extend(16u32.to_le_bytes());
    d.extend(0u16.to_le_bytes());
    d.extend(2u16.to_le_bytes());
    d.extend(23u32.to_le_bytes());
    d.extend(1u16.to_le_bytes());
    d.extend(0xF000u16.to_le_bytes());
    d.extend([0x81, b'D', 0x01, 0xF0, 0x01, b'F', 0]);
    d.extend([0x01, b'G', 0]);
    let fat = [(100u32, 1u32), (200, 2)];
    let root = read_fnt(&d, &fat, 0).unwrap();
    let cs = root.children.unwrap();
    assert_eq!(cs.len(), 2);
    assert_eq!(cs[0].name, "D");
    assert_eq!(cs[1].name, "F");
    assert_eq!((cs[1].pos, cs[1].size), (100, 1));
    let inner = cs[0].children.as_ref().unwrap();
    assert_eq!(inner[0].name, "G");
    assert_eq!((inner[0].pos, inner[0].size), (200, 2));
}

#[test]
fn gld_inject_four_bit_sprite_reads_back() {
    let mut g = Gld::read(&small_gld(), "sheet").unwrap();
    g.pixel_data = vec![0xAA; 6];
    {
        let e = &mut g.footer_entries[0];
        e.sprite_format = 3;
        e.crop_x = 2;
        e.crop_y = 1;
        e.crop_width = 2;
        e.crop_height = 2;
        e.pixels_offset = 0;
    }
    let buffer = [255u8, 0, 0, 255, 255, 255, 255, 255, 255, 255, 0, 0];
    g.inject_png(0, 2, 2, false, false, &buffer).unwrap();
    assert_eq!(g.pixel_data, vec![0xAA, 0xAA, 0xAA, 0x01, 0xAA, 0x10]);
    let img = g.extract_png(0).unwrap();
    assert_eq!((img.width, img.height, img.bit_depth), (2, 2, 4));
    assert_eq!(img.data, vec![0x10, 0x01]);
}

#[test]
fn built_executables_read_back_decompressed() {
    let mut arm9: Vec<u8> = (0..0x6000u32).map(|i| (i % 5) as u8).collect();
    arm9.extend([0x21, 0x06, 0xC0, 0xDE, 1, 2, 3, 4, 5, 6, 7, 8]);
    let overlay: Vec<u8> = (0..600u32).map(|i| (i % 3) as u8).collect();
    let entries = [overlay_entry(0, 0, 0x0300_0000)];
    let mut p = small_parts();
    p.arm9 = arm9.clone();
    p.arm9_overlay_table = write_overlay_table(&entries);
    p.arm9_overlays = vec![overlay.clone()];
    p.name_table = vec![8u8, 0, 0, 0, 1, 0, 1, 0, 0];
    assert!(parts_fit_packing(&p));
    let q = pack_parts(&p);
    assert!(q.arm9.len() < arm9.len());
    assert_eq!(&q.arm9[..0x4000], &arm9[..0x4000]);
    assert_eq!(&q.arm9[q.arm9.len() - 12..], &arm9[arm9.len() - 12..]);
    assert!(q.arm9_overlays[0].len() < overlay.len());
    assert!(nds_fits(&q));
    let rom = write_nds_rom(&q).unwrap();
    assert!(rom_is_readable(&rom));
    let layout = read_from_rom(&rom).unwrap();
    assert!(layout.arm9_is_openable(&rom));
    assert_eq!(layout.open_arm9(&rom), arm9);
    assert!(layout.overlay_is_openable(&rom, &entries[0]));
    assert_eq!(layout.open_overlay(&rom, &entries[0]), overlay);
}

#[test]
fn packing_keeps_what_does_not_shrink() {
    let short = vec![1u8, 2, 3];
    assert_eq!(pack_executable(&short, 0), short);
    let small_arm9 = vec![0u8; 0x100];
    assert_eq!(pack_arm9(&small_arm9), small_arm9);
}
