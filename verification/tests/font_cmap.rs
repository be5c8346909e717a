use docparse_core::extract::font_cmap::reverse_cmap;

/// Build a minimal sfnt with a single format-4 cmap subtable mapping
/// 'A'..='C' (0x41..0x43) to glyphs 10..12.
fn minimal_format4_font() -> Vec<u8> {
    // format 4 subtable: one real segment + terminator segment
    let mut sub: Vec<u8> = Vec::new();
    sub.extend([0, 4]); // format
    sub.extend([0, 32]); // Complete two-segment format-4 subtable length.
    sub.extend([0, 0]); // language
    sub.extend([0, 4]); // segCountX2 = 4 (2 segments)
    sub.extend([0, 0, 0, 0, 0, 0]); // searchRange/entrySelector/rangeShift
    sub.extend([0x00, 0x43, 0xFF, 0xFF]); // endCodes
    sub.extend([0, 0]); // reservedPad
    sub.extend([0x00, 0x41, 0xFF, 0xFF]); // startCodes
    // idDelta: glyph = code + delta mod 65536; 10 - 0x41 = -55 = 0xFFC9
    sub.extend([0xFF, 0xC9, 0x00, 0x01]); // idDeltas
    sub.extend([0, 0, 0, 0]); // idRangeOffsets

    let mut cmap: Vec<u8> = Vec::new();
    cmap.extend([0, 0]); // version
    cmap.extend([0, 1]); // numTables
    cmap.extend([0, 3, 0, 1]); // platform 3, encoding 1
    cmap.extend(12u32.to_be_bytes()); // subtable offset
    cmap.extend(&sub);

    let mut font: Vec<u8> = Vec::new();
    font.extend([0, 1, 0, 0]); // sfnt version
    font.extend([0, 1]); // numTables
    font.extend([0, 0, 0, 0, 0, 0]); // search fields
    font.extend(b"cmap");
    font.extend([0, 0, 0, 0]); // checksum
    font.extend(28u32.to_be_bytes()); // offset (12 + 16)
    font.extend((cmap.len() as u32).to_be_bytes());
    font.extend(&cmap);
    font
}

/// Verifies parses format4 and inverts against literal expectations.
#[test]
fn parses_format4_and_inverts() {
    let font = minimal_format4_font();
    let map = reverse_cmap(&font).expect("valid Unicode cmap");
    assert_eq!(map.get(&10), Some(&0x41)); // A
    assert_eq!(map.get(&11), Some(&0x42)); // B
    assert_eq!(map.get(&12), Some(&0x43)); // C
    assert!(!map.contains_key(&0));
}

/// Verifies rejects non sfnt against literal expectations.
#[test]
fn rejects_non_sfnt() {
    assert!(reverse_cmap(b"%!PS-AdobeFont").is_none());
    assert!(reverse_cmap(&[1, 0, 0, 0]).is_none()); // bare CFF header
    assert!(reverse_cmap(&[]).is_none());
}

/// TTC offsets stay file-relative; truncated subtables and non-Unicode platforms cannot fabricate mappings.
#[test]
fn validates_collection_offsets_and_subtable_boundaries() {
    let font = minimal_format4_font();
    for length in 0..font.len() {
        assert!(
            reverse_cmap(font.get(..length).expect("prefix")).is_none()
        );
    }
    let mut symbol = font.clone();
    symbol
        .get_mut(34..36)
        .expect("encoding")
        .copy_from_slice(&0_u16.to_be_bytes());
    assert!(reverse_cmap(&symbol).is_none());
    let mut ttc = b"ttcf\0\x01\0\0\0\0\0\x01\0\0\0\x10".to_vec();
    ttc.extend(&font);
    ttc.get_mut(36..40)
        .expect("absolute cmap offset")
        .copy_from_slice(&44_u32.to_be_bytes());
    assert_eq!(reverse_cmap(&ttc).expect("TTC").get(&10), Some(&0x41));
}

/// Formats 0, 6 and 12 resolve literal codepoints and reject overflowing or oversized ranges.
#[test]
fn decodes_supported_cmap_formats_with_bounded_work() {
    let base = minimal_format4_font();
    let mut format0 = vec![0, 0, 1, 6, 0, 0];
    format0.resize(262, 0);
    *format0.get_mut(6 + 65).expect("ASCII A glyph") = 10;
    let format6 = vec![0, 6, 0, 12, 0, 0, 0, 65, 0, 1, 0, 10];
    let mut format12 =
        vec![0, 12, 0, 0, 0, 0, 0, 28, 0, 0, 0, 0, 0, 0, 0, 1];
    format12.extend(0x1F600_u32.to_be_bytes());
    format12.extend(0x1F600_u32.to_be_bytes());
    format12.extend(10_u32.to_be_bytes());
    for (subtable, expected) in
        [(format0, 65), (format6, 65), (format12.clone(), 0x1F600)]
    {
        let mut font =
            base.get(..40).expect("font and cmap headers").to_vec();
        font.get_mut(24..28).expect("cmap length").copy_from_slice(
            &(12_u32 + subtable.len() as u32).to_be_bytes(),
        );
        font.extend(subtable);
        assert_eq!(
            reverse_cmap(&font).expect("supported cmap").get(&10),
            Some(&expected)
        );
    }
    format12
        .get_mut(20..24)
        .expect("end")
        .copy_from_slice(&0x1F601_u32.to_be_bytes());
    format12
        .get_mut(24..28)
        .expect("start glyph")
        .copy_from_slice(&u32::MAX.to_be_bytes());
    let mut malformed = base.get(..40).expect("headers").to_vec();
    malformed
        .get_mut(24..28)
        .expect("cmap length")
        .copy_from_slice(&40_u32.to_be_bytes());
    malformed.extend(format12);
    assert!(reverse_cmap(&malformed).is_none());
}

/// Bytes past the declared end of the chosen subtable change nothing, and a subtable that declares
/// more than its table holds gives nothing.
#[test]
fn subtables_borrow_no_bytes_behind_them() {
    let mut font = minimal_format4_font();
    font.extend([0xAA, 0xBB, 0xCC, 0xDD]);
    font.get_mut(24..28).expect("cmap length").copy_from_slice(&48_u32.to_be_bytes());
    let mut other = font.clone();
    for byte in other.get_mut(72..).expect("bytes behind the subtable") {
        *byte = !*byte;
    }
    let map = reverse_cmap(&font).expect("valid Unicode cmap");
    assert_eq!(map.get(&10), Some(&0x41));
    assert_eq!(Some(map), reverse_cmap(&other));
    font.get_mut(42..44).expect("declared length").copy_from_slice(&37_u16.to_be_bytes());
    assert!(reverse_cmap(&font).is_none());
}
