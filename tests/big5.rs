use encoding_big5::{Big5Decoder, Big5Index, DecoderResult, POINTER_COUNT};

fn pointer(lead: u8, trail: u8) -> usize {
    let offset = if trail < 0x7F { 0x40 } else { 0x62 };
    (lead as usize - 0x81) * 157 + (trail as usize - offset)
}

/// The index entries that the tests read.
fn test_index() -> Big5Index {
    let mut index = Big5Index::new();
    let entries: [(u8, u8, u32); 8] = [
        (0x87, 0x40, 0x43F0),
        (0xFE, 0xFE, 0x79D4),
        (0xFE, 0xFD, 0x2910D),
        (0x88, 0x66, 0x00CA),
        (0x88, 0xA7, 0x00EA),
        (0x99, 0xD4, 0x8991),
        (0x99, 0xD5, 0x27967),
        (0x99, 0xD6, 0x8A29),
    ];
    for (lead, trail, cp) in entries.iter() {
        assert!(index.set(pointer(*lead, *trail), *cp));
    }
    index
}

fn decode_big5_to_utf16(bytes: &[u8], expect: &[u16]) {
    let index = test_index();
    let mut decoder = Big5Decoder::new();
    let mut dest: Vec<u16> = vec![0u16; decoder.max_utf16_buffer_length(expect.len())];
    let (complete, read, written, _) =
        decoder.decode_to_utf16_with_replacement(&index, bytes, &mut dest, true);
    assert_eq!(complete, DecoderResult::InputEmpty);
    assert_eq!(read, bytes.len());
    assert_eq!(written, expect.len());
    dest.truncate(written);
    assert_eq!(&dest[..], expect);
}

fn decode_big5_to_utf8(bytes: &[u8], expect: &str) {
    let index = test_index();
    let mut decoder = Big5Decoder::new();
    let mut dest: Vec<u8> = vec![0u8; decoder.max_utf8_buffer_length(expect.len())];
    let (complete, read, written, _) =
        decoder.decode_to_utf8_with_replacement(&index, bytes, &mut dest, true);
    assert_eq!(complete, DecoderResult::InputEmpty);
    assert_eq!(read, bytes.len());
    assert_eq!(written, expect.len());
    dest.truncate(written);
    assert_eq!(&dest[..], expect.as_bytes());
}

#[test]
fn test_big5_decode() {
    // ASCII
    decode_big5_to_utf16(&[0x61u8, 0x62u8], &[0x0061u16, 0x0062u16]);
    // Edge cases
    decode_big5_to_utf16(&[0x87u8, 0x40u8], &[0x43F0u16]);
    decode_big5_to_utf16(&[0xFEu8, 0xFEu8], &[0x79D4u16]);
    decode_big5_to_utf16(&[0xFEu8, 0xFDu8], &[0xD864u16, 0xDD0Du16]);
    decode_big5_to_utf16(&[0x88u8, 0x62u8], &[0x00CAu16, 0x0304u16]);
    decode_big5_to_utf16(&[0x88u8, 0x64u8], &[0x00CAu16, 0x030Cu16]);
    decode_big5_to_utf16(&[0x88u8, 0x66u8], &[0x00CAu16]);
    decode_big5_to_utf16(&[0x88u8, 0xA3u8], &[0x00EAu16, 0x0304u16]);
    decode_big5_to_utf16(&[0x88u8, 0xA5u8], &[0x00EAu16, 0x030Cu16]);
    decode_big5_to_utf16(&[0x88u8, 0xA7u8], &[0x00EAu16]);
    decode_big5_to_utf16(&[0x99u8, 0xD4u8], &[0x8991u16]);
    decode_big5_to_utf16(&[0x99u8, 0xD5u8], &[0xD85Eu16, 0xDD67u16]);
    decode_big5_to_utf16(&[0x99u8, 0xD6u8], &[0x8A29u16]);
    // Edge cases surrounded with ASCII
    decode_big5_to_utf16(&[0x61u8, 0x87u8, 0x40u8, 0x62u8], &[0x0061u16, 0x43F0u16, 0x0062u16]);
    decode_big5_to_utf16(&[0x61u8, 0xFEu8, 0xFEu8, 0x62u8], &[0x0061u16, 0x79D4u16, 0x0062u16]);
    decode_big5_to_utf16(
        &[0x61u8, 0xFEu8, 0xFDu8, 0x62u8],
        &[0x0061u16, 0xD864u16, 0xDD0Du16, 0x0062u16],
    );
    decode_big5_to_utf16(
        &[0x61u8, 0x88u8, 0x62u8, 0x62u8],
        &[0x0061u16, 0x00CAu16, 0x0304u16, 0x0062u16],
    );
    decode_big5_to_utf16(
        &[0x61u8, 0x88u8, 0x64u8, 0x62u8],
        &[0x0061u16, 0x00CAu16, 0x030Cu16, 0x0062u16],
    );
    decode_big5_to_utf16(&[0x61u8, 0x88u8, 0x66u8, 0x62u8], &[0x0061u16, 0x00CAu16, 0x0062u16]);
    decode_big5_to_utf16(
        &[0x61u8, 0x88u8, 0xA3u8, 0x62u8],
        &[0x0061u16, 0x00EAu16, 0x0304u16, 0x0062u16],
    );
    decode_big5_to_utf16(
        &[0x61u8, 0x88u8, 0xA5u8, 0x62u8],
        &[0x0061u16, 0x00EAu16, 0x030Cu16, 0x0062u16],
    );
    decode_big5_to_utf16(&[0x61u8, 0x88u8, 0xA7u8, 0x62u8], &[0x0061u16, 0x00EAu16, 0x0062u16]);
    decode_big5_to_utf16(&[0x61u8, 0x99u8, 0xD4u8, 0x62u8], &[0x0061u16, 0x8991u16, 0x0062u16]);
    decode_big5_to_utf16(
        &[0x61u8, 0x99u8, 0xD5u8, 0x62u8],
        &[0x0061u16, 0xD85Eu16, 0xDD67u16, 0x0062u16],
    );
    decode_big5_to_utf16(&[0x61u8, 0x99u8, 0xD6u8, 0x62u8], &[0x0061u16, 0x8A29u16, 0x0062u16]);
    // Bad sequences
    decode_big5_to_utf16(&[0x80u8, 0x61u8], &[0xFFFDu16, 0x0061u16]);
    decode_big5_to_utf16(&[0xFFu8, 0x61u8], &[0xFFFDu16, 0x0061u16]);
    decode_big5_to_utf16(&[0xFEu8, 0x39u8], &[0xFFFDu16, 0x0039u16]);
    decode_big5_to_utf16(&[0x87u8, 0x66u8], &[0xFFFDu16, 0x0066u16]);
    decode_big5_to_utf16(&[0x81u8, 0x40u8], &[0xFFFDu16, 0x0040u16]);
    decode_big5_to_utf16(&[0x61u8, 0x81u8], &[0x0061u16, 0xFFFDu16]);

    // ASCII
    decode_big5_to_utf8(&[0x61u8, 0x62u8], &"\u{0061}\u{0062}");
    // Edge cases
    decode_big5_to_utf8(&[0x87u8, 0x40u8], &"\u{43F0}");
    decode_big5_to_utf8(&[0xFEu8, 0xFEu8], &"\u{79D4}");
    decode_big5_to_utf8(&[0xFEu8, 0xFDu8], &"\u{2910D}");
    decode_big5_to_utf8(&[0x88u8, 0x62u8], &"\u{00CA}\u{0304}");
    decode_big5_to_utf8(&[0x88u8, 0x64u8], &"\u{00CA}\u{030C}");
    decode_big5_to_utf8(&[0x88u8, 0x66u8], &"\u{00CA}");
    decode_big5_to_utf8(&[0x88u8, 0xA3u8], &"\u{00EA}\u{0304}");
    decode_big5_to_utf8(&[0x88u8, 0xA5u8], &"\u{00EA}\u{030C}");
    decode_big5_to_utf8(&[0x88u8, 0xA7u8], &"\u{00EA}");
    decode_big5_to_utf8(&[0x99u8, 0xD4u8], &"\u{8991}");
    decode_big5_to_utf8(&[0x99u8, 0xD5u8], &"\u{27967}");
    decode_big5_to_utf8(&[0x99u8, 0xD6u8], &"\u{8A29}");
    // Edge cases surrounded with ASCII
    decode_big5_to_utf8(&[0x61u8, 0x87u8, 0x40u8, 0x62u8], &"\u{0061}\u{43F0}\u{0062}");
    decode_big5_to_utf8(&[0x61u8, 0xFEu8, 0xFEu8, 0x62u8], &"\u{0061}\u{79D4}\u{0062}");
    decode_big5_to_utf8(&[0x61u8, 0xFEu8, 0xFDu8, 0x62u8], &"\u{0061}\u{2910D}\u{0062}");
    decode_big5_to_utf8(&[0x61u8, 0x88u8, 0x62u8, 0x62u8], &"\u{0061}\u{00CA}\u{0304}\u{0062}");
    decode_big5_to_utf8(&[0x61u8, 0x88u8, 0x64u8, 0x62u8], &"\u{0061}\u{00CA}\u{030C}\u{0062}");
    decode_big5_to_utf8(&[0x61u8, 0x88u8, 0x66u8, 0x62u8], &"\u{0061}\u{00CA}\u{0062}");
    decode_big5_to_utf8(&[0x61u8, 0x88u8, 0xA3u8, 0x62u8], &"\u{0061}\u{00EA}\u{0304}\u{0062}");
    decode_big5_to_utf8(&[0x61u8, 0x88u8, 0xA5u8, 0x62u8], &"\u{0061}\u{00EA}\u{030C}\u{0062}");
    decode_big5_to_utf8(&[0x61u8, 0x88u8, 0xA7u8, 0x62u8], &"\u{0061}\u{00EA}\u{0062}");
    decode_big5_to_utf8(&[0x61u8, 0x99u8, 0xD4u8, 0x62u8], &"\u{0061}\u{8991}\u{0062}");
    decode_big5_to_utf8(&[0x61u8, 0x99u8, 0xD5u8, 0x62u8], &"\u{0061}\u{27967}\u{0062}");
    decode_big5_to_utf8(&[0x61u8, 0x99u8, 0xD6u8, 0x62u8], &"\u{0061}\u{8A29}\u{0062}");
    // Bad sequences
    decode_big5_to_utf8(&[0x80u8, 0x61u8], &"\u{FFFD}\u{0061}");
    decode_big5_to_utf8(&[0xFFu8, 0x61u8], &"\u{FFFD}\u{0061}");
    decode_big5_to_utf8(&[0xFEu8, 0x39u8], &"\u{FFFD}\u{0039}");
    decode_big5_to_utf8(&[0x87u8, 0x66u8], &"\u{FFFD}\u{0066}");
    decode_big5_to_utf8(&[0x81u8, 0x40u8], &"\u{FFFD}\u{0040}");
    decode_big5_to_utf8(&[0x61u8, 0x81u8], &"\u{0061}\u{FFFD}");
}
