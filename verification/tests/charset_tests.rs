use edifact_rs::{decode_step, Charset, EdifactError};

#[test]
fn a_chunk_transcodes_byte_by_byte() {
    let out = decode_step(Charset::UnoC, b"M\xFCller").unwrap();
    assert_eq!(std::str::from_utf8(&out).unwrap(), "Müller");
    // A repertoire that is UTF-8 already passes every byte through.
    assert_eq!(decode_step(Charset::UnoY, "Müller".as_bytes()).unwrap(), "Müller".as_bytes());
}

#[test]
fn chunks_transcode_as_the_whole_does() {
    let whole: &[u8] = b"Stra\xDFe \xE0 Z\xFCrich";
    let all = decode_step(Charset::UnoC, whole).unwrap();
    for cut in 0..=whole.len() {
        let mut joined = decode_step(Charset::UnoC, &whole[..cut]).unwrap();
        joined.extend(decode_step(Charset::UnoC, &whole[cut..]).unwrap());
        assert_eq!(joined, all);
    }
}

#[test]
fn an_undefined_byte_is_invalid_text_at_its_offset() {
    assert_eq!(decode_step(Charset::UnoF, b"ab\xAE"), Err(EdifactError::InvalidText { offset: 2 }));
}

#[test]
fn encoding_a_decoded_high_byte_gives_the_byte_back() {
    let tables = [
        Charset::UnoC,
        Charset::UnoD,
        Charset::UnoE,
        Charset::UnoF,
        Charset::UnoG,
        Charset::UnoH,
        Charset::UnoI,
        Charset::UnoJ,
        Charset::UnoK,
    ];
    for c in tables {
        for b in 0x80u8..=0xFF {
            if let Some(ch) = c.decode_byte(b) {
                assert_eq!(c.encode_char(ch), Some(b), "{c:?} byte 0x{b:02X}");
            }
        }
    }
}
