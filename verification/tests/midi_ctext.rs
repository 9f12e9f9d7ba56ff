use verovio::ctext::check_c_text;
use verovio::midi::{decode_midi_export, midi_roundtrip};
use verovio::MarshalError;

#[test]
fn decodes_known_base64() {
    assert_eq!(decode_midi_export(b"AAEC"), Ok(vec![0u8, 1, 2]));
    assert_eq!(decode_midi_export(b""), Ok(Vec::new()));
    assert_eq!(
        decode_midi_export(b"TVRoZA=="),
        Ok(b"MThd".to_vec())
    );
}

#[test]
fn rejects_bad_base64() {
    assert_eq!(decode_midi_export(b"!!!"), Err(MarshalError::Base64));
    assert_eq!(decode_midi_export(b"AAEC="), Err(MarshalError::Base64));
}

#[test]
fn export_round_trip_is_identity() {
    let payload: Vec<u8> = (0u8..=255).collect();
    assert_eq!(midi_roundtrip(&payload), payload);
    assert_eq!(midi_roundtrip(b"MThd\x00\x00\x00\x06"), b"MThd\x00\x00\x00\x06");
    assert_eq!(midi_roundtrip(b""), Vec::<u8>::new());
}

#[test]
fn interior_nul_is_rejected() {
    assert_eq!(check_c_text(b"hello\x00world"), Err(MarshalError::InteriorNul));
    assert_eq!(check_c_text(b"\x00"), Err(MarshalError::InteriorNul));
}

#[test]
fn clean_text_is_accepted() {
    assert_eq!(check_c_text(b"hello world"), Ok(()));
    assert_eq!(check_c_text(b""), Ok(()));
    assert_eq!(check_c_text("sch\u{f6}n".as_bytes()), Ok(()));
}
