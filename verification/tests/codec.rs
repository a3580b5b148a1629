use lune::{is_standalone, LuneError, Metadata};

fn magic() -> Vec<u8> {
    b"cr3sc3nt".to_vec()
}

#[test]
fn trailer_layout_is_exact() {
    let meta = Metadata { zip_data: vec![1, 2, 3] };
    let bytes = meta.to_bytes();
    let mut expected = vec![1u8, 2, 3];
    expected.extend_from_slice(&[0, 0, 0, 0, 0, 0, 0, 3]);
    expected.extend_from_slice(&magic());
    assert_eq!(bytes, expected);
    assert_eq!(bytes.len(), 3 + 16);
}

#[test]
fn round_trip_nonempty() {
    let archive: Vec<u8> = (0u8..=255).collect();
    let meta = Metadata { zip_data: archive.clone() };
    let bytes = meta.to_bytes();
    let back = Metadata::from_bytes(&bytes).unwrap();
    assert_eq!(back.zip_data, archive);
}

#[test]
fn round_trip_empty() {
    let meta = Metadata { zip_data: Vec::new() };
    let bytes = meta.to_bytes();
    assert_eq!(bytes.len(), 16);
    let back = Metadata::from_bytes(&bytes).unwrap();
    assert_eq!(back.zip_data, Vec::<u8>::new());
}

#[test]
fn round_trip_with_junk_prefix() {
    // the trailer sits at the tail of an arbitrary host binary
    let meta = Metadata { zip_data: vec![9, 8, 7] };
    let mut bytes = b"\x7fELF-some-host-binary".to_vec();
    bytes.extend_from_slice(&meta.to_bytes());
    let back = Metadata::from_bytes(&bytes).unwrap();
    assert_eq!(back.zip_data, vec![9, 8, 7]);
}

#[test]
fn marker_detection() {
    let meta = Metadata { zip_data: vec![1] };
    assert!(is_standalone(&meta.to_bytes()));
    assert!(!is_standalone(b"an ordinary binary"));
    assert!(is_standalone(b"cr3sc3nt"));
    assert!(!is_standalone(b"r3sc3nt"));
}

#[test]
fn too_short_is_malformed() {
    assert_eq!(
        Metadata::from_bytes(b"short").unwrap_err(),
        LuneError::MalformedTrailer
    );
    assert_eq!(Metadata::from_bytes(b"").unwrap_err(), LuneError::MalformedTrailer);
    // fifteen bytes, even ending in the marker's tail, are too short
    assert_eq!(
        Metadata::from_bytes(b"xcr3sc3ntcr3sc" as &[u8]).unwrap_err(),
        LuneError::MalformedTrailer
    );
}

#[test]
fn missing_marker_is_malformed() {
    let mut bytes = vec![0u8; 24];
    bytes.extend_from_slice(b"cr3sc3nX");
    assert_eq!(Metadata::from_bytes(&bytes).unwrap_err(), LuneError::MalformedTrailer);
}

#[test]
fn oversized_declared_length_is_rejected() {
    // declared length far exceeds the available prefix: an error, not a panic
    let mut bytes = vec![1u8, 2, 3];
    bytes.extend_from_slice(&[0xff, 0xff, 0xff, 0xff, 0xff, 0xff, 0xff, 0xff]);
    bytes.extend_from_slice(&magic());
    assert_eq!(Metadata::from_bytes(&bytes).unwrap_err(), LuneError::MalformedTrailer);

    // off by one: 4 declared, 3 available
    let mut bytes = vec![1u8, 2, 3];
    bytes.extend_from_slice(&[0, 0, 0, 0, 0, 0, 0, 4]);
    bytes.extend_from_slice(&magic());
    assert_eq!(Metadata::from_bytes(&bytes).unwrap_err(), LuneError::MalformedTrailer);
}

#[test]
fn shorter_declared_length_takes_a_suffix() {
    // 2 declared out of 3 available: the two bytes just before the length
    let mut bytes = vec![1u8, 2, 3];
    bytes.extend_from_slice(&[0, 0, 0, 0, 0, 0, 0, 2]);
    bytes.extend_from_slice(&magic());
    let back = Metadata::from_bytes(&bytes).unwrap();
    assert_eq!(back.zip_data, vec![2, 3]);
}
