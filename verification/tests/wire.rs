use rmux::protocol::{frame, push_le16, read_le16, FrameReader, C2S_INPUT, MAX_FRAME, S2C_BYE};

fn next(reader: &mut FrameReader) -> Option<(u8, Vec<u8>)> {
    match reader.next_frame() {
        Ok(f) => f,
        Err(_) => panic!("frame too long"),
    }
}

#[test]
fn frame_has_kind_length_and_payload() {
    assert_eq!(frame(2, b"hi"), vec![2, 2, 0, 0, 0, b'h', b'i']);
    assert_eq!(frame(7, &[]), vec![7, 0, 0, 0, 0]);
    let long = vec![9u8; 66000];
    let f = frame(5, &long);
    assert_eq!(f.len(), 66005);
    assert_eq!(&f[..5], &[5, 0xd0, 0x01, 0x01, 0x00]);
}

#[test]
fn reader_gives_back_what_was_framed() {
    let mut reader = FrameReader::new();
    let mut bytes = frame(C2S_INPUT, b"abc");
    bytes.extend_from_slice(&frame(S2C_BYE, b""));
    bytes.extend_from_slice(&frame(C2S_INPUT, b"z"));
    reader.extend(&bytes);
    assert_eq!(next(&mut reader), Some((C2S_INPUT, b"abc".to_vec())));
    assert_eq!(next(&mut reader), Some((S2C_BYE, Vec::new())));
    assert_eq!(next(&mut reader), Some((C2S_INPUT, b"z".to_vec())));
    assert_eq!(next(&mut reader), None);
}

#[test]
fn reader_does_not_care_about_the_pieces() {
    let mut bytes = frame(1, b"first");
    bytes.extend_from_slice(&frame(2, b"second"));
    for cut in 0..bytes.len() {
        let mut reader = FrameReader::new();
        let mut got = Vec::new();
        reader.extend(&bytes[..cut]);
        while let Some(f) = next(&mut reader) {
            got.push(f);
        }
        reader.extend(&bytes[cut..]);
        while let Some(f) = next(&mut reader) {
            got.push(f);
        }
        assert_eq!(got, vec![(1, b"first".to_vec()), (2, b"second".to_vec())]);
    }
}

#[test]
fn partial_frame_gives_nothing() {
    let bytes = frame(3, b"payload");
    for n in 0..bytes.len() {
        let mut reader = FrameReader::new();
        reader.extend(&bytes[..n]);
        assert_eq!(next(&mut reader), None);
    }
}

#[test]
fn too_long_a_frame_is_refused() {
    let n = MAX_FRAME as u32 + 1;
    let mut reader = FrameReader::new();
    reader.extend(&[1]);
    reader.extend(&n.to_le_bytes());
    assert!(reader.next_frame().is_err());
    let mut reader = FrameReader::new();
    reader.extend(&[1]);
    reader.extend(&(MAX_FRAME as u32).to_le_bytes());
    assert!(matches!(reader.next_frame(), Ok(None)));
}

#[test]
fn sixteen_bit_numbers_survive() {
    for n in [0u16, 1, 255, 256, 4660, 65535] {
        let mut out = Vec::new();
        push_le16(&mut out, n);
        assert_eq!(out, n.to_le_bytes().to_vec());
        assert_eq!(read_le16(out[0], out[1]), n);
    }
}
