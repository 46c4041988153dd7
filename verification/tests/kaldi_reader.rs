use vosk_rust::kaldi_io::{err, KaldiReader, ReadError};

fn sized(v: i32) -> Vec<u8> {
    let mut out = vec![4u8];
    out.extend(v.to_le_bytes());
    out
}

fn floats(vs: &[f32]) -> Vec<u8> {
    vs.iter().flat_map(|v| v.to_le_bytes()).collect()
}

#[test]
fn reads_final_mdl_header() {
    let mut data = vec![0u8, b'B'];
    data.extend(b"<TransitionModel> <Topology> ");
    data.extend(sized(122));
    for phone in 1..=122i32 {
        data.extend(phone.to_le_bytes());
    }
    let mut kr = KaldiReader::new(&data);
    kr.expect_binary().unwrap();
    assert_eq!(kr.read_token().unwrap(), "<TransitionModel>");
    assert_eq!(kr.read_token().unwrap(), "<Topology>");
    let phones = kr.read_i32_vec().unwrap();
    assert_eq!(phones.len(), 122);
    assert_eq!(phones[0], 1);
    assert_eq!(phones[121], 122);
}

#[test]
fn missing_marker_is_not_binary() {
    assert_eq!(KaldiReader::new(b"<Nnet3>").expect_binary(), Err(ReadError::NotBinary));
    assert_eq!(KaldiReader::new(&[0u8, b'b']).expect_binary(), Err(ReadError::NotBinary));
    assert_eq!(KaldiReader::new(&[0u8]).expect_binary(), Err(ReadError::UnexpectedEof));
}

#[test]
fn integers_read_back() {
    for v in [0i32, 1, -1, 258, i32::MAX, i32::MIN] {
        let data = sized(v);
        assert_eq!(KaldiReader::new(&data).read_i32(), Ok(v));
    }
    assert_eq!(KaldiReader::new(&[8u8, 0, 0, 0, 0]).read_i32(), Err(ReadError::IntSize));
    assert_eq!(KaldiReader::new(&[4u8, 0, 0, 0]).read_i32(), Err(ReadError::UnexpectedEof));
    assert_eq!(KaldiReader::new(&[]).read_i32(), Err(ReadError::UnexpectedEof));
}

#[test]
fn floats_read_back_as_patterns() {
    for v in [0.0f32, -0.0, 1.5, f32::INFINITY, 1e-38] {
        let mut data = vec![4u8];
        data.extend(v.to_le_bytes());
        assert_eq!(KaldiReader::new(&data).read_f32(), Ok(v.to_bits()));
    }
    assert_eq!(KaldiReader::new(&[5u8, 0, 0, 0, 0]).read_f32(), Err(ReadError::FloatSize));
    assert_eq!(KaldiReader::new(&[4u8, 0]).read_f32(), Err(ReadError::UnexpectedEof));
}

#[test]
fn tokens_end_at_any_separator() {
    let mut r = KaldiReader::new(b" \n\t<A>\t<B>\n[ rest");
    assert_eq!(r.read_token().unwrap(), "<A>");
    assert_eq!(r.read_token().unwrap(), "<B>");
    assert_eq!(r.read_token().unwrap(), "[");
    assert_eq!(r.read_token(), Err(ReadError::UnexpectedEof));
}

#[test]
fn bytes_above_ascii_are_characters_of_their_own() {
    let mut r = KaldiReader::new(&[0xe9, 0x20]);
    assert_eq!(r.read_token().unwrap(), "\u{e9}");
}

#[test]
fn integer_vectors_read_back() {
    let mut data = sized(3);
    for v in [7i32, -2, 9] {
        data.extend(v.to_le_bytes());
    }
    assert_eq!(KaldiReader::new(&data).read_i32_vec(), Ok(vec![7, -2, 9]));
    data.pop();
    assert_eq!(KaldiReader::new(&data).read_i32_vec(), Err(ReadError::UnexpectedEof));
    assert_eq!(KaldiReader::new(&sized(-1)).read_i32_vec(), Err(ReadError::NegativeLength));
    assert_eq!(KaldiReader::new(&sized(0)).read_i32_vec(), Ok(vec![]));
}

#[test]
fn float_vectors_read_back() {
    let mut data = b"FV ".to_vec();
    data.extend(sized(2));
    data.extend(floats(&[0.25, -3.0]));
    assert_eq!(
        KaldiReader::new(&data).read_float_vec(),
        Ok(vec![0.25f32.to_bits(), (-3.0f32).to_bits()])
    );
    assert_eq!(KaldiReader::new(b"FM ").read_float_vec(), Err(ReadError::ExpectedVector));
    let mut short = b"FV ".to_vec();
    short.extend(sized(-4));
    assert_eq!(KaldiReader::new(&short).read_float_vec(), Err(ReadError::NegativeLength));
}

#[test]
fn float_matrices_read_back() {
    let mut data = b"FM ".to_vec();
    data.extend(sized(2));
    data.extend(sized(3));
    data.extend(floats(&[1.0, 2.0, 3.0, 4.0, 5.0, 6.0]));
    let (r, c, d) = KaldiReader::new(&data).read_float_matrix().unwrap();
    assert_eq!((r, c), (2, 3));
    assert_eq!(d[4], 5.0f32.to_bits());
    assert_eq!(KaldiReader::new(b"FV ").read_float_matrix(), Err(ReadError::ExpectedMatrix));
    let mut bad = b"FM ".to_vec();
    bad.extend(sized(2));
    bad.extend(sized(-3));
    assert_eq!(KaldiReader::new(&bad).read_float_matrix(), Err(ReadError::NegativeLength));
    let mut huge = b"FM ".to_vec();
    huge.extend(sized(i32::MAX));
    huge.extend(sized(i32::MAX));
    assert_eq!(KaldiReader::new(&huge).read_float_matrix(), Err(ReadError::UnexpectedEof));
}

#[test]
fn what_is_left_after_an_error() {
    // A wrong size byte is the only byte that is gone.
    let mut data = vec![8u8];
    data.extend(sized(7));
    let mut r = KaldiReader::new(&data);
    assert_eq!(r.read_i32(), Err(ReadError::IntSize));
    assert_eq!(r.read_i32(), Ok(7));
    let mut r = KaldiReader::new(&data);
    assert_eq!(r.read_f32(), Err(ReadError::FloatSize));
    assert_eq!(r.read_i32(), Ok(7));
    // A wrong token is gone, and what stands behind it is not.
    let mut data = b"FX ".to_vec();
    data.extend(sized(9));
    let mut r = KaldiReader::new(&data);
    assert_eq!(r.read_float_vec(), Err(ReadError::ExpectedVector));
    assert_eq!(r.read_i32(), Ok(9));
    // A token that does not end takes everything with it.
    let mut r = KaldiReader::new(b"<Open");
    assert_eq!(r.read_token(), Err(ReadError::UnexpectedEof));
    assert_eq!(r.read_i32(), Err(ReadError::UnexpectedEof));
}

#[test]
fn errors_have_texts() {
    assert_eq!(err(ReadError::UnexpectedEof), "failed to fill whole buffer");
    assert_eq!(err(ReadError::NotBinary), "not a binary Kaldi stream (missing \\0B)");
    assert_eq!(err(ReadError::IntSize), "expected i32 size byte = 4");
    assert_eq!(err(ReadError::FloatSize), "expected f32 size byte = 4");
    assert_eq!(err(ReadError::NegativeLength), "negative vector length");
    assert_eq!(err(ReadError::ExpectedVector), "expected FV");
    assert_eq!(err(ReadError::ExpectedMatrix), "expected FM");
}
