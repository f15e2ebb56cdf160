use controller_link::byte_stuffing::{
    encode_iter, from_reader, ByteSource, Decoder, DecoderError, EncodeState, END_BYTE,
    ESCAPE_BYTE, START_BYTE,
};

fn decode_all(input: &[u8], capacity: usize) -> Vec<Result<Vec<u8>, DecoderError>> {
    let mut decoder = Decoder::new(vec![0; capacity]);
    let mut out = Vec::new();
    for &b in input {
        match decoder.ingest(b) {
            Ok(None) => {}
            Ok(Some(len)) => out.push(Ok(decoder.message(len).to_vec())),
            Err(e) => out.push(Err(e)),
        }
    }
    out
}

#[test]
fn encode_test() {
    let input = [0x00, 0x01, 0x02, 0x03, 0x04, 0x05, 0x06];
    let target_output = [0x02, 0x00, 0x01, 0x04, 0xFD, 0x04, 0xFC, 0x04, 0xFB, 0x05, 0x06, 0x03];
    let output = encode_iter(&input);
    assert_eq!(output, target_output);
}

#[test]
fn decode_test() {
    let message_buffer = vec![0; 128];
    let input: [u8; 12] = [0x02, 0x00, 0x01, 0x04, 0xFD, 0x04, 0xFC, 0x04, 0xFB, 0x05, 0x06, 0x03];
    let target_output: [u8; 7] = [0x00, 0x01, 0x02, 0x03, 0x04, 0x05, 0x06];
    let mut decoder = Decoder::new(message_buffer);
    let mut reader = ByteSource::new(input.to_vec());
    match from_reader(&mut reader, &mut decoder) {
        Ok(len) => {
            assert_eq!(decoder.message(len), target_output);
        }
        Err(error) => {
            println!("message_buffer: {:?}", decoder.message(decoder.capacity_len()));
            Err::<usize, _>(error).unwrap();
        }
    }
}

#[test]
fn encode_empty_payload() {
    assert_eq!(encode_iter(&[]), vec![START_BYTE, END_BYTE]);
}

#[test]
fn encode_state_steps_one_byte_at_a_time() {
    let payload = [0x03u8];
    let (b0, s1) = EncodeState::Begin(&payload).next();
    assert_eq!(b0, 0x02);
    let (b1, s2) = s1.unwrap().next();
    assert_eq!(b1, 0x04);
    let (b2, s3) = s2.unwrap().next();
    assert_eq!(b2, 0xFC);
    let (b3, s4) = s3.unwrap().next();
    assert_eq!(b3, 0x03);
    assert!(s4.is_none());
}

#[test]
fn round_trip_various_payloads() {
    let all: Vec<u8> = (0..=255u8).collect();
    let payloads: Vec<Vec<u8>> = vec![
        vec![],
        vec![0x02],
        vec![0x02, 0x03, 0x04, 0x04, 0x03, 0x02],
        vec![0xFB, 0xFC, 0xFD, 0xFF, 0x00],
        all,
    ];
    for p in payloads {
        let frame = encode_iter(&p);
        let events = decode_all(&frame, 300);
        assert_eq!(events, vec![Ok(p.clone())]);
    }
}

#[test]
fn round_trip_payload_exactly_capacity() {
    let p = vec![0x02, 0x41, 0x03];
    let events = decode_all(&encode_iter(&p), 3);
    assert_eq!(events, vec![Ok(p)]);
}

#[test]
fn frame_structure_has_no_bare_delimiters() {
    let p: Vec<u8> = (0..=255u8).chain(0..=10u8).collect();
    let frame = encode_iter(&p);
    assert_eq!(frame[0], START_BYTE);
    assert_eq!(*frame.last().unwrap(), END_BYTE);
    let inner = &frame[1..frame.len() - 1];
    let mut i = 0;
    while i < inner.len() {
        assert_ne!(inner[i], START_BYTE);
        assert_ne!(inner[i], END_BYTE);
        if inner[i] == ESCAPE_BYTE {
            let next = inner[i + 1];
            assert!([0xFD, 0xFC, 0xFB].contains(&next));
            i += 2;
        } else {
            i += 1;
        }
    }
}

#[test]
fn resynchronizes_after_noise() {
    let a = vec![0x10, 0x02, 0x20];
    let b = vec![0x04, 0x30];
    let mut input = vec![0x00, 0x03, 0x04, 0xFF, 0x03, 0x41];
    input.extend(encode_iter(&a));
    input.extend(encode_iter(&b));
    assert_eq!(decode_all(&input, 16), vec![Ok(a), Ok(b)]);
}

#[test]
fn start_inside_a_frame_restarts_it() {
    let mut input = vec![START_BYTE, 0x11, 0x12];
    input.extend(encode_iter(&[0x21, 0x22]));
    assert_eq!(decode_all(&input, 16), vec![Ok(vec![0x21, 0x22])]);
}

#[test]
fn invalid_escape_recovers_for_next_frame() {
    let p = vec![0x01, 0x02, 0x03];
    let mut input = vec![0x02, 0x04, 0x10, 0x03];
    input.extend(encode_iter(&p));
    assert_eq!(
        decode_all(&input, 16),
        vec![Err(DecoderError::InvalidEscape(0x10)), Ok(p.clone())]
    );

    let mut decoder = Decoder::new(vec![0; 16]);
    let mut reader = ByteSource::new(input);
    assert_eq!(
        from_reader(&mut reader, &mut decoder),
        Err(DecoderError::InvalidEscape(0x10))
    );
    let len = from_reader(&mut reader, &mut decoder).unwrap();
    assert_eq!(decoder.message(len), &p[..]);
    assert_eq!(
        from_reader(&mut reader, &mut decoder),
        Err(DecoderError::EndOfInput)
    );
}

#[test]
fn end_or_escape_after_escape_is_invalid() {
    assert_eq!(
        decode_all(&[0x02, 0x04, 0x03], 8),
        vec![Err(DecoderError::InvalidEscape(0x03))]
    );
    assert_eq!(
        decode_all(&[0x02, 0x04, 0x04, 0x03], 8),
        vec![Err(DecoderError::InvalidEscape(0x04))]
    );
}

#[test]
fn oversized_frame_is_dropped_and_next_frame_decodes() {
    let big = vec![0x55; 10];
    let small = vec![0x66, 0x02];
    let mut input = encode_iter(&big);
    input.extend(encode_iter(&small));
    assert_eq!(
        decode_all(&input, 4),
        vec![Err(DecoderError::BufferTooSmall), Ok(small)]
    );
}

#[test]
fn oversized_on_escaped_byte() {
    let big = vec![0x01, 0x02];
    let events = decode_all(&encode_iter(&big), 1);
    assert_eq!(events, vec![Err(DecoderError::BufferTooSmall)]);
}

#[test]
fn zero_capacity_accepts_only_empty_payloads() {
    let mut input = encode_iter(&[]);
    input.extend(encode_iter(&[0x07]));
    assert_eq!(
        decode_all(&input, 0),
        vec![Ok(vec![]), Err(DecoderError::BufferTooSmall)]
    );
}

#[test]
fn end_of_input_mid_frame_keeps_state() {
    let frame = encode_iter(&[0x09, 0x02]);
    let (first, second) = frame.split_at(3);
    let mut decoder = Decoder::new(vec![0; 8]);
    let mut reader = ByteSource::new(first.to_vec());
    assert_eq!(
        from_reader(&mut reader, &mut decoder),
        Err(DecoderError::EndOfInput)
    );
    let mut reader = ByteSource::new(second.to_vec());
    let len = from_reader(&mut reader, &mut decoder).unwrap();
    assert_eq!(decoder.message(len), &[0x09, 0x02]);
}

#[test]
fn byte_source_yields_bytes_in_order() {
    let mut source = ByteSource::new(vec![7, 8]);
    assert_eq!(source.read_byte(), Some(7));
    assert_eq!(source.read_byte(), Some(8));
    assert_eq!(source.read_byte(), None);
}

#[test]
fn messages_never_exceed_capacity() {
    // A deterministic pseudo-random stream rich in control bytes.
    let mut state: u32 = 12345;
    let mut input = Vec::new();
    for _ in 0..5000 {
        state = state.wrapping_mul(1103515245).wrapping_add(12345);
        let b = (state >> 16) as u8;
        input.push(if b % 3 == 0 { b % 5 } else { b });
    }
    let mut decoder = Decoder::new(vec![0; 6]);
    for &b in &input {
        if let Ok(Some(len)) = decoder.ingest(b) {
            assert!(len <= 6);
            assert_eq!(decoder.message(len).len(), len);
        }
        assert_eq!(decoder.capacity_len(), 6);
    }
}
