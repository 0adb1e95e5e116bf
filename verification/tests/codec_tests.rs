use stegostl::errors::StegoError;
use stegostl::reader_writer::{
    BinaryDecoder, BinaryEncoder, BitFeed, ByteFeed, StringDecoder, StringEncoder, HEADER_BYTES,
};

#[test]
fn test_header_bytes_constant() {
    assert_eq!(HEADER_BYTES, 8);
}

/// Drains an encoder bit by bit into a decoder and returns the recovered
/// header and payload.
fn pump_through<E: BitFeed, D: ByteFeed>(encoder: &mut E, decoder: &mut D) -> (u64, Vec<u8>) {
    let mut header: u64 = 0;
    while !decoder.header_was_read() {
        if decoder.bytes_available() >= HEADER_BYTES as u32 {
            header = decoder.get_header_bytes();
            break;
        }
        let bit = encoder.get_bit().unwrap();
        decoder.push_bit(bit).unwrap();
    }
    let mut out = Vec::new();
    while (out.len() as u64) < header {
        if decoder.bytes_available() > 0 {
            out.push(decoder.get_byte());
            continue;
        }
        let bit = if encoder.done() { 0 } else { encoder.get_bit().unwrap() };
        decoder.push_bit(bit).unwrap();
    }
    (header, out)
}

#[test]
fn test_string_codec_cycles_text() {
    let text = String::from("Hi!");
    let mut encoder = StringEncoder::new(&text, &4);
    let mut decoder = StringDecoder::new();
    let (header, out) = pump_through(&mut encoder, &mut decoder);
    assert_eq!(header, 12);
    assert_eq!(out, b"Hi!Hi!Hi!Hi!".to_vec());
    assert!(encoder.done());
}

#[test]
fn test_binary_codec_streams_buffer() {
    let payload: Vec<u8> = vec![7, 0, 255, 128, 1];
    let mut encoder = BinaryEncoder::new(payload.clone(), 5);
    let mut decoder = BinaryDecoder::new();
    let (header, out) = pump_through(&mut encoder, &mut decoder);
    assert_eq!(header, 5);
    assert_eq!(out, payload);
}

#[test]
fn test_binary_encoder_underruns_when_short() {
    // declares four bytes but holds one: the queued bits run out mid-frame
    let mut encoder = BinaryEncoder::new(vec![0xAA], 4);
    let mut result: Result<u8, StegoError> = Ok(0);
    let mut emitted = 0u32;
    while !encoder.done() {
        result = encoder.get_bit();
        if result.is_err() {
            break;
        }
        emitted += 1;
    }
    assert_eq!(result, Err(StegoError::PayloadUnderrun));
    // the header and the one real byte came through before the underrun
    assert_eq!(emitted, 64 + 8);
}

#[test]
fn test_decoder_queue_overflow() {
    let mut decoder = StringDecoder::new();
    for _ in 0..128 {
        decoder.push_bit(1).unwrap();
    }
    assert_eq!(decoder.push_bit(1), Err(StegoError::QueueOverflow));
}

#[test]
fn test_decoder_header_bit_order() {
    // push the 64 header bits of the value 3: two low set bits first
    let mut decoder = BinaryDecoder::new();
    decoder.push_bit(1).unwrap();
    decoder.push_bit(1).unwrap();
    for _ in 2..64 {
        decoder.push_bit(0).unwrap();
    }
    assert!(!decoder.header_was_read());
    assert_eq!(decoder.get_header_bytes(), 3);
    assert!(decoder.header_was_read());
}

#[test]
fn test_decoder_byte_bit_order() {
    // bits pushed least-significant first: 0,1,0,1,0,0,0,0 reads as 0x0A
    let mut decoder = BinaryDecoder::new();
    for bit in [0u8, 1, 0, 1, 0, 0, 0, 0] {
        decoder.push_bit(bit).unwrap();
    }
    assert_eq!(decoder.bytes_available(), 1);
    assert_eq!(decoder.get_byte(), 0x0A);
}
