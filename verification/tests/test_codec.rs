use qoi::consts::{QOI_HEADER_SIZE, QOI_PADDING_SIZE};
use qoi::{
    decode_header, decode_to_buf, decode_to_vec, encode_max_len, encode_to_buf, encode_to_vec,
    Bytes, Decoder, Encoder, Error, State,
};

fn flat<const N: usize>(pixels: &[[u8; N]]) -> Vec<u8> {
    let mut raw: Vec<u8> = Vec::new();
    for px in pixels {
        raw.extend_from_slice(px);
    }
    raw
}

#[test]
fn test_header_fields_roundtrip() {
    let raw = flat(&[[1, 2, 3], [4, 5, 6]]);
    let encoded = encode_to_vec::<false>(&raw, 2, 1).unwrap();
    let header = decode_header(&encoded).unwrap();
    assert_eq!(header.width, 2);
    assert_eq!(header.height, 1);
    assert_eq!(header.channels, 3);
    assert_eq!(header.colorspace, 0);
    let (header2, decoded) = decode_to_vec::<false>(&encoded).unwrap();
    assert_eq!(header, header2);
    assert_eq!(decoded, raw);
}

#[test]
fn test_header_bad_magic() {
    let raw = flat(&[[1, 2, 3]]);
    let mut encoded = encode_to_vec::<false>(&raw, 1, 1).unwrap();
    encoded[0] = b'x';
    assert_eq!(decode_header(&encoded), Err(Error::InvalidMagic));
    assert_eq!(decode_to_vec::<false>(&encoded), Err(Error::InvalidMagic));
}

#[test]
fn test_header_invalid_channels() {
    let raw = flat(&[[1, 2, 3]]);
    let mut encoded = encode_to_vec::<false>(&raw, 1, 1).unwrap();
    encoded[12] = 2;
    assert_eq!(decode_header(&encoded), Err(Error::InvalidChannels { channels: 2 }));
}

#[test]
fn test_header_short_input() {
    assert_eq!(decode_header(&[0x71, 0x6f, 0x69]), Err(Error::UnexpectedBufferEnd));
}

#[test]
fn test_max_pixel_count_guard() {
    // 30000 * 20000 = 600 million pixels: over the fixed maximum, rejected
    // before any decode work.
    let mut bytes = vec![b'q', b'o', b'i', b'f'];
    bytes.extend_from_slice(&[0x00, 0x00, 0x75, 0x30]); // width 30000
    bytes.extend_from_slice(&[0x00, 0x00, 0x4e, 0x20]); // height 20000
    bytes.push(3);
    bytes.push(0);
    assert_eq!(
        decode_header(&bytes),
        Err(Error::InvalidImageDimensions { width: 30000, height: 20000 })
    );
    assert_eq!(
        decode_to_vec::<false>(&bytes),
        Err(Error::InvalidImageDimensions { width: 30000, height: 20000 })
    );
}

#[test]
fn test_truncated_stream_fails() {
    let raw = flat(&[[1, 2, 3], [200, 100, 50], [200, 100, 50]]);
    let encoded = encode_to_vec::<false>(&raw, 3, 1).unwrap();
    let truncated = &encoded[..encoded.len() - 1];
    assert_eq!(decode_to_vec::<false>(truncated), Err(Error::UnexpectedBufferEnd));
}

#[test]
fn test_corrupt_padding_fails() {
    let raw = flat(&[[1, 2, 3], [200, 100, 50]]);
    let encoded = encode_to_vec::<false>(&raw, 2, 1).unwrap();
    for i in 0..QOI_PADDING_SIZE {
        let mut corrupted = encoded.clone();
        let at = encoded.len() - QOI_PADDING_SIZE + i;
        corrupted[at] = corrupted[at].wrapping_add(1);
        assert_eq!(decode_to_vec::<false>(&corrupted), Err(Error::InvalidPadding));
    }
}

#[test]
fn test_encode_invalid_dimensions() {
    let raw = flat(&[[1, 2, 3]]);
    assert_eq!(
        encode_to_vec::<false>(&raw, 0, 1),
        Err(Error::InvalidImageDimensions { width: 0, height: 1 })
    );
}

#[test]
fn test_encode_invalid_length() {
    let raw = vec![0u8; 7];
    assert_eq!(
        encode_to_vec::<false>(&raw, 2, 1),
        Err(Error::InvalidImageLength { size: 7, width: 2, height: 1 })
    );
}

#[test]
fn test_encode_invalid_channels() {
    let raw = vec![0u8; 10];
    assert_eq!(encode_to_vec::<false>(&raw, 2, 1), Err(Error::InvalidChannels { channels: 5 }));
}

#[test]
fn test_encode_max_len_formula() {
    assert_eq!(encode_max_len::<true>(10, 10, 3), 400);
    assert_eq!(encode_max_len::<false>(10, 10, 3), 400 + QOI_HEADER_SIZE + QOI_PADDING_SIZE);
    assert_eq!(encode_max_len::<false>(2, 2, 4), 20 + 22);
}

#[test]
fn test_output_buffer_too_small() {
    let raw = flat(&[[1, 2, 3], [4, 5, 6]]);
    let mut small = vec![0u8; 3];
    assert_eq!(
        encode_to_buf::<false>(&mut small, &raw, 2, 1),
        Err(Error::OutputBufferTooSmall { size: 3, required: 8 + 22 })
    );
    let encoded = encode_to_vec::<false>(&raw, 2, 1).unwrap();
    let mut small_out = vec![0u8; 5];
    assert_eq!(
        decode_to_buf::<false>(&mut small_out, &encoded),
        Err(Error::OutputBufferTooSmall { size: 5, required: 6 })
    );
}

#[test]
fn test_encode_and_decode_to_buf() {
    let raw = flat(&[[9, 8, 7], [6, 5, 4], [6, 5, 4], [1, 2, 3]]);
    let mut buf = vec![0u8; encode_max_len::<false>(4, 1, 3)];
    let n = encode_to_buf::<false>(&mut buf, &raw, 4, 1).unwrap();
    let encoded = encode_to_vec::<false>(&raw, 4, 1).unwrap();
    assert_eq!(&buf[..n], &encoded[..]);
    let mut out = vec![0u8; 12];
    let header = decode_to_buf::<false>(&mut out, &encoded).unwrap();
    assert_eq!(header.width, 4);
    assert_eq!(out, raw);
}

#[test]
fn test_channel_conversion_rgba_to_rgb() {
    let raw = flat(&[[10, 20, 30, 40], [50, 60, 70, 80]]);
    let encoded = encode_to_vec::<false>(&raw, 2, 1).unwrap();
    let mut decoder = Decoder::new(&encoded).unwrap().with_channels(3);
    let out = decoder.decode_to_vec::<false>().unwrap();
    assert_eq!(out, flat(&[[10, 20, 30], [50, 60, 70]]));
}

#[test]
fn test_channel_conversion_rgb_to_rgba() {
    let raw = flat(&[[10, 20, 30], [50, 60, 70]]);
    let encoded = encode_to_vec::<false>(&raw, 2, 1).unwrap();
    let mut decoder = Decoder::new(&encoded).unwrap().with_channels(4);
    let out = decoder.decode_to_vec::<false>().unwrap();
    assert_eq!(out, flat(&[[10, 20, 30, 0xff], [50, 60, 70, 0xff]]));
}

#[test]
fn test_decode_invalid_target_channels() {
    let raw = flat(&[[10, 20, 30]]);
    let encoded = encode_to_vec::<false>(&raw, 1, 1).unwrap();
    let mut decoder = Decoder::new(&encoded).unwrap().with_channels(5);
    assert_eq!(decoder.decode_to_vec::<false>(), Err(Error::InvalidChannels { channels: 5 }));
}

#[test]
fn test_long_index_promotion() {
    // The first pixel lands in the primary cache; the second shares its full
    // hash and evicts it to the secondary cache; re-encoding the first then
    // takes the 2-byte long-index opcode instead of the luma delta, and the
    // decoder replays the promotion.
    let a = [10, 10, 10];
    let b = [12, 13, 7];
    let raw = flat(&[a, b, a]);
    let encoded = encode_to_vec::<false>(&raw, 3, 1).unwrap();
    assert_eq!(
        &encoded[QOI_HEADER_SIZE..encoded.len() - QOI_PADDING_SIZE],
        &[0xaa, 0x77, 0xa3, 0x61, 0xb8, 0xbf]
    );
    let (_, decoded) = decode_to_vec::<false>(&encoded).unwrap();
    assert_eq!(decoded, raw);
}

#[test]
fn test_payload_only_mode() {
    let raw = flat(&[[1, 2, 3], [4, 5, 6]]);
    let framed = encode_to_vec::<false>(&raw, 2, 1).unwrap();
    let body = encode_to_vec::<true>(&raw, 2, 1).unwrap();
    assert_eq!(&framed[QOI_HEADER_SIZE..framed.len() - QOI_PADDING_SIZE], &body[..]);
    let header = decode_header(&framed).unwrap();
    let mut decoder = Decoder::new_with(header, State::new(), Bytes::new(&body));
    let out = decoder.decode_to_vec::<true>().unwrap();
    assert_eq!(out, raw);
}

#[test]
fn test_state_reuse_across_calls() {
    let first = flat(&[[10, 20, 30], [40, 50, 60]]);
    let second = flat(&[[10, 20, 30], [40, 50, 60]]);
    let mut enc1 = Encoder::new(&first, 2, 1).unwrap();
    let stream1 = enc1.encode_to_vec::<false>().unwrap();
    let state = enc1.into_state();
    let mut enc2 = Encoder::new_with(state, &second, 2, 1).unwrap();
    let stream2 = enc2.encode_to_vec::<false>().unwrap();
    // The second pass starts with a warm cache, so the same pixels take
    // 1-byte index opcodes.
    assert!(stream2.len() < stream1.len());
    let mut dec1 = Decoder::new(&stream1).unwrap();
    let out1 = dec1.decode_to_vec::<false>().unwrap();
    assert_eq!(out1, first);
    let mut dec2 = Decoder::new_with(
        *Decoder::new(&stream2).unwrap().header(),
        dec1.extract_state(),
        Bytes::new(&stream2[QOI_HEADER_SIZE..]),
    );
    let out2 = dec2.decode_to_vec::<false>().unwrap();
    assert_eq!(out2, second);
}

#[test]
fn test_decoder_getters() {
    let raw = flat(&[[1, 2, 3], [4, 5, 6]]);
    let encoded = encode_to_vec::<false>(&raw, 2, 1).unwrap();
    let decoder = Decoder::new(&encoded).unwrap();
    assert_eq!(decoder.channels(), 3);
    assert_eq!(decoder.header().height, 1);
    assert_eq!(decoder.required_buf_len(), 6);
    assert_eq!(decoder.data().len(), encoded.len() - QOI_HEADER_SIZE);
    let mut decoder = decoder;
    decoder.decode_to_vec::<false>().unwrap();
    assert_eq!(decoder.data().len(), QOI_PADDING_SIZE);
}

#[test]
fn test_encoder_getters() {
    let raw = flat(&[[1, 2, 3, 4], [5, 6, 7, 8]]);
    let encoder = Encoder::new(&raw, 2, 1).unwrap().with_colorspace(1);
    assert_eq!(encoder.channels(), 4);
    assert_eq!(encoder.header().colorspace, 1);
    assert_eq!(encoder.required_buf_len::<true>(), 10);
    assert_eq!(encoder.required_buf_len::<false>(), 32);
    let mut encoder = encoder;
    let encoded = encoder.encode_to_vec::<false>().unwrap();
    assert_eq!(decode_header(&encoded).unwrap().colorspace, 1);
}

#[test]
fn test_error_describe() {
    assert_eq!(Error::InvalidPadding.describe(), "invalid trailing padding");
    assert_eq!(Error::UnexpectedBufferEnd.describe(), "unexpected end of stream");
}

#[test]
fn test_roundtrip_varied_buffers() {
    // Exercises deltas, luma, runs, index hits and literals together.
    let mut pixels: Vec<[u8; 4]> = Vec::new();
    let mut x: u8 = 7;
    for i in 0..500u32 {
        x = x.wrapping_mul(31).wrapping_add(i as u8);
        let px = [x, x.wrapping_add(i as u8), x.wrapping_mul(3), if i % 7 == 0 { 9 } else { 0xff }];
        pixels.push(px);
        if i % 11 == 0 {
            for _ in 0..(i % 70) {
                pixels.push(px);
            }
        }
    }
    let raw = flat(&pixels);
    let n = pixels.len() as u32;
    let encoded = encode_to_vec::<false>(&raw, n, 1).unwrap();
    let (header, decoded) = decode_to_vec::<false>(&encoded).unwrap();
    assert_eq!(header.channels, 4);
    assert_eq!(decoded, raw);
}
