use b64::batch::{chunk_batch, join_batch};
use b64::chunk::{chunk, join};
use b64::engine::Engine;
use b64::errors::CodecError;
use b64::stream::{StreamDecoder, StreamEncoder};

/// A small deterministic pseudo-random byte buffer.
fn pseudo_random_bytes(len: usize, seed: u64) -> Vec<u8> {
    let mut state = seed;
    let mut out = Vec::with_capacity(len);
    for _ in 0..len {
        state = state.wrapping_mul(6364136223846793005).wrapping_add(1442695040888963407);
        out.push((state >> 33) as u8);
    }
    out
}

#[test]
fn chunk_basic() {
    let chunks = chunk(b"SGVsbG8sIHdvcmxkIQ==", 4).unwrap();
    let expected: Vec<Vec<u8>> = vec![
        b"SGVs".to_vec(),
        b"bG8s".to_vec(),
        b"IHdv".to_vec(),
        b"cmxk".to_vec(),
        b"IQ==".to_vec(),
    ];
    assert_eq!(chunks, expected);
    assert_eq!(chunk(b"", 4).unwrap(), Vec::<Vec<u8>>::new());
}

#[test]
fn chunk_uneven_tail() {
    let chunks = chunk(b"abcdefgh_tail", 8).unwrap();
    assert_eq!(chunks, vec![b"abcdefgh".to_vec(), b"_tail".to_vec()]);
}

#[test]
fn chunk_rejects_bad_width() {
    assert_eq!(chunk(b"abcd", 0).unwrap_err(), CodecError::InvalidWidth);
    assert_eq!(chunk(b"abcd", 3).unwrap_err(), CodecError::InvalidWidth);
    assert_eq!(chunk(b"abcd", 7).unwrap_err(), CodecError::InvalidWidth);
}

#[test]
fn chunk_count_is_ceiling() {
    for len in 0usize..40 {
        let data = vec![b'x'; len];
        let chunks = chunk(&data, 8).unwrap();
        assert_eq!(chunks.len(), len.div_ceil(8));
    }
}

#[test]
fn join_with_newline() {
    let chunks: Vec<Vec<u8>> = vec![b"SGVs".to_vec(), b"bG8=".to_vec()];
    assert_eq!(join(&chunks, b"\n"), b"SGVs\nbG8=".to_vec());
    assert_eq!(join(&Vec::new(), b"\n"), Vec::<u8>::new());
    assert_eq!(join(&vec![b"one".to_vec()], b"\n"), b"one".to_vec());
}

#[test]
fn chunk_join_identity() {
    let eng = Engine::standard();
    for len in [0usize, 1, 5, 12, 47, 100] {
        let enc = eng.encode(&pseudo_random_bytes(len, 7));
        for width in [4usize, 8, 64, 76] {
            let chunks = chunk(&enc, width).unwrap();
            assert_eq!(join(&chunks, b""), enc, "len {len} width {width}");
        }
    }
}

#[test]
fn batch_absence_propagation() {
    let eng = Engine::standard();
    let input: Vec<Option<Vec<u8>>> = vec![
        Some(b"SGVsbG8=".to_vec()),
        None,
        Some(b"d29ybGQ=".to_vec()),
    ];
    let out = eng.decode_batch(&input);
    assert_eq!(
        out,
        vec![Some(b"Hello".to_vec()), None, Some(b"world".to_vec())]
    );
}

#[test]
fn batch_encode_and_failures() {
    let eng = Engine::standard();
    let input: Vec<Option<Vec<u8>>> = vec![Some(b"Hello".to_vec()), None, Some(b"world".to_vec())];
    let enc = eng.encode_batch(&input);
    assert_eq!(
        enc,
        vec![Some(b"SGVsbG8=".to_vec()), None, Some(b"d29ybGQ=".to_vec())]
    );
    // A failing position degrades to absent; the rest decode normally.
    let mixed: Vec<Option<Vec<u8>>> = vec![
        Some(b"SGVsbG8=".to_vec()),
        Some(b"!bad!".to_vec()),
        Some(b"d29ybGQ=".to_vec()),
    ];
    let dec = eng.decode_batch(&mixed);
    assert_eq!(
        dec,
        vec![Some(b"Hello".to_vec()), None, Some(b"world".to_vec())]
    );
}

#[test]
fn batch_chunk_and_join() {
    let items: Vec<Option<Vec<u8>>> = vec![Some(b"SGVsbG8=".to_vec()), None];
    let chunked = chunk_batch(&items, 4).unwrap();
    assert_eq!(
        chunked,
        vec![Some(vec![b"SGVs".to_vec(), b"bG8=".to_vec()]), None]
    );
    let joined = join_batch(&chunked, b"\n");
    assert_eq!(joined, vec![Some(b"SGVs\nbG8=".to_vec()), None]);
    assert_eq!(
        chunk_batch(&items, 5).unwrap_err(),
        CodecError::InvalidWidth
    );
}

#[test]
fn stream_encode_matches_in_memory() {
    let eng = Engine::standard();
    let data = pseudo_random_bytes(10_000, 42);
    let whole = eng.encode(&data);
    for block_size in [1usize, 2, 3, 5, 7, 64, 333, 4096] {
        let mut enc = StreamEncoder::new(Engine::standard());
        let mut streamed: Vec<u8> = Vec::new();
        for block in data.chunks(block_size) {
            streamed.extend(enc.push(block));
        }
        streamed.extend(enc.finish());
        assert_eq!(streamed, whole, "block size {block_size}");
    }
}

#[test]
fn stream_encode_no_pad() {
    let eng = Engine::standard_no_pad();
    let data = pseudo_random_bytes(1001, 9);
    let whole = eng.encode(&data);
    let mut enc = StreamEncoder::new(Engine::standard_no_pad());
    let mut streamed: Vec<u8> = Vec::new();
    for block in data.chunks(10) {
        streamed.extend(enc.push(block));
    }
    streamed.extend(enc.finish());
    assert_eq!(streamed, whole);
}

#[test]
fn stream_decode_matches_in_memory() {
    let eng = Engine::standard();
    let data = pseudo_random_bytes(9_999, 77);
    let encoded = eng.encode(&data);
    for block_size in [1usize, 2, 3, 4, 5, 113, 1000] {
        let mut dec = StreamDecoder::new(Engine::standard());
        let mut streamed: Vec<u8> = Vec::new();
        for block in encoded.chunks(block_size) {
            streamed.extend(dec.push(block).unwrap());
        }
        streamed.extend(dec.finish().unwrap());
        assert_eq!(streamed, data, "block size {block_size}");
    }
}

#[test]
fn stream_decode_fail_fast_on_bad_byte() {
    let mut dec = StreamDecoder::new(Engine::standard());
    assert!(dec.push(b"SGVs").is_ok());
    assert_eq!(dec.push(b"!!").unwrap_err(), CodecError::InvalidCharacter);
}

#[test]
fn stream_decode_fail_fast_on_pad_then_symbol() {
    let mut dec = StreamDecoder::new(Engine::standard());
    assert!(dec.push(b"QQ=").is_ok());
    assert_eq!(dec.push(b"A").unwrap_err(), CodecError::InvalidPadding);
}

#[test]
fn stream_decode_end_checks() {
    // Missing padding is only detectable at the end of the stream.
    let mut dec = StreamDecoder::new(Engine::standard());
    assert!(dec.push(b"SGVsbG8").is_ok());
    assert_eq!(dec.finish().unwrap_err(), CodecError::InvalidPadding);

    let mut dec = StreamDecoder::new(Engine::standard());
    assert!(dec.push(b"Q").is_ok());
    assert_eq!(dec.finish().unwrap_err(), CodecError::InvalidLength);

    let mut dec = StreamDecoder::new(Engine::standard_no_pad());
    assert!(dec.push(b"SGVsbG8=").is_ok());
    assert_eq!(dec.finish().unwrap_err(), CodecError::InvalidPadding);

    let mut dec = StreamDecoder::new(Engine::standard());
    assert!(dec.push(b"SGVsbG9=").is_ok());
    assert_eq!(dec.finish().unwrap_err(), CodecError::InvalidTrailingBits);
}
