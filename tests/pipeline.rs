use blockstream::block::{split_blocks, push_frame, write_frames, BlockCompressor, FrameReader};
use blockstream::codec::{Compressor, NoCompression};
use blockstream::error::PipelineError;

fn write_stream<C: Compressor>(codec: C, data: &[u8], block_size: usize) -> Vec<u8> {
    let mut writer = BlockCompressor::new(codec, block_size);
    let mut out = Vec::new();
    writer.compress(data, &mut out).unwrap();
    out
}

fn read_blocks<C: Compressor>(codec: C, stream: &[u8]) -> Result<Vec<Vec<u8>>, PipelineError> {
    let mut writer = BlockCompressor::new(codec, 1);
    let mut reader = writer.get_block_decompressor(stream);
    let mut blocks = Vec::new();
    while let Some(b) = reader.next_block()? {
        blocks.push(b);
    }
    Ok(blocks)
}

fn sample(n: usize) -> Vec<u8> {
    (0..n).map(|i| ((i * 7 + i / 13) % 251) as u8).collect()
}

fn round_trip<C: Compressor, F: Fn() -> C>(make: F) {
    for n in [0usize, 1, 3, 4, 5, 100, 1000, 4096] {
        for s in [1usize, 2, 4, 7, 64, 4096, 10000] {
            let data = sample(n);
            let stream = write_stream(make(), &data, s);
            let blocks = read_blocks(make(), &stream).unwrap();
            let expected = if n == 0 { 0 } else { (n + s - 1) / s };
            assert_eq!(blocks.len(), expected);
            for (i, b) in blocks.iter().enumerate() {
                if i + 1 < blocks.len() {
                    assert_eq!(b.len(), s);
                } else {
                    let last = if n % s == 0 { s } else { n % s };
                    assert_eq!(b.len(), last);
                }
            }
            assert_eq!(blocks.concat(), data);
        }
    }
}

#[test]
fn round_trip_without_compression() {
    round_trip(NoCompression::new);
}

/// A stand-in codec applied by hand around the frame layer: every byte is
/// flipped and the block is reversed.
fn scramble(b: &[u8]) -> Vec<u8> {
    b.iter().rev().map(|x| !x).collect()
}

#[test]
fn round_trip_with_another_transform() {
    for n in [0usize, 1, 5, 100, 1000] {
        for s in [1usize, 3, 64, 2000] {
            let data = sample(n);
            let encoded: Vec<Vec<u8>> =
                split_blocks(&data, s).unwrap().iter().map(|b| scramble(b)).collect();
            let mut stream = Vec::new();
            write_frames(&encoded, &mut stream);
            let mut reader = FrameReader::new(&stream);
            let mut joined = Vec::new();
            let mut count = 0usize;
            while let Some(p) = reader.next_frame().unwrap() {
                joined.extend(scramble(&p));
                count += 1;
            }
            assert_eq!(count, if n == 0 { 0 } else { (n + s - 1) / s });
            assert_eq!(joined, data);
        }
    }
}

#[test]
fn split_blocks_cuts_at_block_size() {
    let data: Vec<u8> = (1..=10).collect();
    let blocks = split_blocks(&data, 4).unwrap();
    assert_eq!(blocks, vec![vec![1, 2, 3, 4], vec![5, 6, 7, 8], vec![9, 10]]);
    assert_eq!(split_blocks(&data, 5).unwrap(), vec![vec![1, 2, 3, 4, 5], vec![6, 7, 8, 9, 10]]);
    assert_eq!(split_blocks(&data, 64).unwrap(), vec![data.clone()]);
    assert!(split_blocks(&[], 3).unwrap().is_empty());
    assert_eq!(split_blocks(&data, 0), Err(blockstream::error::PipelineError::InvalidConfiguration));
}

#[test]
fn push_frame_writes_length_then_payload() {
    let mut out = vec![0xaa];
    push_frame(&[1, 2, 3], &mut out);
    assert_eq!(out, vec![0xaa, 3, 0, 0, 0, 0, 0, 0, 0, 1, 2, 3]);
    push_frame(&[], &mut out);
    assert_eq!(out.len(), 12 + 8);
    assert_eq!(&out[12..], &[0u8; 8]);
}

#[test]
fn length_field_is_little_endian() {
    let payload = vec![7u8; 0x0102];
    let mut out = Vec::new();
    push_frame(&payload, &mut out);
    assert_eq!(&out[..8], &[0x02, 0x01, 0, 0, 0, 0, 0, 0]);
    let mut reader = FrameReader::new(&out);
    assert_eq!(reader.next_frame(), Ok(Some(payload)));
    assert_eq!(reader.next_frame(), Ok(None));
}

#[test]
fn frame_with_huge_length_is_truncated() {
    let mut stream = vec![0xffu8; 8];
    stream.extend_from_slice(&[1, 2, 3]);
    let mut reader = FrameReader::new(&stream);
    assert_eq!(reader.next_frame(), Err(blockstream::error::PipelineError::TruncatedStream));
    assert_eq!(reader.next_frame(), Ok(None));
}

#[test]
fn ten_bytes_in_blocks_of_four() {
    let data = vec![0x41u8; 10];
    let stream = write_stream(NoCompression::new(), &data, 4);
    let mut expected = Vec::new();
    for size in [4u64, 4, 2] {
        expected.extend_from_slice(&size.to_le_bytes());
        expected.extend(std::iter::repeat(0x41u8).take(size as usize));
    }
    assert_eq!(stream, expected);
    let blocks = read_blocks(NoCompression::new(), &stream).unwrap();
    assert_eq!(blocks, vec![vec![0x41u8; 4], vec![0x41u8; 4], vec![0x41u8; 2]]);
}

#[test]
fn empty_input_gives_empty_stream() {
    let stream = write_stream(NoCompression::new(), &[], 4);
    assert!(stream.is_empty());
    let mut writer = BlockCompressor::new(NoCompression::new(), 4);
    let mut reader = writer.get_block_decompressor(&stream);
    assert_eq!(reader.next_block(), Ok(None));
    assert_eq!(reader.next_block(), Ok(None));
}

#[test]
fn zero_block_size_is_refused() {
    let mut writer = BlockCompressor::new(NoCompression::new(), 0);
    let mut out = vec![9u8];
    assert_eq!(writer.compress(&[1, 2, 3], &mut out), Err(PipelineError::InvalidConfiguration));
    assert_eq!(out, vec![9u8]);
}

#[test]
fn truncated_stream_is_detected() {
    let data = sample(37);
    let stream = write_stream(NoCompression::new(), &data, 8);
    let boundaries = [0usize, 16, 32, 48, 64, 77];
    assert_eq!(stream.len(), 77);
    for k in 0..=stream.len() {
        let result = read_blocks(NoCompression::new(), &stream[..k]);
        if boundaries.contains(&k) {
            assert!(result.is_ok());
        } else {
            assert_eq!(result, Err(PipelineError::TruncatedStream));
        }
    }
}

#[test]
fn reader_is_exhausted_after_truncation() {
    let stream = write_stream(NoCompression::new(), &[1, 2, 3, 4, 5], 2);
    let cut = &stream[..stream.len() - 1];
    let mut writer = BlockCompressor::new(NoCompression::new(), 2);
    let mut reader = writer.get_block_decompressor(cut);
    assert_eq!(reader.next_block(), Ok(Some(vec![1, 2])));
    assert_eq!(reader.next_block(), Ok(Some(vec![3, 4])));
    assert_eq!(reader.next_block(), Err(PipelineError::TruncatedStream));
    assert_eq!(reader.next_block(), Ok(None));
}

#[test]
fn read_to_end_joins_all_blocks() {
    let data = sample(1234);
    let mut writer = BlockCompressor::new(NoCompression::new(), 100);
    let mut stream = Vec::new();
    writer.compress(&data, &mut stream).unwrap();
    let mut reader = writer.get_block_decompressor(&stream);
    assert_eq!(reader.read_to_end(), Ok(data));
    assert_eq!(reader.next_block(), Ok(None));

    let mut empty_reader = writer.get_block_decompressor(&[]);
    assert_eq!(empty_reader.read_to_end(), Ok(Vec::new()));

    let cut = &stream[..stream.len() - 3];
    let mut cut_reader = writer.get_block_decompressor(cut);
    assert_eq!(cut_reader.read_to_end(), Err(PipelineError::TruncatedStream));
    assert_eq!(cut_reader.next_block(), Ok(None));
}
