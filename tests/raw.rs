use blockstream::block::BlockCompressor;
use blockstream::codec::NoCompression;
use blockstream::raw::{from_raw_bytes, to_raw_bytes};

#[test]
fn values_become_little_endian_bytes() {
    let bytes = to_raw_bytes(&[1, -1, 0x01020304, i32::MIN]);
    assert_eq!(
        bytes,
        vec![1, 0, 0, 0, 0xff, 0xff, 0xff, 0xff, 4, 3, 2, 1, 0, 0, 0, 0x80]
    );
    assert!(to_raw_bytes(&[]).is_empty());
}

#[test]
fn bytes_become_values() {
    assert_eq!(from_raw_bytes(&[1, 0, 0, 0, 0xfe, 0xff, 0xff, 0xff]), vec![1, -2]);
    assert_eq!(from_raw_bytes(&[4, 3, 2, 1, 9, 9, 9]), vec![0x01020304]);
    assert!(from_raw_bytes(&[7, 7]).is_empty());
}

#[test]
fn values_survive_the_pipeline() {
    let values: Vec<i32> = (0..5000).map(|i| if i % 7 == 0 { i32::MIN } else { i * 31 - 9000 }).collect();
    let bytes = to_raw_bytes(&values);
    assert_eq!(from_raw_bytes(&bytes), values);
    let mut writer = BlockCompressor::new(NoCompression::new(), 1000);
    let mut stream = Vec::new();
    writer.compress(&bytes, &mut stream).unwrap();
    assert_eq!(stream.len(), bytes.len() + 20 * 8);
    let mut reader = writer.get_block_decompressor(&stream);
    let mut back = Vec::new();
    while let Some(block) = reader.next_block().unwrap() {
        assert_eq!(block.len(), 1000);
        back.extend(from_raw_bytes(&block));
    }
    assert_eq!(back, values);
}
