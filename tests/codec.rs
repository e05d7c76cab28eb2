use patchini::{apply, create, fio_high_bit64, window_log, CodecError};

#[test]
fn high_bit_of_small_values() {
    assert_eq!(fio_high_bit64(0), 0);
    assert_eq!(fio_high_bit64(1), 0);
    assert_eq!(fio_high_bit64(2), 1);
    assert_eq!(fio_high_bit64(3), 1);
    assert_eq!(fio_high_bit64(4), 2);
    assert_eq!(fio_high_bit64(1023), 9);
    assert_eq!(fio_high_bit64(1024), 10);
}

#[test]
fn high_bit_of_largest_value() {
    assert_eq!(fio_high_bit64(usize::MAX), usize::BITS - 1);
}

#[test]
fn window_log_is_clamped() {
    assert_eq!(window_log(0), 10);
    assert_eq!(window_log(1), 10);
    assert_eq!(window_log(600), 11);
    assert_eq!(window_log(5000), 14);
    assert_eq!(window_log(1 << 20), 21);
    assert_eq!(window_log((1 << 20) + 1), 22);
    assert_eq!(window_log(usize::MAX), 31);
}

#[test]
fn decode_of_encode_gives_target() {
    let dict = b"the quick brown fox jumps over the lazy dog".to_vec();
    let target = b"the quick brown cat jumps over the lazy dog, twice".to_vec();
    let delta = create(&dict, &target, 3).unwrap();
    assert_ne!(delta, target);
    assert_eq!(apply(&dict, &delta).unwrap(), target);
}

#[test]
fn decode_of_encode_with_empty_buffers() {
    let delta = create(&[], &[], 1).unwrap();
    assert_eq!(apply(&[], &delta).unwrap(), Vec::<u8>::new());
    let delta = create(b"abc", &[], 19).unwrap();
    assert_eq!(apply(b"abc", &delta).unwrap(), Vec::<u8>::new());
    let delta = create(&[], b"grown from nothing", 5).unwrap();
    assert_eq!(apply(&[], &delta).unwrap(), b"grown from nothing".to_vec());
}

#[test]
fn decode_of_encode_large_shifted_buffer() {
    let dict: Vec<u8> = (0..200_000u32).map(|i| (i * 7 % 251) as u8).collect();
    let mut target = vec![1u8, 2, 3];
    target.extend_from_slice(&dict[1000..150_000]);
    let delta = create(&dict, &target, 3).unwrap();
    assert!(delta.len() < target.len() / 10);
    assert_eq!(apply(&dict, &delta).unwrap(), target);
}

#[test]
fn decode_of_garbage_fails() {
    assert!(apply(b"dictionary", b"not a zstd frame").is_err());
    assert!(apply(b"dictionary", &[]).is_err());
}

#[test]
fn codec_error_names_window_log() {
    let e = CodecError::WindowLog(12);
    assert_eq!(e, CodecError::WindowLog(12));
    assert_ne!(e, CodecError::Compress);
}

#[test]
fn decode_of_encode_with_dictionary_magic() {
    let mut dict = vec![0x37u8, 0xA4, 0x30, 0xEC, 1, 2, 3, 4];
    dict.extend_from_slice(b"then some ordinary content follows here");
    let target = b"then some ordinary content follows here, and more".to_vec();
    let delta = create(&dict, &target, 3).unwrap();
    assert_eq!(apply(&dict, &delta).unwrap(), target);
}

#[test]
fn huge_recorded_size_is_an_error() {
    let mut frame = vec![0x28u8, 0xB5, 0x2F, 0xFD, 0xE0];
    frame.extend_from_slice(&0x8000_0000_0000_0000u64.to_le_bytes());
    assert_eq!(apply(b"dict", &frame), Err(()));
    let mut frame = vec![0x28u8, 0xB5, 0x2F, 0xFD, 0xE0];
    frame.extend_from_slice(&u64::MAX.wrapping_sub(2).to_le_bytes());
    assert_eq!(apply(b"dict", &frame), Err(()));
}

#[test]
fn delta_records_target_length() {
    let target = vec![7u8; 3000];
    let delta = create(b"abc", &target, 1).unwrap();
    assert_eq!(apply(b"abc", &delta).unwrap().len(), 3000);
    assert!(create(b"abc", &target, 22).is_ok());
    assert!(create(b"abc", &target, 1000).is_ok());
}
