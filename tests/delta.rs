use patchini::{diff_file, rebuild_file, ChunkDelta, ChunkOrderError, CHUNK_SIZE};

fn round_trip(old: &[u8], new: &[u8], chunk: usize) -> Vec<ChunkDelta> {
    let deltas = diff_file(old, new, 3, chunk).unwrap();
    let rebuilt = rebuild_file(old, &deltas, chunk).unwrap();
    assert!(rebuilt.complete);
    assert_eq!(rebuilt.data, new.to_vec());
    deltas
}

#[test]
fn round_trip_over_chunk_boundaries() {
    let base: Vec<u8> = (0..100u8).collect();
    for old_len in [0usize, 1, 15, 16, 17, 32, 33, 100] {
        for new_len in [0usize, 1, 15, 16, 17, 31, 48, 49, 100] {
            let old = base[..old_len].to_vec();
            let mut new: Vec<u8> = base[..new_len].iter().map(|b| b.wrapping_mul(3)).collect();
            if new_len > 5 {
                new[5] = old.get(5).copied().unwrap_or(0);
            }
            round_trip(&old, &new, 16);
        }
    }
}

#[test]
fn round_trip_growth_and_shrink() {
    let old = b"0123456789abcdef0123456789abcdef".to_vec();
    let grown = b"0123456789abcdef0123456789abcdefXYZ and much more".to_vec();
    let shrunk = b"0123456789".to_vec();
    let deltas = round_trip(&old, &grown, 16);
    assert_eq!(deltas.len(), 1);
    assert_eq!(deltas[0].index, 2);
    let deltas = round_trip(&old, &shrunk, 16);
    assert_eq!(deltas.iter().map(|d| d.index).collect::<Vec<_>>(), vec![1, 2]);
}

#[test]
fn empty_old_file_growing() {
    let deltas = round_trip(&[], b"fresh content", CHUNK_SIZE);
    assert_eq!(deltas.len(), 1);
    assert_eq!(deltas[0].index, 1);
}

#[test]
fn identical_chunks_give_no_delta() {
    let old = b"aaaaaaaaBBBBBBBBccccccccDDDDDDDD".to_vec();
    let new = b"aaaaaaaaXXXXXXXXccccccccYYYYYYYY".to_vec();
    let deltas = round_trip(&old, &new, 8);
    assert_eq!(deltas.iter().map(|d| d.index).collect::<Vec<_>>(), vec![2, 4]);
}

#[test]
fn unchanged_file_gives_no_delta() {
    let data: Vec<u8> = (0..1000u32).map(|i| (i % 13) as u8).collect();
    assert!(diff_file(&data, &data, 3, 64).unwrap().is_empty());
    assert!(diff_file(&data, &data, 3, CHUNK_SIZE).unwrap().is_empty());
    assert!(diff_file(&[], &[], 3, CHUNK_SIZE).unwrap().is_empty());
    let rebuilt = rebuild_file(&data, &[], 64).unwrap();
    assert_eq!(rebuilt.data, data);
}

#[test]
fn only_second_chunk_differs() {
    let chunk = 32usize;
    let old: Vec<u8> = (0..80u8).collect();
    let mut new = old.clone();
    new[40] = 0xFF;
    new[41] = 0xFE;
    let deltas = diff_file(&old, &new, 3, chunk).unwrap();
    assert_eq!(deltas.len(), 1);
    assert_eq!(deltas[0].index, 2);
    let rebuilt = rebuild_file(&old, &deltas, chunk).unwrap();
    assert!(rebuilt.complete);
    assert_eq!(&rebuilt.data[..chunk], &old[..chunk]);
    assert_eq!(rebuilt.data, new);
}

#[test]
fn small_edit_with_real_chunk_size() {
    let old = b"hello".to_vec();
    let new = b"hello world".to_vec();
    let deltas = round_trip(&old, &new, CHUNK_SIZE);
    assert_eq!(deltas.len(), 1);
    assert_eq!(deltas[0].index, 1);
}

#[test]
fn out_of_order_indices_are_refused() {
    let d = |index: u64| ChunkDelta { index, delta: vec![] };
    assert_eq!(rebuild_file(b"abc", &[d(0)], 4), Err(ChunkOrderError { index: 0 }));
    assert_eq!(rebuild_file(b"abc", &[d(2), d(2)], 4), Err(ChunkOrderError { index: 2 }));
    assert_eq!(rebuild_file(b"abc", &[d(3), d(1)], 4), Err(ChunkOrderError { index: 1 }));
}

#[test]
fn undecodable_delta_leaves_chunk_out() {
    let old = b"aaaabbbbcccc".to_vec();
    let bad = ChunkDelta { index: 2, delta: b"garbage".to_vec() };
    let rebuilt = rebuild_file(&old, &[bad], 4).unwrap();
    assert!(!rebuilt.complete);
    assert_eq!(rebuilt.data, b"aaaacccc".to_vec());
}

#[test]
fn deltas_past_the_end_of_old_file() {
    let old = b"abcd".to_vec();
    let new = b"abcd".to_vec();
    let delta = patchini::create(&[], b"tail", 3).unwrap();
    let rebuilt = rebuild_file(&old, &[ChunkDelta { index: 5, delta }], 4).unwrap();
    assert!(rebuilt.complete);
    let mut expected = new.clone();
    expected.extend_from_slice(b"tail");
    assert_eq!(rebuilt.data, expected);
}
