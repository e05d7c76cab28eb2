use patchini::{
    classify, classify_entry, diff_entry_name, is_reserved_path, parse_diff_entry_name, parse_removal_list,
    push_delta, removal_list, ApplyReport, ArchiveEntry, ChunkDelta, DiffName, EntryKind, FormatError, PendingFile,
    RunOutcome,
};

fn strings(v: &[&str]) -> Vec<String> {
    v.iter().map(|s| s.to_string()).collect()
}

#[test]
fn classification_partitions_both_sets() {
    let old = strings(&["a", "b", "c", "d"]);
    let new = strings(&["c", "d", "e"]);
    let c = classify(&old, &new);
    assert_eq!(c.removed, strings(&["a", "b"]));
    assert_eq!(c.added, strings(&["e"]));
    assert_eq!(c.common, strings(&["c", "d"]));
    let mut all: Vec<String> = c.removed.iter().chain(&c.added).chain(&c.common).cloned().collect();
    all.sort();
    assert_eq!(all, strings(&["a", "b", "c", "d", "e"]));
}

#[test]
fn classification_of_empty_and_equal_sets() {
    let c = classify(&vec![], &vec![]);
    assert!(c.removed.is_empty() && c.added.is_empty() && c.common.is_empty());
    let same = strings(&["x/y.txt", "z"]);
    let c = classify(&same, &same);
    assert!(c.removed.is_empty() && c.added.is_empty());
    assert_eq!(c.common, same);
}

#[test]
fn scenario_small_tree_update() {
    let old_tree = [("a.txt", b"hello".to_vec()), ("c.txt", b"hello".to_vec())];
    let new_tree = [("a.txt", b"hello world".to_vec()), ("b.txt", b"new".to_vec())];
    let old_names: Vec<String> = old_tree.iter().map(|(n, _)| n.to_string()).collect();
    let new_names: Vec<String> = new_tree.iter().map(|(n, _)| n.to_string()).collect();
    let c = classify(&old_names, &new_names);
    assert_eq!(removal_list(&c.removed), b"c.txt\n".to_vec());
    assert_eq!(c.added, strings(&["b.txt"]));
    assert_eq!(c.common, strings(&["a.txt"]));
    let deltas = patchini::diff_file(&old_tree[0].1, &new_tree[0].1, 3, patchini::CHUNK_SIZE).unwrap();
    assert_eq!(deltas.len(), 1);
    assert_eq!(deltas[0].index, 1);
    let name = diff_entry_name(b"a.txt", deltas[0].index);
    assert_eq!(name, b"a.txt.zspatch001".to_vec());
    let rebuilt = patchini::rebuild_file(&old_tree[0].1, &deltas, patchini::CHUNK_SIZE).unwrap();
    assert_eq!(rebuilt.data, b"hello world".to_vec());
}

#[test]
fn entry_names_are_zero_padded() {
    assert_eq!(diff_entry_name(b"dir/f.bin", 7), b"dir/f.bin.zspatch007".to_vec());
    assert_eq!(diff_entry_name(b"f", 42), b"f.zspatch042".to_vec());
    assert_eq!(diff_entry_name(b"f", 1234), b"f.zspatch1234".to_vec());
    assert_eq!(diff_entry_name(b"", 0), b".zspatch000".to_vec());
}

#[test]
fn entry_names_parse_back() {
    assert_eq!(parse_diff_entry_name(b"dir/f.bin.zspatch007"), Ok(DiffName { path_len: 9, index: 7 }));
    assert_eq!(parse_diff_entry_name(b"a.zspatch1.zspatch12"), Ok(DiffName { path_len: 10, index: 12 }));
    let name = diff_entry_name(b"x.txt", 18446744073709551615);
    assert_eq!(parse_diff_entry_name(&name), Ok(DiffName { path_len: 5, index: u64::MAX }));
}

#[test]
fn malformed_entry_names() {
    assert_eq!(parse_diff_entry_name(b"file.txt"), Err(FormatError::MissingDeltaMark));
    assert_eq!(parse_diff_entry_name(b""), Err(FormatError::MissingDeltaMark));
    assert_eq!(parse_diff_entry_name(b"f.zspatch"), Err(FormatError::BadChunkIndex));
    assert_eq!(parse_diff_entry_name(b"f.zspatch0x1"), Err(FormatError::BadChunkIndex));
    assert_eq!(parse_diff_entry_name(b"f.zspatch18446744073709551616"), Err(FormatError::BadChunkIndex));
}

#[test]
fn entry_categories() {
    assert_eq!(classify_entry(b"new_files/a/b.txt"), Ok(ArchiveEntry { kind: EntryKind::Added, inner_start: 10 }));
    assert_eq!(classify_entry(b"diff_files/a.txt.zspatch001"), Ok(ArchiveEntry { kind: EntryKind::Diff, inner_start: 11 }));
    assert_eq!(classify_entry(b"rm_files.txt"), Ok(ArchiveEntry { kind: EntryKind::RemovalList, inner_start: 12 }));
    assert_eq!(classify_entry(b"other/x"), Err(FormatError::UnknownCategory));
    assert_eq!(classify_entry(b"new_files"), Err(FormatError::UnknownCategory));
    assert_eq!(classify_entry(b"rm_files.txt/x"), Err(FormatError::UnknownCategory));
    assert_eq!(classify_entry(b""), Err(FormatError::UnknownCategory));
}

#[test]
fn removal_list_round_trip() {
    let paths = strings(&["c.txt", "dir/é.bin", ""]);
    let text = removal_list(&paths);
    assert_eq!(text, "c.txt\ndir/é.bin\n\n".as_bytes().to_vec());
    let lines = parse_removal_list(&text);
    let back: Vec<String> = lines.into_iter().map(|l| String::from_utf8(l).unwrap()).collect();
    assert_eq!(back, paths);
}

#[test]
fn removal_list_without_final_line_feed() {
    assert_eq!(parse_removal_list(b"a\nb"), vec![b"a".to_vec(), b"b".to_vec()]);
    assert_eq!(parse_removal_list(b""), Vec::<Vec<u8>>::new());
    assert_eq!(parse_removal_list(b"\n"), vec![Vec::<u8>::new()]);
    assert_eq!(removal_list(&vec![]), Vec::<u8>::new());
}

#[test]
fn reserved_paths() {
    assert!(is_reserved_path(b"root/.patchiniored/x"));
    assert!(is_reserved_path(b".patchiniored"));
    assert!(is_reserved_path(b"backup/a"));
    assert!(is_reserved_path(b"backup/diff_files/a.txt"));
    assert!(is_reserved_path(b"sub/backup"));
    assert!(!is_reserved_path(b"root/.patchinire/x"));
    assert!(!is_reserved_path(b"x.patchiniored.txt"));
    assert!(!is_reserved_path(b"backups/a"));
    assert!(!is_reserved_path(b"my_backup/a"));
    assert!(!is_reserved_path(b""));
}

#[test]
fn classification_keeps_input_order_and_multiplicity() {
    let old = strings(&["z", "a", "z", "m"]);
    let new = strings(&["m"]);
    let c = classify(&old, &new);
    assert_eq!(c.removed, strings(&["z", "a", "z"]));
    assert_eq!(c.common, strings(&["m"]));
    assert!(c.added.is_empty());
}

#[test]
fn pending_file_grouping() {
    let d = |index: u64| ChunkDelta { index, delta: vec![index as u8] };
    let mut pending: Option<PendingFile> = None;
    assert_eq!(push_delta(&mut pending, b"a".to_vec(), d(1)), None);
    assert_eq!(push_delta(&mut pending, b"a".to_vec(), d(3)), None);
    let finished = push_delta(&mut pending, b"b".to_vec(), d(2)).unwrap();
    assert_eq!(finished.path, b"a".to_vec());
    assert_eq!(finished.deltas, vec![d(1), d(3)]);
    let last = pending.unwrap();
    assert_eq!(last.path, b"b".to_vec());
    assert_eq!(last.deltas, vec![d(2)]);
}

#[test]
fn failed_removal_does_not_abort() {
    let mut report = ApplyReport::new();
    assert_eq!(report.outcome(), RunOutcome::Success);
    report.record_removal(true);
    report.record_rebuild(true);
    assert_eq!(report.outcome(), RunOutcome::Success);
    report.record_removal(false);
    assert_eq!(report.outcome(), RunOutcome::SuccessWithErrors);
    report.record_rebuild(true);
    assert_eq!(report.outcome(), RunOutcome::SuccessWithErrors);
}

#[test]
fn entry_names_read_back_for_many_indices() {
    for index in (0u64..1200).chain([u64::MAX - 1, 99_999]) {
        for path in [&b""[..], b"a.txt", b"d/x.zspatch3", b"weird.zspatch"] {
            let name = diff_entry_name(path, index);
            assert_eq!(parse_diff_entry_name(&name), Ok(DiffName { path_len: path.len(), index }));
        }
    }
}

#[test]
fn removal_list_reads_back_in_order() {
    let paths = strings(&["z/last", "a", "a", "ü/ñ"]);
    let lines = parse_removal_list(&removal_list(&paths));
    let expected: Vec<Vec<u8>> = paths.iter().map(|p| p.as_bytes().to_vec()).collect();
    assert_eq!(lines, expected);
}
