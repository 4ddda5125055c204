use nargun::file_layout::{dirs_by_asc_depth, piece_chunk, EmptyWrite, FilesInBounds, BLOCK_SIZE};
use nargun::metainfo::File;

fn file(path: &[&str], length: u64) -> File {
    File { path: path.iter().map(|s| s.to_string()).collect(), length }
}

fn sample_files() -> Vec<File> {
    vec![
        file(&["a", "one.mp3"], 100),
        file(&["a", "two.mp3"], 50),
        file(&["empty.txt"], 0),
        file(&["b", "c", "three.mp3"], 200),
    ]
}

fn collect(files: &[File], start: usize, end: usize) -> Vec<(String, usize, usize, usize, usize)> {
    let mut it = FilesInBounds::new(files, start, end);
    let mut out = Vec::new();
    while let Some(b) = it.next() {
        out.push((
            b.file.path.last().unwrap().clone(),
            b.start_within_iter_bounds,
            b.end_within_iter_bounds,
            b.file_bytes_before_iter,
            b.file_bytes_after_iter,
        ));
    }
    out
}

#[test]
fn files_in_bounds_whole_range() {
    let files = sample_files();
    let all = collect(&files, 0, usize::MAX);
    assert_eq!(all.len(), 4);
    assert_eq!(all[0], ("one.mp3".to_string(), 0, 100, 0, 0));
    assert_eq!(all[2], ("empty.txt".to_string(), 150, 150, 0, 0));
}

#[test]
fn files_in_bounds_partial_range() {
    let files = sample_files();
    let part = collect(&files, 99, 160);
    assert_eq!(
        part,
        vec![
            ("one.mp3".to_string(), 0, 1, 99, 0),
            ("two.mp3".to_string(), 1, 51, 0, 0),
            ("empty.txt".to_string(), 51, 51, 0, 0),
            ("three.mp3".to_string(), 51, 61, 0, 190),
        ]
    );
    let starts_at_second = collect(&files, 100, 120);
    assert_eq!(starts_at_second, vec![("two.mp3".to_string(), 0, 20, 0, 30)]);
}

#[test]
fn files_in_bounds_past_the_end() {
    let files = sample_files();
    assert!(collect(&files, 350, 400).is_empty());
    assert!(collect(&[], 0, 10).is_empty());
    // a walk whose end lies before its start finds no file that overlaps
    assert!(collect(&files, 200, 100).is_empty());
}

#[test]
fn files_in_bounds_parts_join() {
    let files = sample_files();
    let parts = collect(&files, 30, 340);
    assert_eq!(parts.len(), 4);
    assert_eq!(parts[0].1, 0);
    for k in 0..parts.len() - 1 {
        assert_eq!(parts[k].2, parts[k + 1].1);
    }
    assert_eq!(parts[3].2, 340 - 30);
    let lengths = [100usize, 50, 0, 200];
    for (k, p) in parts.iter().enumerate() {
        assert_eq!(p.3 + (p.2 - p.1) + p.4, lengths[k]);
    }
}

#[test]
fn dirs_come_shallow_first_and_once() {
    let files = sample_files();
    let dirs = dirs_by_asc_depth("/tmp/t/", &files);
    assert_eq!(dirs.len(), 3);
    assert!(dirs.contains(&"/tmp/t/a/".to_string()));
    assert!(dirs.contains(&"/tmp/t/b/".to_string()));
    assert!(dirs.contains(&"/tmp/t/b/c/".to_string()));
    let pos = |d: &str| dirs.iter().position(|x| x == d).unwrap();
    assert!(pos("/tmp/t/b/") < pos("/tmp/t/b/c/"));
}

#[test]
fn piece_chunk_spans_blocks() {
    let b0: Vec<u8> = (0..BLOCK_SIZE).map(|i| (i % 251) as u8).collect();
    let b1: Vec<u8> = (0..BLOCK_SIZE).map(|i| (i % 13) as u8).collect();
    let b2: Vec<u8> = vec![7u8; 100];
    let data = vec![b0.clone(), b1.clone(), b2.clone()];

    let inside = piece_chunk(&data, 10, 20).unwrap();
    assert_eq!(inside, b0[10..20].to_vec());

    let across = piece_chunk(&data, BLOCK_SIZE - 5, 2 * BLOCK_SIZE + 3).unwrap();
    let mut expected = b0[BLOCK_SIZE - 5..].to_vec();
    expected.extend_from_slice(&b1);
    expected.extend_from_slice(&b2[..3]);
    assert_eq!(across, expected);

    let whole_block = piece_chunk(&data, BLOCK_SIZE, 2 * BLOCK_SIZE).unwrap();
    assert_eq!(whole_block, b1);

    assert_eq!(piece_chunk(&data, 5, 5), Ok(vec![]));
    assert_eq!(piece_chunk(&data, BLOCK_SIZE, BLOCK_SIZE), Err(EmptyWrite));
}
