use fs_rebuild::chunks::{build_output_chunks, sort_by_size_desc, FileMeta, OutputChunk, OutputChunks};

fn inventory(sizes: &[u64]) -> Vec<FileMeta> {
    sizes
        .iter()
        .enumerate()
        .map(|(i, s)| FileMeta::new(format!("/root/f{}", i), *s))
        .collect()
}

fn totals(chunks: &OutputChunks) -> Vec<u64> {
    chunks.chunks.iter().map(|c| c.size()).collect()
}

fn sizes_of(chunk: &OutputChunk) -> Vec<u64> {
    chunk.0.iter().map(|e| e.size).collect()
}

#[test]
fn greedy_steps_on_seven_files() {
    let chunks = build_output_chunks("/root".to_string(), inventory(&[10, 9, 8, 7, 6, 5, 1]), 3);
    assert_eq!(chunks.chunks.len(), 3);
    assert_eq!(sizes_of(&chunks.chunks[0]), vec![10, 5, 1]);
    assert_eq!(sizes_of(&chunks.chunks[1]), vec![9, 6]);
    assert_eq!(sizes_of(&chunks.chunks[2]), vec![8, 7]);
    assert_eq!(totals(&chunks), vec![16, 15, 15]);
}

#[test]
fn input_order_does_not_matter_for_sizes() {
    let chunks = build_output_chunks("/root".to_string(), inventory(&[1, 5, 7, 10, 6, 8, 9]), 3);
    assert_eq!(totals(&chunks), vec![16, 15, 15]);
}

#[test]
fn every_file_lands_in_exactly_one_chunk() {
    let inv = inventory(&[3, 1, 4, 1, 5, 9, 2, 6, 5, 3, 5]);
    let mut expected: Vec<String> = inv.iter().map(|e| e.path.clone()).collect();
    let chunks = build_output_chunks("/root".to_string(), inv, 4);
    let mut seen: Vec<String> = chunks
        .chunks
        .iter()
        .flat_map(|c| c.0.iter().map(|e| e.path.clone()))
        .collect();
    expected.sort();
    seen.sort();
    assert_eq!(seen, expected);
    assert_eq!(totals(&chunks).iter().sum::<u64>(), 44);
}

#[test]
fn empty_inventory_gives_empty_chunks() {
    let chunks = build_output_chunks("/root".to_string(), Vec::new(), 4);
    assert_eq!(chunks.chunks.len(), 4);
    assert!(chunks.chunks.iter().all(|c| c.0.is_empty()));
    assert_eq!(totals(&chunks), vec![0, 0, 0, 0]);
}

#[test]
fn more_chunks_than_files_leaves_some_empty() {
    let chunks = build_output_chunks("/root".to_string(), inventory(&[4, 2]), 4);
    assert_eq!(totals(&chunks), vec![4, 2, 0, 0]);
}

#[test]
fn single_chunk_takes_everything() {
    let chunks = build_output_chunks("/root".to_string(), inventory(&[2, 8, 5]), 1);
    assert_eq!(sizes_of(&chunks.chunks[0]), vec![8, 5, 2]);
}

#[test]
fn push_prefers_lowest_index_on_ties() {
    let mut chunks = OutputChunks::new("/root".to_string(), 3);
    chunks.push(FileMeta::new("/root/a".to_string(), 0));
    assert_eq!(chunks.chunks[0].0.len(), 1);
    chunks.push(FileMeta::new("/root/b".to_string(), 4));
    assert_eq!(chunks.chunks[0].0.len(), 2);
    chunks.push(FileMeta::new("/root/c".to_string(), 1));
    assert_eq!(totals(&chunks), vec![4, 1, 0]);
    chunks.push(FileMeta::new("/root/d".to_string(), 1));
    assert_eq!(totals(&chunks), vec![4, 1, 1]);
    chunks.push(FileMeta::new("/root/e".to_string(), 2));
    assert_eq!(totals(&chunks), vec![4, 3, 1]);
}

#[test]
fn sort_is_descending_and_stable() {
    let sorted = sort_by_size_desc(vec![
        FileMeta::new("a".to_string(), 2),
        FileMeta::new("b".to_string(), 7),
        FileMeta::new("c".to_string(), 2),
        FileMeta::new("d".to_string(), 0),
        FileMeta::new("e".to_string(), 7),
    ]);
    let names: Vec<&str> = sorted.iter().map(|e| e.path.as_str()).collect();
    assert_eq!(names, vec!["b", "e", "a", "c", "d"]);
}

fn optimum(sizes: &[u64], n: usize) -> u64 {
    let mut best = u64::MAX;
    let mut loads = vec![0u64; n];
    fn go(i: usize, sizes: &[u64], loads: &mut Vec<u64>, best: &mut u64) {
        if i == sizes.len() {
            let m = *loads.iter().max().unwrap();
            if m < *best {
                *best = m;
            }
            return;
        }
        for k in 0..loads.len() {
            loads[k] += sizes[i];
            go(i + 1, sizes, loads, best);
            loads[k] -= sizes[i];
        }
    }
    go(0, sizes, &mut loads, &mut best);
    best
}

fn assert_within_lpt_bound(sizes: &[u64], n: usize) {
    let chunks = build_output_chunks("/root".to_string(), inventory(sizes), n);
    let worst = *totals(&chunks).iter().max().unwrap();
    let opt = optimum(sizes, n);
    // worst <= (4/3 - 1/(3n)) * opt, in integers
    assert!(3 * (n as u64) * worst <= (4 * n as u64 - 1) * opt, "{:?} n={}", sizes, n);
}

#[test]
fn balance_bound_with_one_dominant_file() {
    assert_within_lpt_bound(&[1000, 3, 2, 2, 1, 1, 1, 1, 1], 3);
}

#[test]
fn balance_bound_with_many_small_files() {
    assert_within_lpt_bound(&[5, 5, 4, 4, 3, 3, 3, 2, 2, 1], 3);
}

#[test]
fn balance_bound_on_the_classic_worst_case() {
    // 2n+1 jobs: n, n, n+1, n+1, ..., 2n-1, 2n-1, n with n = 3
    let sizes = [5, 5, 4, 4, 3, 3, 3];
    let chunks = build_output_chunks("/root".to_string(), inventory(&sizes), 3);
    assert_eq!(*totals(&chunks).iter().max().unwrap(), 11);
    assert_eq!(optimum(&sizes, 3), 9);
    assert_within_lpt_bound(&sizes, 3);
}

#[test]
fn file_meta_keeps_its_fields() {
    let m = FileMeta::new("/x/y".to_string(), 12);
    assert_eq!(m.path, "/x/y");
    assert_eq!(m.size, 12);
}

#[test]
fn dominant_file_stays_alone_at_the_top() {
    let chunks = build_output_chunks("/root".to_string(), inventory(&[2, 30, 7, 0, 11, 9]), 2);
    let t = totals(&chunks);
    assert_eq!(t[0], 30);
    assert_eq!(sizes_of(&chunks.chunks[0]), vec![30]);
    assert_eq!(*t.iter().max().unwrap(), 30);
    assert_eq!(t[1], 29);
}
