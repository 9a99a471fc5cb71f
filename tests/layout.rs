use fs_rebuild::chunks::FileMeta;
use fs_rebuild::layout::{
    archive_name, archive_names, chunk_url, chunk_urls, decimal_string, rebuild_outcome, split,
};

#[test]
fn archive_names_count_from_one() {
    assert_eq!(archive_names(3), vec!["1.tar.zst", "2.tar.zst", "3.tar.zst"]);
    assert_eq!(archive_names(11)[10], "11.tar.zst");
    assert!(archive_names(0).is_empty());
}

#[test]
fn chunk_urls_name_each_archive_on_the_host() {
    assert_eq!(
        chunk_urls("http://host:8000/chunks", 2),
        vec!["http://host:8000/chunks/1.tar.zst", "http://host:8000/chunks/2.tar.zst"]
    );
}

#[test]
fn rebuild_succeeds_when_every_chunk_does() {
    let outcomes: Vec<Result<(), String>> = vec![Ok(()), Ok(()), Ok(())];
    assert_eq!(rebuild_outcome(outcomes), Ok(()));
    assert_eq!(rebuild_outcome(Vec::<Result<(), String>>::new()), Ok(()));
}

#[test]
fn rebuild_fails_when_one_chunk_fails() {
    let outcomes = vec![Ok(()), Ok(()), Err("chunk 3".to_string()), Ok(())];
    assert_eq!(rebuild_outcome(outcomes), Err("chunk 3".to_string()));
}

#[test]
fn rebuild_reports_the_lowest_failed_chunk() {
    let outcomes = vec![Ok(()), Err("chunk 2".to_string()), Err("chunk 3".to_string())];
    assert_eq!(rebuild_outcome(outcomes), Err("chunk 2".to_string()));
}

#[test]
fn split_plans_one_archive_per_chunk() {
    let inv: Vec<FileMeta> = [("/d/a", 3u64), ("/d/b", 9), ("/d/c", 4), ("/d/e", 2)]
        .iter()
        .map(|(p, s)| FileMeta::new(p.to_string(), *s))
        .collect();
    let plans = split("/d".to_string(), inv, 2).unwrap();
    assert_eq!(plans.len(), 2);
    assert_eq!(plans[0].name, "1.tar.zst");
    assert_eq!(plans[0].members, vec!["/d/b"]);
    assert_eq!(plans[1].name, "2.tar.zst");
    assert_eq!(plans[1].members, vec!["/d/c", "/d/a", "/d/e"]);
    assert_eq!(plans[0].entries, vec!["b"]);
    assert_eq!(plans[1].entries, vec!["c", "a", "e"]);
}

#[test]
fn split_of_nothing_plans_empty_archives() {
    let plans = split("/d".to_string(), Vec::new(), 3).unwrap();
    assert_eq!(plans.len(), 3);
    assert!(plans.iter().all(|p| p.members.is_empty()));
    assert_eq!(plans[2].name, "3.tar.zst");
}

#[test]
fn split_stores_nested_files_under_relative_paths() {
    let inv = vec![
        FileMeta::new("/data/set/x/y/z.bin".to_string(), 5),
        FileMeta::new("/data/set/top".to_string(), 1),
    ];
    let plans = split("/data/set".to_string(), inv, 1).unwrap();
    assert_eq!(plans[0].entries, vec!["x/y/z.bin", "top"]);
}

#[test]
fn split_refuses_a_file_outside_the_root() {
    let inv = vec![
        FileMeta::new("/d/a".to_string(), 1),
        FileMeta::new("/elsewhere/b".to_string(), 2),
    ];
    assert!(split("/d".to_string(), inv, 2).is_none());
}

#[test]
fn decimal_strings() {
    assert_eq!(decimal_string(0), "0");
    assert_eq!(decimal_string(7), "7");
    assert_eq!(decimal_string(1204), "1204");
    assert_eq!(decimal_string(usize::MAX), usize::MAX.to_string());
}

#[test]
fn single_names_and_urls() {
    assert_eq!(archive_name(42), "42.tar.zst");
    assert_eq!(chunk_url("http://h", 10), "http://h/10.tar.zst");
}
