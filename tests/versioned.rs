use fs_rebuild::versioned::{Path, Query};

#[test]
fn path_keeps_its_fields() {
    let p = Path::new("a/b.txt".to_string(), vec![1, 2, 3], 0o644);
    assert_eq!(p.path, "a/b.txt");
    assert_eq!(p.bytes, vec![1, 2, 3]);
    assert_eq!(p.mode, 0o644);
}

#[test]
fn hash_of_known_contents() {
    let p = Path::new("abc".to_string(), b"abc".to_vec(), 0);
    let h = p.hash_bytes();
    let hex: String = h.0.iter().map(|b| format!("{:02x}", b)).collect();
    assert_eq!(hex, "ba7816bf8f01cfea414140de5dae2223b00361a396177a9cb410ff61f20015ad");
}

#[test]
fn hash_of_empty_contents() {
    let h = Path::new("e".to_string(), Vec::new(), 0).hash_bytes();
    assert_eq!(h.0[0], 0xe3);
    assert_eq!(h.0[31], 0x55);
}

#[test]
fn queries_carry_their_arguments() {
    let q = Query::Read("dir/f".to_string(), true, 7);
    assert!(matches!(q, Query::Read(ref p, true, 7) if p == "dir/f"));
    let l = Query::ListLatest("dir".to_string(), false);
    assert!(matches!(l, Query::ListLatest(_, false)));
}
