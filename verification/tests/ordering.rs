//! Set ordering behaviour.

use duplis::grouping::HashedFile;
use duplis::set_order::{
    CreateTimeSetOrder, KeyFetch, ModTimeSetOrder, NameAlphabeticSetOrder, NoopSetOrder,
    SymlinkSetOrder,
};
use duplis::util::LinkedPath;

fn lp(parts: &[&str]) -> LinkedPath {
    let segs: Vec<String> = parts.iter().map(|p| p.to_string()).collect();
    std::sync::Arc::try_unwrap(LinkedPath::from_path_buf(&segs))
        .ok()
        .unwrap()
}

fn hashed(parts: &[&str], ts: u64) -> HashedFile {
    HashedFile {
        file_version_timestamp: Some(ts),
        file_path: lp(parts),
    }
}

fn files() -> Vec<HashedFile> {
    vec![
        hashed(&["test_files", "ordering_first"], 0),
        hashed(&["test_files", "ordering_2"], 1),
        hashed(&["test_files", "ordering_z"], 2),
        hashed(&["test_files", "ordering_ABC"], 3),
    ]
}

fn names_of(fs: &[HashedFile]) -> Vec<String> {
    fs.iter()
        .map(|f| {
            duplis::util::display_path(&f.file_path.to_push_buf())
        })
        .collect()
}

fn paths_of(fs: &[HashedFile]) -> Vec<String> {
    names_of(fs)
}

fn permute(source: &[HashedFile], indices: &[usize]) -> Vec<HashedFile> {
    indices.iter().map(|&i| source[i].duplicate()).collect()
}

#[test]
fn test_ordering() {
    let base = files();
    // mtimes after overwriting the second and third file later:
    // first at t, ABC at t+150ms, then 2 at t+200ms and z at t+250ms
    let mtimes = vec![
        KeyFetch::At(0),
        KeyFetch::At(200),
        KeyFetch::At(250),
        KeyFetch::At(150),
    ];
    let ctimes = vec![
        KeyFetch::At(0),
        KeyFetch::At(50),
        KeyFetch::At(100),
        KeyFetch::At(150),
    ];

    let check = |got: &Vec<HashedFile>, expected: &[usize]| {
        let want = permute(&base, expected);
        assert_eq!(paths_of(got), paths_of(&want));
    };

    let mut v = permute(&base, &[0, 1, 2, 3]);
    ModTimeSetOrder::new(false).order(&mut v, &mtimes).unwrap();
    check(&v, &[0, 3, 1, 2]);

    let mut v = permute(&base, &[0, 1, 2, 3]);
    ModTimeSetOrder::new(true).order(&mut v, &mtimes).unwrap();
    check(&v, &[2, 1, 3, 0]);

    let mut v = permute(&base, &[2, 0, 3, 1]);
    let k = vec![ctimes[2], ctimes[0], ctimes[3], ctimes[1]];
    CreateTimeSetOrder::new(false).order(&mut v, &k).unwrap();
    // ascending creation time restores the original order
    assert_eq!(paths_of(&v), paths_of(&permute(&base, &[0, 1, 2, 3])));

    let mut v = permute(&base, &[2, 0, 3, 1]);
    let k = vec![ctimes[2], ctimes[0], ctimes[3], ctimes[1]];
    CreateTimeSetOrder::new(true).order(&mut v, &k).unwrap();
    assert_eq!(paths_of(&v), paths_of(&permute(&base, &[3, 2, 1, 0])));

    let mut v = permute(&base, &[0, 1, 2, 3]);
    let names = names_of(&v);
    NameAlphabeticSetOrder::new(false).order(&mut v, names).unwrap();
    check(&v, &[1, 3, 0, 2]);

    let mut v = permute(&base, &[0, 1, 2, 3]);
    let names = names_of(&v);
    NameAlphabeticSetOrder::new(true).order(&mut v, names).unwrap();
    check(&v, &[2, 0, 3, 1]);

    let mut v = permute(&base, &[0, 1, 2, 3]);
    NoopSetOrder::new().order(&mut v).unwrap();
    check(&v, &[0, 1, 2, 3]);
}

#[test]
fn test_modtime_scenario() {
    // A,B,C,D at t, t+50, t+100, t+150; B overwritten at t+200, C at t+250
    let base = vec![
        hashed(&["A"], 0),
        hashed(&["B"], 200),
        hashed(&["C"], 250),
        hashed(&["D"], 150),
    ];
    let keys = vec![
        KeyFetch::At(0),
        KeyFetch::At(200),
        KeyFetch::At(250),
        KeyFetch::At(150),
    ];
    let mut v = permute(&base, &[0, 1, 2, 3]);
    ModTimeSetOrder::new(false).order(&mut v, &keys).unwrap();
    assert_eq!(paths_of(&v), vec!["A", "D", "B", "C"]);
    let mut v = permute(&base, &[0, 1, 2, 3]);
    ModTimeSetOrder::new(true).order(&mut v, &keys).unwrap();
    assert_eq!(paths_of(&v), vec!["C", "B", "D", "A"]);
}

#[test]
fn test_missing_metadata_drops_file() {
    let base = files();
    let keys = vec![
        KeyFetch::At(5),
        KeyFetch::Missing,
        KeyFetch::At(1),
        KeyFetch::At(3),
    ];
    let mut v = permute(&base, &[0, 1, 2, 3]);
    ModTimeSetOrder::new(false).order(&mut v, &keys).unwrap();
    assert_eq!(paths_of(&v), paths_of(&permute(&base, &[2, 3, 0])));
}

#[test]
fn test_unsupported_key_reports() {
    let base = files();
    let keys = vec![
        KeyFetch::At(5),
        KeyFetch::Unsupported,
        KeyFetch::At(1),
        KeyFetch::At(3),
    ];
    let mut v = permute(&base, &[0, 1, 2, 3]);
    assert!(CreateTimeSetOrder::new(false).order(&mut v, &keys).is_err());
    assert!(v.is_empty());
}

#[test]
fn test_symlink_order_prefers_real_files() {
    let base = files();
    // 1 = symlink, 0 = regular; regular files come first, stably
    let keys = vec![
        KeyFetch::At(1),
        KeyFetch::At(0),
        KeyFetch::At(1),
        KeyFetch::At(0),
    ];
    let mut v = permute(&base, &[0, 1, 2, 3]);
    SymlinkSetOrder::new().order(&mut v, &keys).unwrap();
    assert_eq!(paths_of(&v), paths_of(&permute(&base, &[1, 3, 0, 2])));
}

#[test]
fn test_ordering_idempotent() {
    let base = files();
    let keys = vec![
        KeyFetch::At(7),
        KeyFetch::At(7),
        KeyFetch::At(1),
        KeyFetch::At(3),
    ];
    let mut once = permute(&base, &[0, 1, 2, 3]);
    ModTimeSetOrder::new(false).order(&mut once, &keys).unwrap();
    let first = paths_of(&once);
    // with fixed keys (now in sorted positions) a second pass changes nothing
    let keys_sorted = vec![
        KeyFetch::At(1),
        KeyFetch::At(3),
        KeyFetch::At(7),
        KeyFetch::At(7),
    ];
    ModTimeSetOrder::new(false)
        .order(&mut once, &keys_sorted)
        .unwrap();
    assert_eq!(paths_of(&once), first);
    // equal keys keep their original order (stability)
    assert_eq!(first, vec!["test_files/ordering_z", "test_files/ordering_ABC", "test_files/ordering_first", "test_files/ordering_2"]);
}
