//! Filter behaviour: sizes, extensions, hidden files, path blacklists.

use duplis::file_filters::{
    ExtensionFilter, FileFilter, FileMetadataFilterKind, FileNameFilterKind, HiddenFileFilter,
    MaxSizeFileFilter, MinSizeFileFilter, PathFilter,
};
use duplis::file_meta::FileMeta;

fn meta_of_len(len: u64) -> FileMeta {
    FileMeta {
        len,
        modified: Some(0),
        created: Some(0),
        is_symlink: false,
        mode: 0o644,
        attributes: 0,
    }
}

fn segs(parts: &[&str]) -> Vec<String> {
    parts.iter().map(|p| p.to_string()).collect()
}

#[test]
fn test_file_filter() {
    let metas: Vec<FileMeta> = (0u64..5).map(meta_of_len).collect();

    let keep = |f: &MinSizeFileFilter| -> Vec<usize> {
        metas
            .iter()
            .enumerate()
            .filter(|(_, m)| f.filter_file_metadata(m).unwrap())
            .map(|(i, _)| i)
            .collect()
    };
    let keep_max = |f: &MaxSizeFileFilter| -> Vec<usize> {
        metas
            .iter()
            .enumerate()
            .filter(|(_, m)| f.filter_file_metadata(m).unwrap())
            .map(|(i, _)| i)
            .collect()
    };

    assert_eq!(keep(&MinSizeFileFilter::new(0)), vec![1, 2, 3, 4]);
    assert_eq!(keep(&MinSizeFileFilter::new(1)), vec![2, 3, 4]);
    assert_eq!(keep(&MinSizeFileFilter::new(4)), Vec::<usize>::new());
    assert_eq!(keep_max(&MaxSizeFileFilter::new(4)), vec![0, 1, 2, 3]);
    assert_eq!(keep_max(&MaxSizeFileFilter::new(3)), vec![0, 1, 2]);
    assert_eq!(keep_max(&MaxSizeFileFilter::new(1)), vec![0]);
    assert_eq!(keep_max(&MaxSizeFileFilter::new(0)), Vec::<usize>::new());
}

fn exts(list: &[&str]) -> Vec<String> {
    list.iter().map(|e| e.to_string()).collect()
}

fn kept_by_name(files: &[Vec<String>], filter: &ExtensionFilter) -> Vec<usize> {
    files
        .iter()
        .enumerate()
        .filter(|(_, f)| filter.filter_file_name(f).unwrap())
        .map(|(i, _)| i)
        .collect()
}

#[test]
fn test_filter_extension() {
    let files = vec![
        segs(&["test_files", "ext.ea"]),
        segs(&["test_files", "ext.eb"]),
        segs(&["test_files", "ext.ec"]),
        segs(&["test_files", "ext"]),
    ];

    let filterer = ExtensionFilter::new(exts(&["ea", "ec"]), false, false);
    assert_eq!(kept_by_name(&files, &filterer), vec![1, 3]);

    let filterer = ExtensionFilter::new(exts(&["ea", "ec"]), true, false);
    assert_eq!(kept_by_name(&files, &filterer), vec![1]);

    let filterer = ExtensionFilter::new(exts(&["ea", "ec"]), false, true);
    assert_eq!(kept_by_name(&files, &filterer), vec![0, 2]);

    let filterer = ExtensionFilter::new(exts(&["ea", "ec"]), true, true);
    assert_eq!(kept_by_name(&files, &filterer), vec![0, 2, 3]);
}

fn kept_by_path(files: &[Vec<String>], filter: &PathFilter) -> Vec<usize> {
    files
        .iter()
        .enumerate()
        .filter(|(_, f)| filter.filter_file_name(f).unwrap())
        .map(|(i, _)| i)
        .collect()
}

#[test]
fn test_filter_path() {
    let files = vec![
        segs(&["test_files", "test_filter_prefix", "sdir1", "ssdir1", "file0"]),
        segs(&["test_files", "test_filter_prefix", "sdir1", "file1"]),
        segs(&["test_files", "test_filter_prefix", "sdir1", "ssdir2", "file2"]),
        segs(&["test_files", "test_filter_prefix", "sdir2", "ssdir1", "file3"]),
        segs(&["test_files", "test_filter_prefix", "sdir2", "file4"]),
        segs(&["test_files", "test_filter_prefix", "file5"]),
    ];

    let filterer = PathFilter::new(&vec![segs(&["test_files"])]);
    assert_eq!(kept_by_path(&files, &filterer), Vec::<usize>::new());

    let filterer = PathFilter::new(&vec![segs(&["test_files", "test_filter_prefix", "sdir1"])]);
    assert_eq!(kept_by_path(&files, &filterer), vec![3, 4, 5]);

    let filterer = PathFilter::new(&vec![
        segs(&["test_files", "test_filter_prefix", "sdir1", "ssdir1"]),
        segs(&["test_files", "test_filter_prefix", "sdir1"]),
    ]);
    assert_eq!(kept_by_path(&files, &filterer), vec![3, 4, 5]);

    let filterer = PathFilter::new(&vec![segs(&[
        "test_files",
        "test_filter_prefix",
        "sdir1",
        "ssdir1",
    ])]);
    assert_eq!(kept_by_path(&files, &filterer), vec![1, 2, 3, 4, 5]);

    let filterer = PathFilter::new(&vec![
        segs(&["test_files", "test_filter_prefix", "sdir1", "ssdir1"]),
        segs(&["test_files", "test_filter_prefix", "sdir2", "ssdir1"]),
    ]);
    assert_eq!(kept_by_path(&files, &filterer), vec![1, 2, 4, 5]);

    let filterer = PathFilter::new(&vec![segs(&[
        "test_files",
        "test_filter_prefix",
        "sdir1",
        "file1",
    ])]);
    assert_eq!(kept_by_path(&files, &filterer), vec![0, 2, 3, 4, 5]);
}

#[test]
fn test_blacklist_prefix_tree_scenario() {
    // blacklist {/root/s1/ss1, /root/s2/ss1}
    let filterer = PathFilter::new(&vec![
        segs(&["/", "root", "s1", "ss1"]),
        segs(&["/", "root", "s2", "ss1"]),
    ]);
    let files = vec![
        segs(&["/", "root", "s1", "ss1", "f1"]),
        segs(&["/", "root", "s1", "f2"]),
        segs(&["/", "root", "s1", "ss2", "f3"]),
        segs(&["/", "root", "s2", "ss1", "f4"]),
        segs(&["/", "root", "s2", "f5"]),
        segs(&["/", "root", "f6"]),
    ];
    assert_eq!(kept_by_path(&files, &filterer), vec![1, 2, 4, 5]);
}

#[test]
fn test_hidden_filter() {
    let f = HiddenFileFilter::new();
    assert!(f.filter_file_name(&segs(&["a", "b", "c"])).unwrap());
    assert!(!f.filter_file_name(&segs(&["a", ".b", "c"])).unwrap());
    assert!(!f.filter_file_name(&segs(&[".hidden"])).unwrap());
}

#[test]
fn test_filter_stack() {
    let stack = FileFilter(
        vec![FileNameFilterKind::Hidden(HiddenFileFilter::new())],
        vec![FileMetadataFilterKind::MinSize(MinSizeFileFilter::new(0))],
    );
    assert!(stack.needs_metadata());
    assert!(stack.keep_file_md(&segs(&["a", "b"]), &meta_of_len(5)));
    assert!(!stack.keep_file_md(&segs(&["a", "b"]), &meta_of_len(0)));
    assert!(!stack.keep_file_md(&segs(&["a", ".b"]), &meta_of_len(5)));
}

#[test]
fn test_attribute_filter() {
    let f = duplis::file_filters::FileAttributeFilter::new(0b110);
    let mut meta = meta_of_len(1);
    meta.attributes = 0b001;
    assert!(f.filter_file_metadata(&meta).unwrap());
    meta.attributes = 0b100;
    assert!(!f.filter_file_metadata(&meta).unwrap());
}
