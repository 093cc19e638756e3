//! The grouping engine end to end: hashing, refiners, placement.

use duplis::file_filters::{FileFilter, FileNameFilterKind, HiddenFileFilter};
use duplis::file_meta::{FileMeta, FileProbe};
use duplis::file_set_refiner::{
    CheckEqualsErrorOn, FileContentEquals, FileEqualsChecker, FileEqualsCheckerKind,
    FileSetRefiners, FileWorkload, PermissionEqualChecker,
};
use duplis::grouping::{GroupMap, HashedFile, PlaceAdvance, PlaceAfterCheck};
use duplis::hashing::{hash_file_content, CompositeHasher, HashFileError};
use duplis::input_source::{DiscoveringInputSource, EntryDirective, EntryKind};
use duplis::logger::parse_ignore_log_targets;
use duplis::logger::{DuplisLogger, LogLevelFilter};
use duplis::plan::{
    get_file_consume_action_args, get_set_order_options, parse_set_order, FileActionKind,
    SetOrderKind,
};
use duplis::set_consumer::{ChoiceInputReader, ScriptedChoiceReader};
use duplis::util::{DedupingInputSink, InputSink, LinkedPath};

fn lp(parts: &[&str]) -> LinkedPath {
    let segs: Vec<String> = parts.iter().map(|p| p.to_string()).collect();
    std::sync::Arc::try_unwrap(LinkedPath::from_path_buf(&segs))
        .ok()
        .unwrap()
}

fn hashed(parts: &[&str]) -> HashedFile {
    HashedFile {
        file_version_timestamp: Some(1),
        file_path: lp(parts),
    }
}

fn probe(content: &[u8], mode: u32) -> FileProbe {
    FileProbe {
        meta: Some(FileMeta {
            len: content.len() as u64,
            modified: Some(1),
            created: Some(1),
            is_symlink: false,
            mode,
            attributes: 0,
        }),
        content: Some(content.to_vec()),
    }
}

#[test]
fn test_hasher_matches_reference_digest() {
    let mut h = CompositeHasher::new();
    h.write(b"hello world");
    let mut reference = xxhash_rust::xxh3::Xxh3::new();
    reference.update(b"hello world");
    assert_eq!(h.digest128(), reference.digest128());
    // chunked feeding digests the same stream
    let mut h2 = CompositeHasher::new();
    h2.write(b"hello ");
    h2.write(b"world");
    assert_eq!(h2.digest128(), h.digest128());
    assert_ne!(
        CompositeHasher::new().digest128(),
        h.digest128()
    );
}

#[test]
fn test_hash_file_content_detects_modification() {
    let content = vec![1u8, 2, 3];
    // P3: a file whose mtime changed while hashing is never admitted
    let changed = hash_file_content(&content, Some(5), Some(6));
    assert!(matches!(changed, Err(HashFileError::FileChanged)));
    let (h, ts) = hash_file_content(&content, Some(5), Some(5)).unwrap();
    assert_eq!(ts, Some(5));
    let mut reference = xxhash_rust::xxh3::Xxh3::new();
    reference.update(&content);
    assert_eq!(h.digest128(), reference.digest128());
}

#[test]
fn test_refiners_sorted_and_anded() {
    let refiners = FileSetRefiners::new(vec![
        FileEqualsCheckerKind::Content(FileContentEquals::new()),
        FileEqualsCheckerKind::Permission(PermissionEqualChecker::new()),
    ]);
    // equal content, equal permissions
    let a = probe(b"same", 0o644);
    let b = probe(b"same", 0o644);
    assert_eq!(refiners.check_equal(&a, &b), Ok(true));
    // equal content, different permissions
    let c = probe(b"same", 0o600);
    assert_eq!(refiners.check_equal(&a, &c), Ok(false));
    // different content, equal permissions
    let d = probe(b"other", 0o644);
    assert_eq!(refiners.check_equal(&a, &d), Ok(false));
    // a missing side is blamed correctly
    let missing = FileProbe { meta: None, content: None };
    assert_eq!(
        refiners.check_equal(&missing, &b),
        Err(CheckEqualsErrorOn::First)
    );
    assert_eq!(
        refiners.check_equal(&a, &missing),
        Err(CheckEqualsErrorOn::Second)
    );
}

#[test]
fn test_permission_equal_checker() {
    // files with different permission bits are unequal and hash to
    // different components; equal bits agree on both counts
    let checker = PermissionEqualChecker::new();
    let file1 = probe(b"", 0o777);
    let file2 = probe(b"", 0o677);
    assert_eq!(checker.check_equal(&file1, &file2), Ok(false));
    let mut hash1 = CompositeHasher::new();
    checker.hash_component(&file1, &mut hash1).unwrap();
    let mut hash2 = CompositeHasher::new();
    checker.hash_component(&file2, &mut hash2).unwrap();
    assert_ne!(hash1.digest128(), hash2.digest128());

    let file1 = probe(b"", 0o644);
    let file2 = probe(b"", 0o644);
    assert_eq!(checker.check_equal(&file1, &file2), Ok(true));
    let mut hash1 = CompositeHasher::new();
    checker.hash_component(&file1, &mut hash1).unwrap();
    let mut hash2 = CompositeHasher::new();
    checker.hash_component(&file2, &mut hash2).unwrap();
    assert_eq!(hash1.digest128(), hash2.digest128());
    // the mode bits beyond the permission bits do not discriminate
    let special = probe(b"", 0o100644);
    assert_eq!(checker.check_equal(&file1, &special), Ok(true));
}

#[test]
fn test_severity_order() {
    assert_eq!(
        FileContentEquals::new().work_severity(),
        FileWorkload::FileContent
    );
    assert_eq!(
        PermissionEqualChecker::new().work_severity(),
        FileWorkload::FileMetadata
    );
    let (first, second) = CheckEqualsErrorOn::Both.is_faulty();
    assert!(first && second);
    assert_eq!(CheckEqualsErrorOn::first_err(), CheckEqualsErrorOn::First);
    assert_eq!(CheckEqualsErrorOn::second_err(), CheckEqualsErrorOn::Second);
}

/// Drives a full placement of one file, answering byte-wise checks from
/// the probes.
fn place(
    map: &mut GroupMap,
    composite: u128,
    content_digest: u128,
    file: &HashedFile,
    my_probe: &FileProbe,
    probes: &dyn Fn(&[String]) -> FileProbe,
) -> bool {
    let refiners = FileSetRefiners::new(vec![FileEqualsCheckerKind::Content(
        FileContentEquals::new(),
    )]);
    let mut pos = 0usize;
    loop {
        match map.place_advance(composite, content_digest, pos, file) {
            PlaceAdvance::PlacedNew => return true,
            PlaceAdvance::NeedCheck(i) => {
                let head = map.head_segments(composite, i);
                let head_probe = probes(&head);
                let verdict = refiners.check_equal(&head_probe, my_probe);
                match map.apply_check(composite, i, verdict, file) {
                    PlaceAfterCheck::Placed => return true,
                    PlaceAfterCheck::Abandoned => return false,
                    PlaceAfterCheck::Continue(next) => pos = next,
                }
            }
        }
    }
}

#[test]
fn test_grouping_engine() {
    // two byte-identical files, one differing file under the same
    // composite digest (a refiner-only collision), one under another
    let mut map = GroupMap::new();
    let fa = hashed(&["test_files", "ga"]);
    let fb = hashed(&["test_files", "gb"]);
    let fc = hashed(&["test_files", "gc"]);
    let fd = hashed(&["test_files", "gd"]);
    let contents = |segs: &[String]| -> FileProbe {
        match segs.last().unwrap().as_str() {
            "ga" | "gb" => probe(b"same", 0o644),
            "gc" => probe(b"coll", 0o644),
            _ => probe(b"far", 0o644),
        }
    };
    assert!(place(&mut map, 7, 100, &fa, &probe(b"same", 0o644), &contents));
    assert!(place(&mut map, 7, 100, &fb, &probe(b"same", 0o644), &contents));
    // same composite digest but different content digest: never compared,
    // lands in its own set (no cross-bucket equality inside the bucket)
    assert!(place(&mut map, 7, 200, &fc, &probe(b"coll", 0o644), &contents));
    // different composite digest: a different bucket entirely
    assert!(place(&mut map, 9, 300, &fd, &probe(b"far", 0o644), &contents));

    let sets = map.into_sets();
    let mut summary: Vec<(u128, Vec<String>)> = sets
        .into_iter()
        .map(|s| {
            let key = s.content_key();
            let names: Vec<String> = s
                .into_files()
                .into_iter()
                .map(|f| duplis::util::display_path(&f.file_path.to_push_buf()))
                .collect();
            (key, names)
        })
        .collect();
    summary.sort();
    assert_eq!(
        summary,
        vec![
            (
                100,
                vec![
                    "test_files/ga".to_string(),
                    "test_files/gb".to_string()
                ]
            ),
            (200, vec!["test_files/gc".to_string()]),
            (300, vec!["test_files/gd".to_string()]),
        ]
    );
}

#[test]
fn test_faulty_head_is_dropped() {
    // the set head becomes unreadable during verification: it leaves its
    // set, and the newcomer opens a fresh set in the same bucket
    let mut map = GroupMap::new();
    let fa = hashed(&["ha"]);
    let fb = hashed(&["hb"]);
    let contents = |segs: &[String]| -> FileProbe {
        match segs.last().unwrap().as_str() {
            "ha" => FileProbe { meta: None, content: None },
            _ => probe(b"x", 0o644),
        }
    };
    assert!(place(&mut map, 1, 1, &fa, &probe(b"x", 0o644), &contents));
    assert!(place(&mut map, 1, 1, &fb, &probe(b"x", 0o644), &contents));
    let sets = map.into_sets();
    let names: Vec<Vec<String>> = sets
        .into_iter()
        .map(|s| {
            s.into_files()
                .into_iter()
                .map(|f| duplis::util::display_path(&f.file_path.to_push_buf()))
                .collect()
        })
        .collect();
    assert_eq!(names, vec![Vec::<String>::new(), vec!["hb".to_string()]]);
}

#[test]
fn test_faulty_newcomer_is_abandoned() {
    let mut map = GroupMap::new();
    let fa = hashed(&["ja"]);
    let fb = hashed(&["jb"]);
    let good = |_: &[String]| -> FileProbe { probe(b"x", 0o644) };
    assert!(place(&mut map, 1, 1, &fa, &probe(b"x", 0o644), &good));
    let broken = FileProbe { meta: None, content: None };
    assert!(!place(&mut map, 1, 1, &fb, &broken, &good));
}

struct CountingSink(std::rc::Rc<std::cell::RefCell<usize>>);

impl InputSink for CountingSink {
    fn put(&mut self, _path: LinkedPath) {
        *self.0.borrow_mut() += 1;
    }
}

#[test]
fn test_dedup_sink_forwards_once() {
    let count = std::rc::Rc::new(std::cell::RefCell::new(0usize));
    let mut sink = DedupingInputSink::new(CountingSink(count.clone()));
    sink.put(lp(&["a", "b"]));
    sink.put(lp(&["a", "c"]));
    sink.put(lp(&["a", "b"]));
    sink.put(lp(&["a", "b"]));
    // only the two distinct paths went through
    assert_eq!(*count.borrow(), 2);
}

#[test]
fn test_logger_policy() {
    let logger = DuplisLogger::new(
        vec!["action_success".to_string()],
        LogLevelFilter::Info,
    );
    assert!(logger.enabled(LogLevelFilter::Error, "file_error"));
    assert!(logger.enabled(LogLevelFilter::Info, "file_error"));
    assert!(!logger.enabled(LogLevelFilter::Debug, "file_error"));
    assert!(!logger.enabled(LogLevelFilter::Info, "action_success"));
}

#[test]
fn test_path_model() {
    let root = LinkedPath::root("/");
    let child = LinkedPath::new_child(&root, "etc".to_string());
    let buf = child.to_push_buf();
    assert_eq!(buf, vec!["/".to_string(), "etc".to_string()]);
    assert_eq!(duplis::util::display_path(&buf), "/etc");
    let same = lp(&["/", "etc"]);
    assert!(child == same);
    let other = lp(&["/", "var"]);
    assert!(child != other);
    assert!(duplis::util::path_contains_comma("a,b"));
    assert!(!duplis::util::path_contains_comma("ab"));
    let mut buf2: Vec<String> = vec!["junk".to_string()];
    child.write_full_to_buf(&mut buf2);
    assert_eq!(buf2, buf);
}

#[test]
fn test_plan_tables() {
    let actions = get_file_consume_action_args();
    assert_eq!(actions.len(), 3);
    assert_eq!(actions[0].action, FileActionKind::Delete);
    assert_eq!(actions[0].long, "delete");
    assert_eq!(get_set_order_options().len(), 7);
    let stack = parse_set_order(&vec!["alphabetic".to_string(), "modtime".to_string()]);
    // reversed: the most significant ordering runs last
    assert_eq!(
        stack,
        vec![SetOrderKind::ModTime(false), SetOrderKind::Alphabetic(false)]
    );
    let fallback = parse_set_order(&vec![]);
    assert_eq!(fallback, vec![SetOrderKind::ModTime(false)]);
}

#[test]
fn test_scripted_reader_consumes_lines() {
    let mut r = ScriptedChoiceReader::new(vec!["a\n".to_string(), "b\n".to_string()]);
    let mut buf = String::new();
    r.read_remaining(&mut buf).unwrap();
    assert_eq!(buf, "a\n");
    buf.clear();
    r.read_remaining(&mut buf).unwrap();
    assert_eq!(buf, "b\n");
    buf.clear();
    r.read_remaining(&mut buf).unwrap();
    assert_eq!(buf, "");
}

#[test]
fn test_walker_decisions() {
    struct Collecting(std::rc::Rc<std::cell::RefCell<Vec<String>>>);

    impl InputSink for Collecting {
        fn put(&mut self, path: LinkedPath) {
            self.0
                .borrow_mut()
                .push(duplis::util::display_path(&path.to_push_buf()));
        }
    }

    let got = std::rc::Rc::new(std::cell::RefCell::new(Vec::new()));
    let mut sink = Collecting(got.clone());
    let root = LinkedPath::root("/");
    let filter = FileFilter(
        vec![FileNameFilterKind::Hidden(HiddenFileFilter::new())],
        vec![],
    );
    let mut source = DiscoveringInputSource::new(true, true, vec![root], filter);

    let dir = source.next_dir().unwrap();
    // a plain file passes the filters and is emitted
    let d = source.consume_entry(&dir, &"kept".to_string(), EntryKind::File, None, &mut sink);
    assert_eq!(d, EntryDirective::Done);
    // a hidden file is dropped
    source.consume_entry(&dir, &".dropped".to_string(), EntryKind::File, None, &mut sink);
    // a directory is queued for the recursive walk
    source.consume_entry(&dir, &"sub".to_string(), EntryKind::Directory, None, &mut sink);
    // a symlink is handed back for resolution
    let d = source.consume_entry(&dir, &"link".to_string(), EntryKind::Symlink, None, &mut sink);
    assert_eq!(d, EntryDirective::FollowSymlink);
    let target = vec!["/".to_string(), "elsewhere".to_string(), "real".to_string()];
    source.consume_followed_symlink(
        &target,
        EntryKind::File,
        &FileMeta {
            len: 1,
            modified: Some(0),
            created: Some(0),
            is_symlink: false,
            mode: 0o644,
            attributes: 0,
        },
        &mut sink,
    );

    let next = source.next_dir().unwrap();
    assert_eq!(duplis::util::display_path(&next.to_push_buf()), "/sub");
    assert!(source.next_dir().is_none());
    assert_eq!(*got.borrow(), vec!["/kept".to_string(), "/elsewhere/real".to_string()]);
}

#[test]
fn test_log_target_selection() {
    assert!(parse_ignore_log_targets(None, None).is_empty());
    // choosing exactly one target silences the other seven
    let set = vec!["ACTION_SUCCESS".to_string().to_ascii_lowercase()];
    let silenced = parse_ignore_log_targets(Some(&set), None);
    assert_eq!(silenced.len(), 7);
    assert!(!silenced.contains(&"action_success".to_string()));
    // ~ silences, + lifts the silence again
    let changes = vec!["~file_error".to_string(), "~config_err".to_string(), "+file_error".to_string()];
    let silenced = parse_ignore_log_targets(None, Some(&changes));
    assert_eq!(silenced, vec!["config_err".to_string()]);
}
