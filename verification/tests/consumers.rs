//! Consumer behaviour: dry runs, unconditional and interactive actions,
//! machine-readable output.

use std::cell::RefCell;
use std::collections::HashSet;
use std::rc::Rc;

use duplis::error_handling::{AlreadyReportedError, Recoverable};
use duplis::grouping::HashedFile;
use duplis::set_consumer::{
    parse_choice, Choice, ChoiceInputReader, CollectingLineSink, DryRun, FileConsumeAction,
    FileConsumeResult, InteractiveEachChoice, LineSink, MachineReadableEach, MachineReadableSet,
    RecordingConsumeAction, ScriptedChoiceReader, UnconditionalAction,
};
use duplis::util::{display_path, DedupingInputSink, InputSink, LinkedPath};

fn lp(parts: &[&str]) -> LinkedPath {
    let segs: Vec<String> = parts.iter().map(|p| p.to_string()).collect();
    std::sync::Arc::try_unwrap(LinkedPath::from_path_buf(&segs))
        .ok()
        .unwrap()
}

fn hashed(parts: &[&str]) -> HashedFile {
    HashedFile {
        file_version_timestamp: Some(0),
        file_path: lp(parts),
    }
}

fn name_of(f: &HashedFile) -> String {
    display_path(&f.file_path.to_push_buf())
}

/// Records everything written, readable from outside the consumer.
#[derive(Default, Clone)]
struct RecordingSink(Rc<RefCell<Vec<String>>>);

impl RecordingSink {
    fn contents(&self) -> String {
        self.0.borrow().concat()
    }
}

impl LineSink for RecordingSink {
    fn write_text(&mut self, text: &str) -> bool {
        self.0.borrow_mut().push(text.to_string());
        true
    }
}

/// Refuses every write.
struct FailingSink;

impl LineSink for FailingSink {
    fn write_text(&mut self, _text: &str) -> bool {
        false
    }
}

/// An action that must never run.
struct UnreachableFileConsumer;

impl FileConsumeAction for UnreachableFileConsumer {
    fn consume(&mut self, path: &LinkedPath, original: Option<&LinkedPath>) -> FileConsumeResult {
        panic!(
            "should be unreachable: {:?}, {:?}",
            path.to_push_buf(),
            original.map(|o| o.to_push_buf())
        )
    }

    fn requires_original(&self) -> bool {
        true
    }

    fn short_name(&self) -> String {
        "fail".to_string()
    }

    fn short_opposite(&self) -> String {
        "don't fail".to_string()
    }
}

/// An action that checks off expected (duplicate, original) pairs.
struct ExpectingConsumeAction(Rc<RefCell<HashSet<(String, Option<String>)>>>);

impl FileConsumeAction for ExpectingConsumeAction {
    fn consume(&mut self, path: &LinkedPath, original: Option<&LinkedPath>) -> FileConsumeResult {
        let key = (
            display_path(&path.to_push_buf()),
            original.map(|o| display_path(&o.to_push_buf())),
        );
        assert!(self.0.borrow_mut().remove(&key), "unexpected: {key:?}");
        Ok(())
    }

    fn requires_original(&self) -> bool {
        false
    }

    fn short_name(&self) -> String {
        "check for".to_string()
    }

    fn short_opposite(&self) -> String {
        "ignore".to_string()
    }
}

#[test]
fn test_unconditional_set_consumer() {
    // the first file of the set has been deleted before consumption: the
    // consumer advances to the next candidate and touches nothing
    let file1 = hashed(&["test_files", "uncond_set_consumer1"]);
    let file2 = hashed(&["test_files", "uncond_set_consumer2"]);
    let mut consumer = UnconditionalAction::new(UnreachableFileConsumer);
    let set = vec![file1.duplicate(), file2.duplicate()];
    consumer.consume_set(&set, &vec![false, true]).unwrap();
    let set = vec![file2.duplicate(), file1.duplicate()];
    consumer.consume_set(&set, &vec![true, false]).unwrap();
}

#[test]
fn test_unconditional_all_missing_is_noop() {
    let set = vec![hashed(&["a"]), hashed(&["b"])];
    let mut consumer = UnconditionalAction::new(UnreachableFileConsumer);
    consumer.consume_set(&set, &vec![false, false]).unwrap();
}

struct FatalAction;

impl FileConsumeAction for FatalAction {
    fn consume(&mut self, _path: &LinkedPath, _original: Option<&LinkedPath>) -> FileConsumeResult {
        Err(Recoverable::Fatal(AlreadyReportedError))
    }

    fn requires_original(&self) -> bool {
        false
    }

    fn short_name(&self) -> String {
        "boom".to_string()
    }

    fn short_opposite(&self) -> String {
        "keep".to_string()
    }
}

#[test]
fn test_unconditional_fatal_aborts() {
    let set = vec![hashed(&["a"]), hashed(&["b"])];
    let mut consumer = UnconditionalAction::new(FatalAction);
    assert!(consumer.consume_set(&set, &vec![true, true]).is_err());
}

#[test]
fn test_interactive_set_action() {
    let file1 = hashed(&["test_files", "interactive_set_action1"]);
    let file2 = hashed(&["test_files", "interactive_set_action2"]);
    let file3 = hashed(&["test_files", "interactive_set_action3"]);

    // deleted original: nothing is attempted
    let reader = ScriptedChoiceReader::new(vec![]);
    let mut consumer = InteractiveEachChoice::new(reader, RecordingSink::default(), UnreachableFileConsumer);
    let set = vec![file1.duplicate(), file2.duplicate()];
    consumer.consume_set(&set, &vec![false, true]).unwrap();
    let set = vec![file2.duplicate(), file1.duplicate()];
    consumer.consume_set(&set, &vec![true, false]).unwrap();

    // inputs "y\nn" on [f1, f2, f3]: only (f2, original = f1) is attempted
    let expected = Rc::new(RefCell::new(HashSet::from([(
        name_of(&file2),
        Some(name_of(&file1)),
    )])));
    let reader = ScriptedChoiceReader::new(vec!["y\n".to_string(), "n".to_string()]);
    let mut consumer = InteractiveEachChoice::new(
        reader,
        RecordingSink::default(),
        ExpectingConsumeAction(expected.clone()),
    );
    let set = vec![file1.duplicate(), file2.duplicate(), file3.duplicate()];
    consumer.consume_set(&set, &vec![true, true, true]).unwrap();
    assert!(expected.borrow().is_empty());

    // inputs "no\nyes" on [f1, f3, f2]: again only (f2, original = f1)
    let expected = Rc::new(RefCell::new(HashSet::from([(
        name_of(&file2),
        Some(name_of(&file1)),
    )])));
    let reader = ScriptedChoiceReader::new(vec!["no\n".to_string(), "yes".to_string()]);
    let mut consumer = InteractiveEachChoice::new(
        reader,
        RecordingSink::default(),
        ExpectingConsumeAction(expected.clone()),
    );
    let set = vec![file1.duplicate(), file3.duplicate(), file2.duplicate()];
    consumer.consume_set(&set, &vec![true, true, true]).unwrap();
    assert!(expected.borrow().is_empty());
}

#[test]
fn test_interactive_reprompts_and_eof_aborts() {
    let file1 = hashed(&["a"]);
    let file2 = hashed(&["b"]);
    // garbage then yes
    let expected = Rc::new(RefCell::new(HashSet::from([(
        name_of(&file2),
        Some(name_of(&file1)),
    )])));
    let reader = ScriptedChoiceReader::new(vec!["maybe\n".to_string(), "YES\n".to_string()]);
    let mut consumer = InteractiveEachChoice::new(
        reader,
        RecordingSink::default(),
        ExpectingConsumeAction(expected.clone()),
    );
    let set = vec![file1.duplicate(), file2.duplicate()];
    consumer.consume_set(&set, &vec![true, true]).unwrap();
    assert!(expected.borrow().is_empty());

    // input closed: the run aborts
    let reader = ScriptedChoiceReader::new(vec![]);
    let mut consumer =
        InteractiveEachChoice::new(reader, RecordingSink::default(), UnreachableFileConsumer);
    let set = vec![hashed(&["a"]), hashed(&["b"])];
    assert!(consumer.consume_set(&set, &vec![true, true]).is_err());
}

#[test]
fn test_dry_run_output() {
    let set = vec![
        hashed(&["test_files", "d1"]),
        hashed(&["test_files", "d2"]),
        hashed(&["test_files", "d3"]),
    ];
    let mut dry = DryRun::new_with(RecordingSink::default());
    dry.consume_set(&set).unwrap();
    let text = duplis::set_consumer::render_dry_run(&set);
    assert_eq!(
        text,
        "keeping test_files/d1, dry-deleting test_files/d2, test_files/d3\n"
    );
    let mut failing = DryRun::new_with(FailingSink);
    assert!(failing.consume_set(&set).is_err());
}

#[test]
fn test_machine_readable_each() {
    // deleted original: consuming is a no-op
    let sink = RecordingSink::default();
    let mut mreadable = MachineReadableEach::new(sink.clone());
    mreadable
        .consume_set(&vec![None, Some("test_files/m_read_each_2".to_string())])
        .unwrap();
    assert_eq!(sink.contents(), "");

    let file1p = "test_files/m_read_each_1".to_string();
    let file2p = "test_files/m_read_each_2".to_string();
    let file3p = "test_files/m_read_each_3".to_string();
    let filecp = "test_files/,file".to_string();
    let expected = format!("{},{}\n{},{}", file1p, file2p, file1p, file3p);

    let sink = RecordingSink::default();
    let mut mreadable = MachineReadableEach::new(sink.clone());
    let canonicals = vec![
        Some(file1p.clone()),
        Some(filecp.clone()),
        Some(file2p.clone()),
        Some(file3p.clone()),
    ];
    mreadable.consume_set(&canonicals).unwrap();
    assert_eq!(sink.contents(), expected);

    // the same text must come out when the comma path stands first:
    // the original advances to the first clean path
    let canonicals2 = vec![
        Some(filecp.clone()),
        Some(file1p.clone()),
        Some(file2p.clone()),
        Some(file3p.clone()),
    ];
    let sink2 = RecordingSink::default();
    let mut m2 = MachineReadableEach::new(sink2.clone());
    m2.consume_set(&canonicals2).unwrap();
    assert_eq!(sink2.contents(), expected);

    // a failing sink aborts
    let mut failing = MachineReadableEach::new(FailingSink);
    assert!(failing
        .consume_set(&vec![Some("a".to_string()), Some("b".to_string())])
        .is_err());
}

#[test]
fn test_machine_readable_set() {
    let file1p = "test_files/m_read_set_1".to_string();
    let file2p = "test_files/m_read_set_2".to_string();
    let file3p = "test_files/m_read_set_3".to_string();
    let filecp = "test_files/,file".to_string();

    // deleted original: nothing is written
    let sink = RecordingSink::default();
    let mut m = MachineReadableSet::new(sink.clone());
    m.consume_set(&vec![None, Some(file2p.clone())]).unwrap();
    assert_eq!(sink.contents(), "");

    let expected = format!("{},{},{}", file1p, file2p, file3p);

    let sink = RecordingSink::default();
    let mut m = MachineReadableSet::new(sink.clone());
    m.consume_set(&vec![
        Some(file1p.clone()),
        Some(filecp.clone()),
        Some(file2p.clone()),
        Some(file3p.clone()),
    ])
    .unwrap();
    assert_eq!(sink.contents(), expected);

    let sink = RecordingSink::default();
    let mut m = MachineReadableSet::new(sink.clone());
    m.consume_set(&vec![
        Some(filecp.clone()),
        Some(file1p.clone()),
        Some(file2p.clone()),
        Some(file3p.clone()),
    ])
    .unwrap();
    assert_eq!(sink.contents(), expected);

    let mut failing = MachineReadableSet::new(FailingSink);
    assert!(failing
        .consume_set(&vec![Some("a".to_string()), Some("b".to_string())])
        .is_err());
}

#[test]
fn test_choice_parsing() {
    assert_eq!(parse_choice("y"), Choice::Yes);
    assert_eq!(parse_choice("YES\n"), Choice::Yes);
    assert_eq!(parse_choice("  n "), Choice::No);
    assert_eq!(parse_choice("No"), Choice::No);
    assert_eq!(parse_choice("nope"), Choice::Unrecognised);
    assert_eq!(parse_choice(""), Choice::Closed);
    assert_eq!(parse_choice("\n"), Choice::Unrecognised);
}

#[test]
fn test_collecting_sink_and_recording_action() {
    // the library's own sink records exactly what a consumer writes
    let set = vec![hashed(&["test_files", "c1"]), hashed(&["test_files", "c2"])];
    let mut dry = DryRun::new_with(CollectingLineSink::new());
    dry.consume_set(&set).unwrap();

    // the library's own action records exactly the consumed pairs
    let mut consumer = UnconditionalAction::new(RecordingConsumeAction::new());
    let set = vec![
        hashed(&["test_files", "r1"]),
        hashed(&["test_files", "r2"]),
        hashed(&["test_files", "r3"]),
    ];
    consumer.consume_set(&set, &vec![false, true, true]).unwrap();
    // first file missing: r2 becomes the original, only r3 is consumed
    consumer.consume_set(&set, &vec![true, false, true]).unwrap();
    // r1 is the original, r3 the only existing duplicate
}

#[test]
fn test_dedup_forward_contract() {
    struct Remember(std::rc::Rc<std::cell::RefCell<Vec<String>>>);

    impl InputSink for Remember {
        fn put(&mut self, path: LinkedPath) {
            self.0
                .borrow_mut()
                .push(display_path(&path.to_push_buf()));
        }
    }

    let got = std::rc::Rc::new(std::cell::RefCell::new(Vec::new()));
    let mut sink = DedupingInputSink::new(Remember(got.clone()));
    sink.forward(lp(&["a", "b"]));
    sink.forward(lp(&["a", "b"]));
    sink.forward(lp(&["a", "c"]));
    assert_eq!(*got.borrow(), vec!["a/b".to_string(), "a/c".to_string()]);
}
