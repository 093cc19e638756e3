//! Set consumers: what happens to a finalised duplicate set.
//!
//! A consumer receives a set whose first element is the original. The
//! actual file actions, the output stream and the answer stream are the
//! caller's; the consumer decides which files are acted on, what text is
//! emitted, and when the run must stop. Every consumer tolerates the
//! original having vanished: it advances to the next candidate.

use vstd::prelude::*;
use crate::error_handling::AlreadyReportedError;
use crate::error_handling::Recoverable;
use crate::grouping::HashedFile;
use crate::parse_file_size::eq_ci;
use crate::parse_file_size::match_ci;
use crate::util::LinkedPath;
use crate::util::display_path;
use crate::util::display_spec;
use crate::util::has_comma;
use crate::util::path_contains_comma;

verus! {

/// A sink for the text a consumer emits; reports whether the write
/// succeeded.
pub trait LineSink {
    /// The texts this sink was handed, in order, each with whether the
    /// sink accepted it. A sink that does not say records nothing.
    open spec fn sink_log(&self) -> Seq<(Seq<char>, bool)> {
        Seq::empty()
    }

    /// Hands one text to the sink.
    fn write_text(&mut self, text: &str) -> (r: bool)
        ensures
            final(self).sink_log() == old(self).sink_log().push((text@, r)),
    ;
}

/// A sink that keeps every text it is handed.
pub struct CollectingLineSink {
    texts: Vec<String>,
}

impl CollectingLineSink {
    /// An empty sink.
    pub fn new() -> (r: Self)
        ensures
            r.sink_log() == Seq::<(Seq<char>, bool)>::empty(),
    {
        let r = CollectingLineSink { texts: Vec::new() };
        proof {
            assert(r.sink_log() =~= Seq::<(Seq<char>, bool)>::empty());
        }
        r
    }

    /// The collected texts.
    pub fn texts(&self) -> (r: &Vec<String>)
        ensures
            r@.len() == self.sink_log().len(),
            forall|i: int|
                0 <= i < r@.len() ==> (#[trigger] r@[i])@ == self.sink_log()[i].0
                    && self.sink_log()[i].1,
    {
        &self.texts
    }
}

impl LineSink for CollectingLineSink {
    closed spec fn sink_log(&self) -> Seq<(Seq<char>, bool)> {
        Seq::new(self.texts@.len(), |i: int| (self.texts@[i]@, true))
    }

    fn write_text(&mut self, text: &str) -> (r: bool) {
        let ghost before = self.sink_log();
        self.texts.push(text.to_owned());
        proof {
            assert forall|i: int| 0 <= i < self.sink_log().len() implies self.sink_log()[i]
                == before.push((text@, true))[i] by {
                if i < before.len() {
                    assert(self.texts@[i] == old(self).texts@[i]);
                }
            }
            assert(self.sink_log() =~= before.push((text@, true)));
        }
        true
    }
}

/// A source of interactive answers.
pub trait ChoiceInputReader {
    /// How much input can still arrive; reading consumes it. A source
    /// that does not say is taken to be exhausted.
    open spec fn remaining(&self) -> nat {
        0
    }

    /// What each read yielded so far, in order. A source that does not
    /// say yields nothing.
    open spec fn answers(&self) -> Seq<Seq<char>> {
        Seq::empty()
    }

    /// Appends the next line of input to `buf`; appending nothing means
    /// the input is closed.
    fn read_remaining(&mut self, buf: &mut String) -> (r: Result<(), ()>)
        ensures
            final(buf)@.len() >= old(buf)@.len(),
            final(buf)@.take(old(buf)@.len() as int) == old(buf)@,
            final(self).answers() == old(self).answers().push(
                final(buf)@.skip(old(buf)@.len() as int),
            ),
            final(buf)@.len() > old(buf)@.len() ==> final(self).remaining() < old(
                self,
            ).remaining(),
    ;
}

/// A scripted answer source: hands out its lines in order.
pub struct ScriptedChoiceReader {
    lines: Vec<String>,
    at: usize,
    served: Ghost<Seq<Seq<char>>>,
}

impl ScriptedChoiceReader {
    /// A reader that will answer with the given lines.
    pub fn new(lines: Vec<String>) -> (r: Self)
        ensures
            r.answers() == Seq::<Seq<char>>::empty(),
    {
        ScriptedChoiceReader { lines, at: 0, served: Ghost(Seq::empty()) }
    }
}

impl ChoiceInputReader for ScriptedChoiceReader {
    closed spec fn remaining(&self) -> nat {
        if self.at <= self.lines@.len() {
            (self.lines@.len() - self.at) as nat
        } else {
            0
        }
    }

    closed spec fn answers(&self) -> Seq<Seq<char>> {
        self.served@
    }

    fn read_remaining(&mut self, buf: &mut String) -> (r: Result<(), ()>) {
        let ghost buf0 = buf@;
        if self.at < self.lines.len() {
            let line = &self.lines[self.at];
            self.at = self.at + 1;
            buf.append(line.as_str());
            proof {
                assert(buf@.take(buf0.len() as int) =~= buf0);
                assert(buf@.skip(buf0.len() as int) =~= self.lines@[self.at - 1]@);
                self.served@ = self.served@.push(buf@.skip(buf0.len() as int));
            }
            Ok(())
        } else {
            proof {
                assert(buf@.take(buf0.len() as int) =~= buf0);
                assert(buf@.skip(buf0.len() as int) =~= Seq::<char>::empty());
                self.served@ = self.served@.push(buf@.skip(buf0.len() as int));
            }
            Ok(())
        }
    }
}

/// The outcome of one file action: recoverable failures skip the file,
/// fatal ones abort the run.
pub type FileConsumeResult = Result<(), Recoverable<AlreadyReportedError, AlreadyReportedError>>;

/// An action applied to each duplicate of a set.
pub trait FileConsumeAction {
    /// The calls this action has served, in order: the consumed file,
    /// the original handed along, and whether the outcome was fatal.
    /// An action that does not say records nothing.
    open spec fn action_log(&self) -> Seq<(Seq<Seq<char>>, Option<Seq<Seq<char>>>, bool)> {
        Seq::empty()
    }

    /// Consumes the file at `path`; `original` is the file the set keeps.
    fn consume(&mut self, path: &LinkedPath, original: Option<&LinkedPath>) -> (r:
        FileConsumeResult)
        ensures
            final(self).action_log() == old(self).action_log().push(
                (
                    path@,
                    match original {
                        Some(o) => Some(o@),
                        None => None,
                    },
                    r matches Err(Recoverable::Fatal(_)),
                ),
            ),
    ;

    /// Whether the action needs the original (for example to link to it).
    fn requires_original(&self) -> bool;

    /// A short name such as `delete`.
    fn short_name(&self) -> String;

    /// A short name for not acting, such as `keep`.
    fn short_opposite(&self) -> String;
}

/// An action that only records what it is asked to consume.
pub struct RecordingConsumeAction {
    calls: Vec<(Vec<String>, Option<Vec<String>>)>,
}

impl RecordingConsumeAction {
    /// An action that has recorded nothing yet.
    pub fn new() -> (r: Self)
        ensures
            r.action_log() == Seq::<(Seq<Seq<char>>, Option<Seq<Seq<char>>>, bool)>::empty(),
    {
        let r = RecordingConsumeAction { calls: Vec::new() };
        proof {
            assert(r.action_log() =~= Seq::<
                (Seq<Seq<char>>, Option<Seq<Seq<char>>>, bool),
            >::empty());
        }
        r
    }

    /// The recorded calls, as materialised paths.
    pub fn calls(&self) -> (r: &Vec<(Vec<String>, Option<Vec<String>>)>)
        ensures
            r@.len() == self.action_log().len(),
            forall|i: int|
                0 <= i < r@.len() ==> (#[trigger] r@[i]).0.deep_view()
                    == self.action_log()[i].0 && (match r@[i].1 {
                    Some(v) => Some(v.deep_view()),
                    None => None,
                }) == self.action_log()[i].1 && !self.action_log()[i].2,
    {
        &self.calls
    }
}

impl FileConsumeAction for RecordingConsumeAction {
    closed spec fn action_log(&self) -> Seq<(Seq<Seq<char>>, Option<Seq<Seq<char>>>, bool)> {
        Seq::new(
            self.calls@.len(),
            |i: int|
                (
                    self.calls@[i].0.deep_view(),
                    match self.calls@[i].1 {
                        Some(v) => Some(v.deep_view()),
                        None => None,
                    },
                    false,
                ),
        )
    }

    fn consume(&mut self, path: &LinkedPath, original: Option<&LinkedPath>) -> (r:
        FileConsumeResult) {
        let ghost before = self.action_log();
        let orig_segs = match original {
            Some(o) => Some(o.to_push_buf()),
            None => None,
        };
        self.calls.push((path.to_push_buf(), orig_segs));
        proof {
            assert forall|i: int| 0 <= i < self.action_log().len() implies self.action_log()[i]
                == before.push((path@, match original {
                Some(o) => Some(o@),
                None => None,
            }, false))[i] by {
                if i < before.len() {
                    assert(self.calls@[i] == old(self).calls@[i]);
                }
            }
            assert(self.action_log() =~= before.push(
                (
                    path@,
                    match original {
                        Some(o) => Some(o@),
                        None => None,
                    },
                    false,
                ),
            ));
        }
        Ok(())
    }

    fn requires_original(&self) -> bool {
        false
    }

    fn short_name(&self) -> String {
        "record".to_owned()
    }

    fn short_opposite(&self) -> String {
        "ignore".to_owned()
    }
}

/// The index of the first existing file: the candidate original after
/// the missing heads are passed over.
pub open spec fn original_index(exists: Seq<bool>) -> Option<int>
    decreases exists.len(),
{
    if exists.len() == 0 {
        None
    } else if exists[0] {
        Some(0int)
    } else {
        match original_index(exists.skip(1)) {
            Some(i) => Some(i + 1),
            None => None,
        }
    }
}

/// Finds the original: the first file that still exists.
pub fn choose_original(exists: &Vec<bool>) -> (r: Option<usize>)
    ensures
        match r {
            Some(i) => i < exists@.len() && exists@[i as int] && original_index(exists@) == Some(
                i as int,
            ),
            None => original_index(exists@) is None,
        },
{
    let n = exists.len();
    let mut i: usize = 0;
    proof {
        assert(exists@.skip(0) =~= exists@);
    }
    while i < n
        invariant
            i <= n,
            n == exists@.len(),
            original_index(exists@) == match original_index(exists@.skip(i as int)) {
                Some(k) => Some(k + i),
                None => None::<int>,
            },
        decreases n - i,
    {
        proof {
            assert(exists@.skip(i as int)[0] == exists@[i as int]);
            assert(exists@.skip(i as int).skip(1) =~= exists@.skip(i as int + 1));
        }
        if exists[i] {
            return Some(i);
        }
        i = i + 1;
    }
    proof {
        assert(exists@.skip(n as int).len() == 0);
    }
    None
}

/// Maps one action outcome to the run's fate: a fatal failure aborts,
/// anything else lets the run continue.
pub fn abort_on_fatal(outcome: FileConsumeResult) -> (r: Result<(), AlreadyReportedError>)
    ensures
        r is Err <==> outcome matches Err(Recoverable::Fatal(_)),
{
    match outcome {
        Ok(()) => Ok(()),
        Err(Recoverable::Recoverable(_)) => Ok(()),
        Err(Recoverable::Fatal(AlreadyReportedError)) => Err(AlreadyReportedError),
    }
}

/// The calls owed for a set: one per still-existing file after the
/// original at `k`, each handed that original, in set order, starting
/// the count at position `j`.
pub open spec fn calls_owed(set: Seq<HashedFile>, exists: Seq<bool>, k: int, j: int) -> Seq<
    (Seq<Seq<char>>, Option<Seq<Seq<char>>>),
>
    decreases set.len() - j,
{
    if j < 0 || j >= set.len() {
        Seq::empty()
    } else {
        let rest = calls_owed(set, exists, k, j + 1);
        if exists[j] {
            seq![(set[j]@.1, Some(set[k]@.1))] + rest
        } else {
            rest
        }
    }
}

/// Whether the log entries record exactly these calls.
pub open spec fn entries_match(
    added: Seq<(Seq<Seq<char>>, Option<Seq<Seq<char>>>, bool)>,
    pairs: Seq<(Seq<Seq<char>>, Option<Seq<Seq<char>>>)>,
) -> bool {
    added.len() == pairs.len() && forall|i: int|
        0 <= i < added.len() ==> (#[trigger] added[i]).0 == pairs[i].0 && added[i].1 == pairs[i].1
}

/// Applies the configured action to every duplicate that still exists,
/// without asking.
pub struct UnconditionalAction<A> {
    action: A,
}

impl<A: FileConsumeAction> UnconditionalAction<A> {
    /// The action's call log.
    pub closed spec fn performed(&self) -> Seq<(Seq<Seq<char>>, Option<Seq<Seq<char>>>, bool)> {
        self.action.action_log()
    }

    pub fn new(action: A) -> (r: Self)
        ensures
            r.performed() == action.action_log(),
    {
        UnconditionalAction { action }
    }

    /// Consumes the set: the first existing file is kept as the
    /// original; the action runs, in set order, on exactly the later
    /// files that exist, each handed that original; the first fatal
    /// outcome aborts, and the run errs exactly then. A set with no
    /// existing original, or none after it, is a no-op.
    pub fn consume_set(&mut self, set: &Vec<HashedFile>, exists: &Vec<bool>) -> (r: Result<
        (),
        AlreadyReportedError,
    >)
        requires
            exists@.len() == set@.len(),
            set@.len() >= 2,
        ensures
            final(self).performed().len() >= old(self).performed().len(),
            final(self).performed().take(old(self).performed().len() as int) == old(
                self,
            ).performed(),
            ({
                let added = final(self).performed().skip(old(self).performed().len() as int);
                match original_index(exists@) {
                    None => r is Ok && added.len() == 0,
                    Some(k) => {
                        let pairs = calls_owed(set@, exists@, k, k + 1);
                        &&& r is Ok ==> entries_match(added, pairs) && forall|i: int|
                            0 <= i < added.len() ==> !(#[trigger] added[i]).2
                        &&& r is Err ==> 0 < added.len() <= pairs.len() && entries_match(
                            added,
                            pairs.take(added.len() as int),
                        ) && added.last().2 && forall|i: int|
                            0 <= i < added.len() - 1 ==> !(#[trigger] added[i]).2
                    },
                }
            }),
    {
        let ghost log0 = self.performed();
        let orig = match choose_original(exists) {
            Some(orig) => orig,
            None => {
                proof {
                    assert(self.performed().take(log0.len() as int) =~= log0);
                    assert(self.performed().skip(log0.len() as int).len() == 0);
                }
                return Ok(());
            },
        };
        let ghost pairs = calls_owed(set@, exists@, orig as int, orig as int + 1);
        let n = set.len();
        let mut i: usize = orig + 1;
        let ghost mut cnt: int = 0;
        proof {
            assert(self.performed().take(log0.len() as int) =~= log0);
            assert(self.performed().skip(log0.len() as int) =~= Seq::<
                (Seq<Seq<char>>, Option<Seq<Seq<char>>>, bool),
            >::empty());
            assert(pairs.take(0) =~= Seq::<(Seq<Seq<char>>, Option<Seq<Seq<char>>>)>::empty());
            assert(pairs.skip(0) =~= pairs);
        }
        while i < n
            invariant
                orig < i,
                i <= n,
                n == set@.len() == exists@.len(),
                original_index(exists@) == Some(orig as int),
                log0 == old(self).performed(),
                pairs == calls_owed(set@, exists@, orig as int, orig as int + 1),
                0 <= cnt <= pairs.len(),
                self.performed().len() == log0.len() + cnt,
                self.performed().take(log0.len() as int) == log0,
                entries_match(
                    self.performed().skip(log0.len() as int),
                    pairs.take(cnt),
                ),
                forall|t: int|
                    0 <= t < cnt ==> !(#[trigger] self.performed().skip(log0.len() as int)[t]).2,
                pairs.skip(cnt) == calls_owed(set@, exists@, orig as int, i as int),
            decreases n - i,
        {
            if exists[i] {
                proof {
                    assert(exists@[i as int]);
                    assert(calls_owed(set@, exists@, orig as int, i as int) == seq![
                        (set@[i as int]@.1, Some(set@[orig as int]@.1)),
                    ] + calls_owed(set@, exists@, orig as int, i as int + 1));
                    assert(pairs.skip(cnt).len() >= 1);
                    assert(cnt < pairs.len());
                    assert(pairs.skip(cnt)[0] == (seq![
                        (set@[i as int]@.1, Some(set@[orig as int]@.1)),
                    ] + calls_owed(set@, exists@, orig as int, i as int + 1))[0]);
                    assert(pairs.skip(cnt)[0] == pairs[cnt]);
                    assert(pairs[cnt] == (set@[i as int]@.1, Some(set@[orig as int]@.1)));
                }
                let ghost before = self.performed();
                let outcome = self.action.consume(&set[i].file_path, Some(&set[orig].file_path));
                proof {
                    assert(self.performed() == before.push(
                        (
                            set@[i as int]@.1,
                            Some(set@[orig as int]@.1),
                            outcome matches Err(Recoverable::Fatal(_)),
                        ),
                    ));
                    assert(self.performed().take(log0.len() as int) =~= log0);
                    assert(self.performed().skip(log0.len() as int) =~= before.skip(
                        log0.len() as int,
                    ).push(
                        (
                            set@[i as int]@.1,
                            Some(set@[orig as int]@.1),
                            outcome matches Err(Recoverable::Fatal(_)),
                        ),
                    ));
                    assert(pairs.take(cnt + 1) =~= pairs.take(cnt).push(pairs[cnt]));
                    assert(pairs.skip(cnt + 1) =~= pairs.skip(cnt).skip(1));
                    assert(pairs.skip(cnt).skip(1) =~= calls_owed(
                        set@,
                        exists@,
                        orig as int,
                        i as int + 1,
                    ));
                    cnt = cnt + 1;
                    assert(entries_match(
                        self.performed().skip(log0.len() as int),
                        pairs.take(cnt),
                    )) by {
                        let added = self.performed().skip(log0.len() as int);
                        let prev = before.skip(log0.len() as int);
                        assert forall|t: int| 0 <= t < added.len() implies (#[trigger] added[t]).0
                            == pairs.take(cnt)[t].0 && added[t].1 == pairs.take(cnt)[t].1 by {
                            if t < prev.len() {
                                assert(added[t] == prev[t]);
                                assert(pairs.take(cnt)[t] == pairs.take(cnt - 1)[t]);
                            } else {
                                assert(added[t] == added.last());
                                assert(pairs.take(cnt)[t] == pairs[cnt - 1]);
                            }
                        }
                    }
                    assert forall|t: int| 0 <= t < cnt - 1 implies !(#[trigger] self.performed()
                        .skip(log0.len() as int)[t]).2 by {
                        assert(self.performed().skip(log0.len() as int)[t] == before.skip(
                            log0.len() as int,
                        )[t]);
                    }
                }
                match abort_on_fatal(outcome) {
                    Ok(()) => {},
                    Err(e) => {
                        proof {
                            assert(self.performed().skip(log0.len() as int).last().2);
                        }
                        return Err(e);
                    },
                }
            } else {
                proof {
                    assert(calls_owed(set@, exists@, orig as int, i as int) == calls_owed(
                        set@,
                        exists@,
                        orig as int,
                        i as int + 1,
                    ));
                }
            }
            i = i + 1;
        }
        proof {
            assert(calls_owed(set@, exists@, orig as int, n as int).len() == 0);
            assert(pairs.skip(cnt).len() == 0);
            assert(cnt == pairs.len());
            assert(pairs.take(cnt) =~= pairs);
        }
        Ok(())
    }
}

/// What an answer line means.
#[derive(Debug, Copy, Clone, Eq, PartialEq, Structural)]
pub enum Choice {
    Yes,
    No,
    Unrecognised,
    Closed,
}

/// Whether the character is blank space around an answer.
pub open spec fn is_blank(c: char) -> bool {
    c == ' ' || c == '\t' || c == '\n' || c == '\r'
}

/// The answer without leading blanks.
pub open spec fn trim_front(s: Seq<char>) -> Seq<char>
    decreases s.len(),
{
    if s.len() == 0 {
        s
    } else if is_blank(s[0]) {
        trim_front(s.skip(1))
    } else {
        s
    }
}

/// The answer without trailing blanks.
pub open spec fn trim_back(s: Seq<char>) -> Seq<char>
    decreases s.len(),
{
    if s.len() == 0 {
        s
    } else if is_blank(s.last()) {
        trim_back(s.drop_last())
    } else {
        s
    }
}

/// What an answer line means: `y`/`yes` and `n`/`no` in any case, blanks
/// around them ignored; an empty line means the input is closed.
pub open spec fn choice_spec(s: Seq<char>) -> Choice {
    if s.len() == 0 {
        Choice::Closed
    } else {
        let t = trim_back(trim_front(s));
        if eq_ci(t, "y"@) || eq_ci(t, "yes"@) {
            Choice::Yes
        } else if eq_ci(t, "n"@) || eq_ci(t, "no"@) {
            Choice::No
        } else {
            Choice::Unrecognised
        }
    }
}

proof fn lemma_trim_front_at(s: Seq<char>, k: int)
    requires
        0 <= k <= s.len(),
        forall|j: int| 0 <= j < k ==> is_blank(#[trigger] s[j]),
        k == s.len() || !is_blank(s[k]),
    ensures
        trim_front(s) == s.skip(k),
    decreases k,
{
    if k == 0 {
        assert(s.skip(0) =~= s);
        if s.len() > 0 {
        }
    } else {
        assert(is_blank(s[0]));
        let t = s.skip(1);
        assert(forall|j: int| 0 <= j < k - 1 ==> is_blank(#[trigger] t[j]));
        assert(k - 1 == t.len() || !is_blank(t[k - 1]));
        lemma_trim_front_at(t, k - 1);
        assert(s.skip(1).skip(k - 1) =~= s.skip(k));
    }
}

proof fn lemma_trim_back_at(s: Seq<char>, m: int)
    requires
        0 <= m <= s.len(),
        forall|j: int| m <= j < s.len() ==> is_blank(#[trigger] s[j]),
        m == 0 || !is_blank(s[m - 1]),
    ensures
        trim_back(s) == s.take(m),
    decreases s.len(),
{
    if m == s.len() {
        if s.len() == 0 {
            assert(s.take(0) =~= s);
        } else {
            assert(!is_blank(s.last()));
            assert(s.take(m) =~= s);
        }
    } else {
        assert(is_blank(s.last()));
        let t = s.drop_last();
        assert(forall|j: int| m <= j < t.len() ==> is_blank(#[trigger] t[j]));
        lemma_trim_back_at(t, m);
        assert(t.take(m) =~= s.take(m));
    }
}

/// Reads one answer line.
pub fn parse_choice(s: &str) -> (r: Choice)
    ensures
        r == choice_spec(s@),
{
    let n = s.unicode_len();
    if n == 0 {
        return Choice::Closed;
    }
    let mut start: usize = 0;
    let mut scanning = true;
    while scanning && start < n
        invariant
            start <= n,
            n == s@.len(),
            forall|j: int| 0 <= j < start ==> is_blank(#[trigger] s@[j]),
            !scanning ==> start < n && !is_blank(s@[start as int]),
        decreases n - start, (if scanning { 1int } else { 0int }),
    {
        let c = s.get_char(start);
        if c == ' ' || c == '\t' || c == '\n' || c == '\r' {
            start = start + 1;
        } else {
            scanning = false;
        }
    }
    let mut end: usize = n;
    let mut scanning_back = true;
    while scanning_back && end > start
        invariant
            start <= end <= n,
            n == s@.len(),
            forall|j: int| 0 <= j < start ==> is_blank(#[trigger] s@[j]),
            forall|j: int| end <= j < n ==> is_blank(#[trigger] s@[j]),
            !scanning_back ==> end > start && !is_blank(s@[end - 1]),
        decreases end, (if scanning_back { 1int } else { 0int }),
    {
        let c = s.get_char(end - 1);
        if c == ' ' || c == '\t' || c == '\n' || c == '\r' {
            end = end - 1;
        } else {
            scanning_back = false;
        }
    }
    proof {
        lemma_trim_front_at(s@, start as int);
        if end == start {
            lemma_trim_back_at(s@.skip(start as int), 0);
        } else {
            assert(!is_blank(s@[end - 1]));
            assert(forall|j: int|
                end - start <= j < s@.skip(start as int).len() ==> is_blank(
                    #[trigger] s@.skip(start as int)[j],
                ));
            lemma_trim_back_at(s@.skip(start as int), end - start);
        }
        assert(s@.skip(start as int).take(end - start) =~= s@.subrange(start as int, end as int));
    }
    let t = s.substring_char(start, end);
    proof {
        assert(t@ == trim_back(trim_front(s@)));
        assert(t@.skip(0) =~= t@);
    }
    if match_ci(t, 0, "y") || match_ci(t, 0, "yes") {
        Choice::Yes
    } else if match_ci(t, 0, "n") || match_ci(t, 0, "no") {
        Choice::No
    } else {
        Choice::Unrecognised
    }
}

/// The display names of a set's members, first the original.
pub open spec fn member_names(set: Seq<(Option<u64>, Seq<Seq<char>>)>) -> Seq<Seq<char>> {
    Seq::new(set.len(), |i: int| display_spec(set[i].1))
}

/// Names joined by `, `.
pub open spec fn comma_join(names: Seq<Seq<char>>) -> Seq<char>
    decreases names.len(),
{
    if names.len() == 0 {
        Seq::empty()
    } else if names.len() == 1 {
        names[0]
    } else {
        comma_join(names.drop_last()) + ", "@ + names.last()
    }
}

/// The dry-run report for one set: the kept original, then the files
/// that would be deleted.
pub open spec fn dry_run_line(names: Seq<Seq<char>>) -> Seq<char> {
    "keeping "@ + names[0] + ", dry-deleting "@ + comma_join(names.skip(1)) + "\n"@
}

/// Renders the dry-run report for a set.
pub fn render_dry_run(set: &Vec<HashedFile>) -> (r: String)
    requires
        set@.len() >= 1,
    ensures
        r@ == dry_run_line(member_names(Seq::new(set@.len(), |i: int| set@[i]@))),
{
    let ghost views = Seq::new(set@.len(), |i: int| set@[i]@);
    let ghost names = member_names(views);
    let mut out = "keeping ".to_owned();
    let segs = set[0].file_path.to_push_buf();
    let first = display_path(&segs);
    out.append(first.as_str());
    out.append(", dry-deleting ");
    proof {
        assert(names[0] == display_spec(set@[0]@.1));
        assert(out@ == "keeping "@ + names[0] + ", dry-deleting "@);
    }
    let n = set.len();
    let mut i: usize = 1;
    proof {
        assert(names.skip(1).subrange(0, 0) =~= Seq::<Seq<char>>::empty());
        assert(comma_join(names.skip(1).subrange(0, 0)) == Seq::<char>::empty());
        assert(out@ + Seq::<char>::empty() =~= out@);
    }
    while i < n
        invariant
            1 <= i <= n,
            n == set@.len(),
            names == member_names(Seq::new(set@.len(), |k: int| set@[k]@)),
            names.len() == n,
            out@ == "keeping "@ + names[0] + ", dry-deleting "@ + comma_join(
                names.skip(1).subrange(0, i - 1),
            ),
        decreases n - i,
    {
        if i > 1 {
            out.append(", ");
        }
        let segs = set[i].file_path.to_push_buf();
        let name = display_path(&segs);
        out.append(name.as_str());
        proof {
            assert(names[i as int] == display_spec(set@[i as int]@.1));
            assert(names.skip(1).subrange(0, i as int) =~= names.skip(1).subrange(0, i - 1).push(
                names[i as int],
            ));
            let sub = names.skip(1).subrange(0, i as int);
            assert(sub.drop_last() =~= names.skip(1).subrange(0, i - 1));
            assert(sub.last() == names[i as int]);
            if i == 1 {
                assert(comma_join(sub) == names[1]);
            }
        }
        i = i + 1;
    }
    out.append("\n");
    proof {
        assert(names.skip(1).subrange(0, n - 1) =~= names.skip(1));
    }
    out
}

/// Writes, for each set, which file would be kept and which would be
/// deleted; never mutates anything.
pub struct DryRun<W> {
    write: W,
}

impl<W: LineSink> DryRun<W> {
    /// What this consumer has written.
    pub closed spec fn written(&self) -> Seq<(Seq<char>, bool)> {
        self.write.sink_log()
    }

    /// A dry run over a freshly made sink.
    pub fn new() -> (r: Self) where W: Default {
        DryRun { write: W::default() }
    }

    /// A dry run over the given sink.
    pub fn new_with(write: W) -> (r: Self)
        ensures
            r.written() == write.sink_log(),
    {
        DryRun { write }
    }

    /// Hands the sink exactly the set's report line, nothing else, and
    /// errs exactly when the sink refused it. Nothing is mutated.
    pub fn consume_set(&mut self, set: &Vec<HashedFile>) -> (r: Result<(), AlreadyReportedError>)
        requires
            set@.len() >= 2,
        ensures
            final(self).written() == old(self).written().push(
                (
                    dry_run_line(member_names(Seq::new(set@.len(), |i: int| set@[i]@))),
                    r is Ok,
                ),
            ),
    {
        let line = render_dry_run(set);
        let kept_going = self.write.write_text(line.as_str());
        if kept_going {
            Ok(())
        } else {
            Err(AlreadyReportedError)
        }
    }
}

/// Whether this member's canonical path can stand in machine-readable
/// output: it was resolved and carries no comma.
pub open spec fn emittable(c: Option<String>) -> bool {
    match c {
        Some(s) => !has_comma(s@),
        None => false,
    }
}

/// The first member whose canonical path can stand as the original.
pub open spec fn emittable_original_index(cs: Seq<Option<String>>) -> Option<int>
    decreases cs.len(),
{
    if cs.len() == 0 {
        None
    } else if emittable(cs[0]) {
        Some(0int)
    } else {
        match emittable_original_index(cs.skip(1)) {
            Some(i) => Some(i + 1),
            None => None,
        }
    }
}

/// Finds the original for machine-readable output: the first member
/// that resolved to a comma-free canonical path.
pub fn find_nocomma_original(canonicals: &Vec<Option<String>>) -> (r: Option<usize>)
    ensures
        match r {
            Some(i) => i < canonicals@.len() && emittable(canonicals@[i as int])
                && emittable_original_index(canonicals@) == Some(i as int),
            None => emittable_original_index(canonicals@) is None,
        },
{
    let n = canonicals.len();
    let mut i: usize = 0;
    proof {
        assert(canonicals@.skip(0) =~= canonicals@);
    }
    while i < n
        invariant
            i <= n,
            n == canonicals@.len(),
            emittable_original_index(canonicals@) == match emittable_original_index(
                canonicals@.skip(i as int),
            ) {
                Some(k) => Some(k + i),
                None => None::<int>,
            },
        decreases n - i,
    {
        proof {
            assert(canonicals@.skip(i as int)[0] == canonicals@[i as int]);
            assert(canonicals@.skip(i as int).skip(1) =~= canonicals@.skip(i as int + 1));
        }
        let good = match &canonicals[i] {
            Some(s) => !path_contains_comma(s.as_str()),
            None => false,
        };
        if good {
            return Some(i);
        }
        i = i + 1;
    }
    proof {
        assert(canonicals@.skip(n as int).len() == 0);
    }
    None
}

/// Whether some duplicate in the run is emittable.
pub open spec fn any_emittable(cs: Seq<Option<String>>) -> bool {
    exists|i: int| 0 <= i < cs.len() && emittable(cs[i])
}

/// The pairwise machine-readable lines for the duplicates `dups` of an
/// original named `orig`: one `orig,dup` line per emittable duplicate,
/// each preceded by a newline except the very first of the whole run.
pub open spec fn pairwise_lines(orig: Seq<char>, dups: Seq<Option<String>>, wb: bool) -> Seq<char>
    decreases dups.len(),
{
    if dups.len() == 0 {
        Seq::empty()
    } else {
        let rest = pairwise_lines(orig, dups.drop_last(), wb);
        match dups.last() {
            Some(s) => if !has_comma(s@) {
                let sep: Seq<char> = if wb || any_emittable(dups.drop_last()) {
                    "\n"@
                } else {
                    ""@
                };
                rest + sep + orig + ","@ + s@
            } else {
                rest
            },
            None => rest,
        }
    }
}

/// Writes `original,duplicate` lines, one per duplicate, paths resolved
/// by the caller; no newline follows the last line of the run.
pub struct MachineReadableEach<W> {
    written_before: bool,
    writer: W,
}

impl<W: LineSink> MachineReadableEach<W> {
    /// Whether a line was already written in this run.
    pub closed spec fn has_written(&self) -> bool {
        self.written_before
    }

    /// What this consumer has written.
    pub closed spec fn written(&self) -> Seq<(Seq<char>, bool)> {
        self.writer.sink_log()
    }

    /// A pairwise writer on the given sink.
    pub fn new(writer: W) -> (r: Self)
        ensures
            !r.has_written(),
            r.written() == writer.sink_log(),
    {
        MachineReadableEach { written_before: false, writer }
    }

    /// Hands the sink exactly the set's pairwise records — one
    /// `original,duplicate` per emittable duplicate, a newline before
    /// every record but the run's first — and errs exactly when the
    /// sink refused. A set without an emittable original writes nothing.
    pub fn consume_set(&mut self, canonicals: &Vec<Option<String>>) -> (r: Result<
        (),
        AlreadyReportedError,
    >)
        requires
            canonicals@.len() >= 2,
        ensures
            emittable_original_index(canonicals@) is None ==> r is Ok && final(self).has_written()
                == old(self).has_written(),
            r is Err ==> final(self).has_written() == old(self).has_written(),
            match emittable_original_index(canonicals@) {
                Some(k) => r is Ok ==> final(self).has_written() == (old(self).has_written()
                    || any_emittable(canonicals@.skip(k + 1))),
                None => true,
            },
            match emittable_original_index(canonicals@) {
                None => final(self).written() == old(self).written(),
                Some(k) => final(self).written() == old(self).written().push(
                    (
                        pairwise_lines(
                            canonicals@[k]->Some_0@,
                            canonicals@.skip(k + 1),
                            old(self).has_written(),
                        ),
                        r is Ok,
                    ),
                ),
            },
    {
        let orig_at = match find_nocomma_original(canonicals) {
            Some(orig_at) => orig_at,
            None => {
                return Ok(());
            },
        };
        let orig = match &canonicals[orig_at] {
            Some(orig) => orig,
            None => {
                proof {
                    assert(false);
                }
                return Ok(());
            },
        };
        let mut text = String::new();
        let n = canonicals.len();
        let mut i: usize = orig_at + 1;
        let ghost dups0 = canonicals@.skip(orig_at as int + 1);
        let mut any = self.written_before;
        proof {
            assert(dups0.subrange(0, 0) =~= Seq::<Option<String>>::empty());
        }
        while i < n
            invariant
                orig_at < i,
                i <= n,
                n == canonicals@.len(),
                dups0 == canonicals@.skip(orig_at as int + 1),
                self.written_before == old(self).has_written(),
                self.written() == old(self).written(),
                text@ == pairwise_lines(orig@, dups0.subrange(0, i - orig_at - 1), self.written_before),
                any == (self.written_before || any_emittable(dups0.subrange(0, i - orig_at - 1))),
                orig@ == canonicals@[orig_at as int]->Some_0@,
            decreases n - i,
        {
            let ghost done = dups0.subrange(0, i - orig_at - 1);
            proof {
                assert(dups0.subrange(0, i - orig_at as int) =~= done.push(
                    canonicals@[i as int],
                ));
                assert(dups0.subrange(0, i - orig_at as int).drop_last() =~= done);
            }
            match &canonicals[i] {
                Some(s) => {
                    if !path_contains_comma(s.as_str()) {
                        if any {
                            text.append("\n");
                        }
                        text.append(orig.as_str());
                        text.append(",");
                        text.append(s.as_str());
                        any = true;
                    }
                },
                None => {},
            }
            proof {
                reveal_strlit("");
                assert(""@ =~= Seq::<char>::empty());
            }
            i = i + 1;
        }
        proof {
            assert(dups0.subrange(0, n - orig_at - 1) =~= dups0);
        }
        let kept_going = self.writer.write_text(text.as_str());
        if !kept_going {
            return Err(AlreadyReportedError);
        }
        self.written_before = any;
        Ok(())
    }
}

/// The setwise machine-readable text for one set: a newline when a set
/// was written before, then the original and every emittable duplicate
/// separated by commas; the original is spelled only before the first.
pub open spec fn setwise_line(orig: Seq<char>, dups: Seq<Option<String>>, wb: bool) -> Seq<char>
    decreases dups.len(),
{
    if dups.len() == 0 {
        if wb {
            "\n"@
        } else {
            Seq::empty()
        }
    } else {
        let rest = setwise_line(orig, dups.drop_last(), wb);
        match dups.last() {
            Some(s) => if !has_comma(s@) {
                let prefix: Seq<char> = if any_emittable(dups.drop_last()) {
                    Seq::empty()
                } else {
                    orig
                };
                rest + prefix + ","@ + s@
            } else {
                rest
            },
            None => rest,
        }
    }
}

/// Writes each set as one comma-separated line.
pub struct MachineReadableSet<W> {
    written_before: bool,
    writer: W,
}

impl<W: LineSink> MachineReadableSet<W> {
    /// Whether a set was already written in this run.
    pub closed spec fn has_written(&self) -> bool {
        self.written_before
    }

    /// What this consumer has written.
    pub closed spec fn written(&self) -> Seq<(Seq<char>, bool)> {
        self.writer.sink_log()
    }

    /// A setwise writer on the given sink.
    pub fn new(writer: W) -> (r: Self)
        ensures
            !r.has_written(),
            r.written() == writer.sink_log(),
    {
        MachineReadableSet { written_before: false, writer }
    }

    /// Hands the sink exactly the set's one line — the original and
    /// every emittable duplicate, comma-separated, a newline first when
    /// a set was written before — and errs exactly when the sink
    /// refused. A set without an emittable original writes nothing.
    pub fn consume_set(&mut self, canonicals: &Vec<Option<String>>) -> (r: Result<
        (),
        AlreadyReportedError,
    >)
        requires
            canonicals@.len() >= 2,
        ensures
            emittable_original_index(canonicals@) is None ==> r is Ok && final(self).has_written()
                == old(self).has_written(),
            r is Err ==> final(self).has_written() == old(self).has_written(),
            match emittable_original_index(canonicals@) {
                Some(k) => r is Ok ==> final(self).has_written() == (old(self).has_written()
                    || any_emittable(canonicals@.skip(k + 1))),
                None => true,
            },
            match emittable_original_index(canonicals@) {
                None => final(self).written() == old(self).written(),
                Some(k) => final(self).written() == old(self).written().push(
                    (
                        setwise_line(
                            canonicals@[k]->Some_0@,
                            canonicals@.skip(k + 1),
                            old(self).has_written(),
                        ),
                        r is Ok,
                    ),
                ),
            },
    {
        let orig_at = match find_nocomma_original(canonicals) {
            Some(orig_at) => orig_at,
            None => {
                return Ok(());
            },
        };
        let orig = match &canonicals[orig_at] {
            Some(orig) => orig,
            None => {
                proof {
                    assert(false);
                }
                return Ok(());
            },
        };
        let mut text = String::new();
        if self.written_before {
            text.append("\n");
        }
        let n = canonicals.len();
        let mut i: usize = orig_at + 1;
        let ghost dups0 = canonicals@.skip(orig_at as int + 1);
        let mut any = false;
        proof {
            assert(dups0.subrange(0, 0) =~= Seq::<Option<String>>::empty());
        }
        while i < n
            invariant
                orig_at < i,
                i <= n,
                n == canonicals@.len(),
                dups0 == canonicals@.skip(orig_at as int + 1),
                self.written_before == old(self).has_written(),
                self.written() == old(self).written(),
                text@ == setwise_line(orig@, dups0.subrange(0, i - orig_at - 1), self.written_before),
                any == any_emittable(dups0.subrange(0, i - orig_at - 1)),
                orig@ == canonicals@[orig_at as int]->Some_0@,
            decreases n - i,
        {
            let ghost done = dups0.subrange(0, i - orig_at - 1);
            proof {
                assert(dups0.subrange(0, i - orig_at as int) =~= done.push(
                    canonicals@[i as int],
                ));
                assert(dups0.subrange(0, i - orig_at as int).drop_last() =~= done);
            }
            match &canonicals[i] {
                Some(s) => {
                    if !path_contains_comma(s.as_str()) {
                        if !any {
                            text.append(orig.as_str());
                        }
                        text.append(",");
                        text.append(s.as_str());
                        any = true;
                    }
                },
                None => {},
            }
            proof {
                reveal_strlit("");
                assert(""@ =~= Seq::<char>::empty());
            }
            i = i + 1;
        }
        proof {
            assert(dups0.subrange(0, n - orig_at - 1) =~= dups0);
        }
        let kept_going = self.writer.write_text(text.as_str());
        if !kept_going {
            return Err(AlreadyReportedError);
        }
        if any {
            self.written_before = true;
        }
        Ok(())
    }
}

/// The first answer at or after `from` that is not a mere re-prompt.
pub open spec fn decisive_after(answers: Seq<Seq<char>>, from: int) -> int
    decreases answers.len() - from,
{
    if from < 0 || from >= answers.len() {
        answers.len() as int
    } else if choice_spec(answers[from]) == Choice::Unrecognised {
        decisive_after(answers, from + 1)
    } else {
        from
    }
}

/// What an interactive session over the duplicates `[j, hi)` does, with
/// original `k`, reading `answers` from position `apos`: the action
/// calls made, the next answer position, and whether every prompt found
/// a clear yes or no. A missing file asks nothing; a yes consumes the
/// duplicate; a closed or exhausted answer stream ends the session.
pub open spec fn session_run(
    set: Seq<HashedFile>,
    exists: Seq<bool>,
    k: int,
    j: int,
    hi: int,
    apos: int,
    answers: Seq<Seq<char>>,
) -> (Seq<(Seq<Seq<char>>, Option<Seq<Seq<char>>>)>, int, bool)
    decreases hi - j,
{
    if j < 0 || j >= hi {
        (Seq::empty(), apos, true)
    } else if !exists[j] {
        session_run(set, exists, k, j + 1, hi, apos, answers)
    } else {
        let d = decisive_after(answers, apos);
        if d >= answers.len() {
            (Seq::empty(), apos, false)
        } else if choice_spec(answers[d]) == Choice::Yes {
            let rest = session_run(set, exists, k, j + 1, hi, d + 1, answers);
            (seq![(set[j]@.1, Some(set[k]@.1))] + rest.0, rest.1, rest.2)
        } else if choice_spec(answers[d]) == Choice::No {
            session_run(set, exists, k, j + 1, hi, d + 1, answers)
        } else {
            (Seq::empty(), apos, false)
        }
    }
}

proof fn lemma_decisive_bounds(answers: Seq<Seq<char>>, from: int)
    requires
        0 <= from <= answers.len(),
    ensures
        from <= decisive_after(answers, from) <= answers.len(),
    decreases answers.len() - from,
{
    if from < answers.len() && choice_spec(answers[from]) == Choice::Unrecognised {
        lemma_decisive_bounds(answers, from + 1);
    }
}

proof fn lemma_decisive_extend(c: Seq<Seq<char>>, delta: Seq<Seq<char>>, p: int)
    requires
        0 <= p <= c.len(),
        decisive_after(c, p) < c.len(),
    ensures
        decisive_after(c + delta, p) == decisive_after(c, p),
    decreases c.len() - p,
{
    assert(p < c.len());
    assert((c + delta)[p] == c[p]);
    if choice_spec(c[p]) == Choice::Unrecognised {
        lemma_decisive_extend(c, delta, p + 1);
    }
}

proof fn lemma_decisive_delta(c: Seq<Seq<char>>, delta: Seq<Seq<char>>)
    requires
        delta.len() >= 1,
        forall|t: int| 0 <= t < delta.len() - 1 ==> choice_spec(#[trigger] delta[t])
            == Choice::Unrecognised,
        choice_spec(delta.last()) != Choice::Unrecognised,
    ensures
        decisive_after(c + delta, c.len() as int) == c.len() + delta.len() - 1,
        (c + delta)[c.len() + delta.len() - 1] == delta.last(),
    decreases delta.len(),
{
    assert((c + delta)[c.len() as int] == delta[0]);
    if delta.len() == 1 {
        assert(choice_spec((c + delta)[c.len() as int]) != Choice::Unrecognised);
    } else {
        assert(choice_spec(delta[0]) == Choice::Unrecognised);
        let c2 = c.push(delta[0]);
        let delta2 = delta.skip(1);
        assert(c2 + delta2 =~= c + delta);
        assert(delta2.last() == delta.last());
        assert(forall|t: int| 0 <= t < delta2.len() - 1 ==> choice_spec(#[trigger] delta2[t])
            == Choice::Unrecognised);
        lemma_decisive_delta(c2, delta2);
    }
}

/// A session that found every answer it needed is untouched by answers
/// that arrive later.
proof fn lemma_session_extend(
    set: Seq<HashedFile>,
    exists: Seq<bool>,
    k: int,
    j: int,
    hi: int,
    apos: int,
    c: Seq<Seq<char>>,
    delta: Seq<Seq<char>>,
)
    requires
        0 <= apos <= c.len(),
        session_run(set, exists, k, j, hi, apos, c).2,
    ensures
        session_run(set, exists, k, j, hi, apos, c + delta) == session_run(
            set,
            exists,
            k,
            j,
            hi,
            apos,
            c,
        ),
        session_run(set, exists, k, j, hi, apos, c).1 <= c.len(),
    decreases hi - j,
{
    if j < 0 || j >= hi {
    } else if !exists[j] {
        lemma_session_extend(set, exists, k, j + 1, hi, apos, c, delta);
    } else {
        let d = decisive_after(c, apos);
        lemma_decisive_bounds(c, apos);
        assert(d < c.len());
        lemma_decisive_extend(c, delta, apos);
        assert((c + delta)[d] == c[d]);
        if choice_spec(c[d]) == Choice::Yes || choice_spec(c[d]) == Choice::No {
            lemma_session_extend(set, exists, k, j + 1, hi, d + 1, c, delta);
        }
    }
}

/// Extending a clean session by one more duplicate appends that
/// duplicate's outcome.
proof fn lemma_session_snoc(
    set: Seq<HashedFile>,
    exists: Seq<bool>,
    k: int,
    j: int,
    hi: int,
    apos: int,
    answers: Seq<Seq<char>>,
)
    requires
        0 <= j <= hi,
        session_run(set, exists, k, j, hi, apos, answers).2,
    ensures
        ({
            let run = session_run(set, exists, k, j, hi, apos, answers);
            let d = decisive_after(answers, run.1);
            session_run(set, exists, k, j, hi + 1, apos, answers) == (if !exists[hi] {
                run
            } else if d >= answers.len() {
                (run.0, run.1, false)
            } else if choice_spec(answers[d]) == Choice::Yes {
                (run.0.push((set[hi]@.1, Some(set[k]@.1))), d + 1, true)
            } else if choice_spec(answers[d]) == Choice::No {
                (run.0, d + 1, true)
            } else {
                (run.0, run.1, false)
            })
        }),
    decreases hi - j,
{
    let run = session_run(set, exists, k, j, hi, apos, answers);
    let d = decisive_after(answers, run.1);
    if j >= hi {
        assert(run == (Seq::<(Seq<Seq<char>>, Option<Seq<Seq<char>>>)>::empty(), apos, true));
        assert(session_run(set, exists, k, hi + 1, hi + 1, d + 1, answers) == (
            Seq::<(Seq<Seq<char>>, Option<Seq<Seq<char>>>)>::empty(),
            d + 1,
            true,
        ));
        assert(session_run(set, exists, k, hi + 1, hi + 1, apos, answers) == (
            Seq::<(Seq<Seq<char>>, Option<Seq<Seq<char>>>)>::empty(),
            apos,
            true,
        ));
        if exists[hi] && d < answers.len() && choice_spec(answers[d]) == Choice::Yes {
            assert(seq![(set[hi]@.1, Some(set[k]@.1))] + session_run(
                set,
                exists,
                k,
                hi + 1,
                hi + 1,
                d + 1,
                answers,
            ).0 =~= run.0.push((set[hi]@.1, Some(set[k]@.1))));
        }
    } else if !exists[j] {
        lemma_session_snoc(set, exists, k, j + 1, hi, apos, answers);
        assert(session_run(set, exists, k, j, hi + 1, apos, answers) == session_run(
            set,
            exists,
            k,
            j + 1,
            hi + 1,
            apos,
            answers,
        ));
        assert(run == session_run(set, exists, k, j + 1, hi, apos, answers));
    } else {
        let dj = decisive_after(answers, apos);
        assert(dj < answers.len());
        if choice_spec(answers[dj]) == Choice::Yes {
            lemma_session_snoc(set, exists, k, j + 1, hi, dj + 1, answers);
            let inner = session_run(set, exists, k, j + 1, hi, dj + 1, answers);
            let inner2 = session_run(set, exists, k, j + 1, hi + 1, dj + 1, answers);
            assert(run == (
                seq![(set[j]@.1, Some(set[k]@.1))] + inner.0,
                inner.1,
                inner.2,
            ));
            assert(session_run(set, exists, k, j, hi + 1, apos, answers) == (
                seq![(set[j]@.1, Some(set[k]@.1))] + inner2.0,
                inner2.1,
                inner2.2,
            ));
            assert(run.1 == inner.1);
            if !exists[hi] {
                assert(inner2 == inner);
                assert(seq![(set[j]@.1, Some(set[k]@.1))] + inner.0 =~= run.0);
            } else if d >= answers.len() {
                assert(inner2 == (inner.0, inner.1, false));
                assert(seq![(set[j]@.1, Some(set[k]@.1))] + inner.0 =~= run.0);
            } else if choice_spec(answers[d]) == Choice::Yes {
                assert(inner2 == (inner.0.push((set[hi]@.1, Some(set[k]@.1))), d + 1, true));
                assert(seq![(set[j]@.1, Some(set[k]@.1))] + inner.0.push(
                    (set[hi]@.1, Some(set[k]@.1)),
                ) =~= run.0.push((set[hi]@.1, Some(set[k]@.1))));
            } else if choice_spec(answers[d]) == Choice::No {
                assert(inner2 == (inner.0, d + 1, true));
                assert(seq![(set[j]@.1, Some(set[k]@.1))] + inner.0 =~= run.0);
            } else {
                assert(inner2 == (inner.0, inner.1, false));
                assert(seq![(set[j]@.1, Some(set[k]@.1))] + inner.0 =~= run.0);
            }
        } else if choice_spec(answers[dj]) == Choice::No {
            lemma_session_snoc(set, exists, k, j + 1, hi, dj + 1, answers);
            assert(session_run(set, exists, k, j, hi + 1, apos, answers) == session_run(
                set,
                exists,
                k,
                j + 1,
                hi + 1,
                dj + 1,
                answers,
            ));
            assert(run == session_run(set, exists, k, j + 1, hi, dj + 1, answers));
        }
    }
    assert(session_run(set, exists, k, j, hi + 1, apos, answers) == (if !exists[hi] {
        run
    } else if d >= answers.len() {
        (run.0, run.1, false)
    } else if choice_spec(answers[d]) == Choice::Yes {
        (run.0.push((set[hi]@.1, Some(set[k]@.1))), d + 1, true)
    } else if choice_spec(answers[d]) == Choice::No {
        (run.0, d + 1, true)
    } else {
        (run.0, run.1, false)
    }));
}

/// Applies the configured action to each existing duplicate only after
/// the user agreed on the answer stream.
pub struct InteractiveEachChoice<R, W, A> {
    read: R,
    write: W,
    action: A,
}

impl<R: ChoiceInputReader, W: LineSink, A: FileConsumeAction> InteractiveEachChoice<R, W, A> {
    /// The action's call log.
    pub closed spec fn performed(&self) -> Seq<(Seq<Seq<char>>, Option<Seq<Seq<char>>>, bool)> {
        self.action.action_log()
    }

    /// The answers read so far.
    pub closed spec fn heard(&self) -> Seq<Seq<char>> {
        self.read.answers()
    }

    pub fn new(read: R, write: W, action: A) -> (r: Self)
        ensures
            r.performed() == action.action_log(),
            r.heard() == read.answers(),
    {
        InteractiveEachChoice { read, write, action }
    }

    /// Asks until the answer is a clear yes or no; a closed or failing
    /// input stream aborts the run.
    fn ask(&mut self) -> (r: Result<bool, AlreadyReportedError>)
        ensures
            final(self).performed() == old(self).performed(),
            final(self).heard().len() >= old(self).heard().len(),
            final(self).heard().take(old(self).heard().len() as int) == old(self).heard(),
            ({
                let got = final(self).heard().skip(old(self).heard().len() as int);
                &&& r == Ok::<bool, AlreadyReportedError>(true) ==> got.len() >= 1 && choice_spec(
                    got.last(),
                ) == Choice::Yes && forall|t: int|
                    0 <= t < got.len() - 1 ==> choice_spec(#[trigger] got[t])
                        == Choice::Unrecognised
                &&& r == Ok::<bool, AlreadyReportedError>(false) ==> got.len() >= 1 && choice_spec(
                    got.last(),
                ) == Choice::No && forall|t: int|
                    0 <= t < got.len() - 1 ==> choice_spec(#[trigger] got[t])
                        == Choice::Unrecognised
            }),
    {
        let ghost h0 = self.heard();
        let mut buf = String::new();
        loop
            invariant
                h0 == old(self).heard(),
                self.performed() == old(self).performed(),
                self.heard().len() >= h0.len(),
                self.heard().take(h0.len() as int) == h0,
                forall|t: int|
                    0 <= t < self.heard().len() - h0.len() ==> choice_spec(
                        #[trigger] self.heard().skip(h0.len() as int)[t],
                    ) == Choice::Unrecognised,
            decreases self.read.remaining(),
        {
            buf = String::new();
            let ghost heard_before = self.heard();
            let read = self.read.read_remaining(&mut buf);
            proof {
                assert(buf@.skip(0) =~= buf@);
                assert(self.heard() == heard_before.push(buf@));
                assert(self.heard().take(h0.len() as int) =~= h0);
                assert(self.heard().skip(h0.len() as int) =~= heard_before.skip(
                    h0.len() as int,
                ).push(buf@));
                assert(self.heard().skip(h0.len() as int).last() == buf@);
            }
            if read.is_err() {
                return Err(AlreadyReportedError);
            }
            if buf.as_str().unicode_len() == 0 {
                // the input is closed
                return Err(AlreadyReportedError);
            }
            match parse_choice(buf.as_str()) {
                Choice::Yes => {
                    return Ok(true);
                },
                Choice::No => {
                    return Ok(false);
                },
                Choice::Closed => {
                    return Err(AlreadyReportedError);
                },
                Choice::Unrecognised => {
                    let kept_going = self.write.write_text(
                        "unrecognised answer; only y(es) and n(o) are accepted\n",
                    );
                    if !kept_going {
                        return Err(AlreadyReportedError);
                    }
                },
            }
        }
    }

    /// Consumes the set: the first existing file is the original; each
    /// later existing file is prompted for and acted on exactly when the
    /// answers say yes, unrecognised answers only re-asking. On success
    /// the call log extends by precisely the session over the answers
    /// read; a closed answer stream, a failing stream and a fatal action
    /// abort, leaving the calls of the session's completed part.
    #[verifier::rlimit(60)]
    pub fn consume_set(&mut self, set: &Vec<HashedFile>, exists: &Vec<bool>) -> (r: Result<
        (),
        AlreadyReportedError,
    >)
        requires
            exists@.len() == set@.len(),
            set@.len() >= 2,
        ensures
            final(self).performed().len() >= old(self).performed().len(),
            final(self).performed().take(old(self).performed().len() as int) == old(
                self,
            ).performed(),
            final(self).heard().len() >= old(self).heard().len(),
            final(self).heard().take(old(self).heard().len() as int) == old(self).heard(),
            ({
                let added = final(self).performed().skip(old(self).performed().len() as int);
                let got = final(self).heard().skip(old(self).heard().len() as int);
                match original_index(exists@) {
                    None => r is Ok && added.len() == 0 && got.len() == 0,
                    Some(k) => {
                        let run = session_run(set@, exists@, k, k + 1, set@.len() as int, 0, got);
                        &&& r is Ok ==> entries_match(added, run.0) && run.1 == got.len() && run.2
                            && forall|i: int| 0 <= i < added.len() ==> !(#[trigger] added[i]).2
                        &&& r is Err ==> aborted_session(set@, exists@, k, added, got)
                    },
                }
            }),
    {
        let ghost p0 = self.performed();
        let ghost h0 = self.heard();
        let orig = match choose_original(exists) {
            Some(orig) => orig,
            None => {
                proof {
                    assert(self.performed().take(p0.len() as int) =~= p0);
                    assert(self.performed().skip(p0.len() as int).len() == 0);
                    assert(self.heard().take(h0.len() as int) =~= h0);
                    assert(self.heard().skip(h0.len() as int).len() == 0);
                }
                return Ok(());
            },
        };
        let n = set.len();
        let mut i: usize = orig + 1;
        proof {
            assert(self.performed().take(p0.len() as int) =~= p0);
            assert(self.performed().skip(p0.len() as int) =~= Seq::<
                (Seq<Seq<char>>, Option<Seq<Seq<char>>>, bool),
            >::empty());
            assert(self.heard().take(h0.len() as int) =~= h0);
            assert(self.heard().skip(h0.len() as int) =~= Seq::<Seq<char>>::empty());
        }
        while i < n
            invariant
                orig < i,
                i <= n,
                n == set@.len() == exists@.len(),
                original_index(exists@) == Some(orig as int),
                p0 == old(self).performed(),
                h0 == old(self).heard(),
                self.performed().len() >= p0.len(),
                self.performed().take(p0.len() as int) == p0,
                self.heard().len() >= h0.len(),
                self.heard().take(h0.len() as int) == h0,
                ({
                    let added = self.performed().skip(p0.len() as int);
                    let got = self.heard().skip(h0.len() as int);
                    let run = session_run(
                        set@,
                        exists@,
                        orig as int,
                        orig as int + 1,
                        i as int,
                        0,
                        got,
                    );
                    entries_match(added, run.0) && run.1 == got.len() && run.2
                }),
                forall|t: int|
                    0 <= t < self.performed().len() - p0.len() ==> !(#[trigger] self.performed()
                        .skip(p0.len() as int)[t]).2,
            decreases n - i,
        {
            let ghost got_before = self.heard().skip(h0.len() as int);
            let ghost added_before = self.performed().skip(p0.len() as int);
            let ghost run_before = session_run(
                set@,
                exists@,
                orig as int,
                orig as int + 1,
                i as int,
                0,
                got_before,
            );
            if exists[i] {
                proof {
                    assert(exists@[i as int]);
                }
                let mut prompt = self.action.short_name();
                prompt.append(" ");
                let segs = set[i].file_path.to_push_buf();
                let name = display_path(&segs);
                prompt.append(name.as_str());
                prompt.append("?\n");
                let kept_going = self.write.write_text(prompt.as_str());
                if !kept_going {
                    proof {
                        assert(k_witness(
                            set@,
                            exists@,
                            orig as int,
                            i as int,
                            self.performed().skip(p0.len() as int),
                            self.heard().skip(h0.len() as int),
                        ));
                        assert(aborted_session(
                            set@,
                            exists@,
                            orig as int,
                            self.performed().skip(p0.len() as int),
                            self.heard().skip(h0.len() as int),
                        ));
                    }
                    return Err(AlreadyReportedError);
                }
                let ghost heard_pre = self.heard();
                let agreed = match self.ask() {
                    Ok(agreed) => agreed,
                    Err(e) => {
                        proof {
                            let delta = self.heard().skip(heard_pre.len() as int);
                            let got_now = self.heard().skip(h0.len() as int);
                            assert(got_now =~= got_before + delta);
                            lemma_session_extend(
                                set@,
                                exists@,
                                orig as int,
                                orig as int + 1,
                                i as int,
                                0,
                                got_before,
                                delta,
                            );
                            assert(self.performed().skip(p0.len() as int) == added_before);
                            assert(k_witness(
                                set@,
                                exists@,
                                orig as int,
                                i as int,
                                self.performed().skip(p0.len() as int),
                                self.heard().skip(h0.len() as int),
                            ));
                            assert(aborted_session(
                                set@,
                                exists@,
                                orig as int,
                                self.performed().skip(p0.len() as int),
                                self.heard().skip(h0.len() as int),
                            ));
                        }
                        return Err(e);
                    },
                };
                proof {
                    let delta = self.heard().skip(heard_pre.len() as int);
                    let got_now = self.heard().skip(h0.len() as int);
                    assert(got_now =~= got_before + delta);
                    lemma_session_extend(
                        set@,
                        exists@,
                        orig as int,
                        orig as int + 1,
                        i as int,
                        0,
                        got_before,
                        delta,
                    );
                    lemma_session_snoc(
                        set@,
                        exists@,
                        orig as int,
                        orig as int + 1,
                        i as int,
                        0,
                        got_now,
                    );
                    assert(delta.len() >= 1);
                    lemma_decisive_delta(got_before, delta);
                    assert(decisive_after(got_now, got_before.len() as int) == got_now.len() - 1);
                    assert(got_now[got_now.len() - 1] == delta.last());
                    if agreed {
                        assert(choice_spec(got_now[got_now.len() - 1]) == Choice::Yes);
                    } else {
                        assert(choice_spec(got_now[got_now.len() - 1]) == Choice::No);
                    }
                }
                if agreed {
                    let ghost before = self.performed();
                    let outcome = self.action.consume(
                        &set[i].file_path,
                        Some(&set[orig].file_path),
                    );
                    proof {
                        let got_now = self.heard().skip(h0.len() as int);
                        assert(self.performed().take(p0.len() as int) =~= p0);
                        assert(self.performed().skip(p0.len() as int) =~= added_before.push(
                            (
                                set@[i as int]@.1,
                                Some(set@[orig as int]@.1),
                                outcome matches Err(Recoverable::Fatal(_)),
                            ),
                        ));
                        let run_next = session_run(
                            set@,
                            exists@,
                            orig as int,
                            orig as int + 1,
                            i as int + 1,
                            0,
                            got_now,
                        );
                        assert(run_next.0 == run_before.0.push(
                            (set@[i as int]@.1, Some(set@[orig as int]@.1)),
                        ));
                        assert(run_next.1 == got_now.len());
                        assert(run_next.2);
                        assert(entries_match(self.performed().skip(p0.len() as int), run_next.0))
                            by {
                            let added = self.performed().skip(p0.len() as int);
                            assert forall|t: int| 0 <= t < added.len() implies (
                                #[trigger] added[t]).0 == run_next.0[t].0 && added[t].1
                                == run_next.0[t].1 by {
                                if t < added_before.len() {
                                    assert(added[t] == added_before[t]);
                                    assert(run_next.0[t] == run_before.0[t]);
                                }
                            }
                        }
                    }
                    match abort_on_fatal(outcome) {
                        Ok(()) => {},
                        Err(e) => {
                            proof {
                                assert(k_witness(
                                    set@,
                                    exists@,
                                    orig as int,
                                    i as int + 1,
                                    self.performed().skip(p0.len() as int),
                                    self.heard().skip(h0.len() as int),
                                ));
                                assert(aborted_session(
                                    set@,
                                    exists@,
                                    orig as int,
                                    self.performed().skip(p0.len() as int),
                                    self.heard().skip(h0.len() as int),
                                ));
                            }
                            return Err(e);
                        },
                    }
                } else {
                    proof {
                        let got_now = self.heard().skip(h0.len() as int);
                        let run_next = session_run(
                            set@,
                            exists@,
                            orig as int,
                            orig as int + 1,
                            i as int + 1,
                            0,
                            got_now,
                        );
                        assert(run_next.0 == run_before.0);
                        assert(run_next.1 == got_now.len());
                        assert(run_next.2);
                    }
                }
            } else {
                proof {
                    lemma_session_snoc(
                        set@,
                        exists@,
                        orig as int,
                        orig as int + 1,
                        i as int,
                        0,
                        got_before,
                    );
                    assert(session_run(
                        set@,
                        exists@,
                        orig as int,
                        orig as int + 1,
                        i as int + 1,
                        0,
                        got_before,
                    ) == run_before);
                }
            }
            i = i + 1;
        }
        Ok(())
    }
}

/// Whether the calls recorded are those of some completed part of the
/// session: what an aborted consumption leaves behind.
pub open spec fn aborted_session(
    set: Seq<HashedFile>,
    exists: Seq<bool>,
    k: int,
    added: Seq<(Seq<Seq<char>>, Option<Seq<Seq<char>>>, bool)>,
    got: Seq<Seq<char>>,
) -> bool {
    exists|j2: int| #[trigger] k_witness(set, exists, k, j2, added, got)
}

/// Whether the calls recorded so far are those of the session's
/// completed part, up to duplicate `j2`: the witness the abort cases
/// leave behind.
pub open spec fn k_witness(
    set: Seq<HashedFile>,
    exists: Seq<bool>,
    k: int,
    j2: int,
    added: Seq<(Seq<Seq<char>>, Option<Seq<Seq<char>>>, bool)>,
    got: Seq<Seq<char>>,
) -> bool {
    k < j2 <= set.len() && entries_match(added, session_run(set, exists, k, k + 1, j2, 0, got).0)
}

} // verus!
