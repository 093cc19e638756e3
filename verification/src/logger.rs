//! The logging policy: which messages the run reports.
//!
//! The writing itself belongs to the caller; the library decides, from
//! level and target, whether a message is reported at all.

use vstd::prelude::*;

verus! {

pub const INTERACTION_ERR_TARGET: &'static str = "user_interaction_err";

pub const FORMAT_ERR_TARGET: &'static str = "file_format_err";

pub const CONFIG_ERR_TARGET: &'static str = "config_err";

pub const ACTION_FATAL_FAILURE_TARGET: &'static str = "fatal_action_failure";

pub const ACTION_SUCCESS_TARGET: &'static str = "action_success";

pub const DISCOVERY_ERR_TARGET: &'static str = "file_discovery_err";

pub const FILE_ERR_TARGET: &'static str = "file_error";

pub const FILE_SET_ERR_TARGET: &'static str = "file_set_err";

/// Every log target the run uses.
pub fn get_all_log_targets() -> (r: Vec<&'static str>)
    ensures
        r@.len() == 8,
        r@[0]@ == INTERACTION_ERR_TARGET@,
        r@[1]@ == FORMAT_ERR_TARGET@,
        r@[2]@ == CONFIG_ERR_TARGET@,
        r@[3]@ == ACTION_FATAL_FAILURE_TARGET@,
        r@[4]@ == ACTION_SUCCESS_TARGET@,
        r@[5]@ == DISCOVERY_ERR_TARGET@,
        r@[6]@ == FILE_ERR_TARGET@,
        r@[7]@ == FILE_SET_ERR_TARGET@,
{
    let mut v: Vec<&'static str> = Vec::new();
    v.push(INTERACTION_ERR_TARGET);
    v.push(FORMAT_ERR_TARGET);
    v.push(CONFIG_ERR_TARGET);
    v.push(ACTION_FATAL_FAILURE_TARGET);
    v.push(ACTION_SUCCESS_TARGET);
    v.push(DISCOVERY_ERR_TARGET);
    v.push(FILE_ERR_TARGET);
    v.push(FILE_SET_ERR_TARGET);
    v
}

/// A verbosity threshold, coarsest first.
#[derive(Debug, Copy, Clone, Eq, PartialEq, Structural)]
pub enum LogLevelFilter {
    Off,
    Error,
    Warn,
    Info,
    Debug,
    Trace,
}

/// How verbose a threshold is.
pub open spec fn level_rank(l: LogLevelFilter) -> int {
    match l {
        LogLevelFilter::Off => 0,
        LogLevelFilter::Error => 1,
        LogLevelFilter::Warn => 2,
        LogLevelFilter::Info => 3,
        LogLevelFilter::Debug => 4,
        LogLevelFilter::Trace => 5,
    }
}

fn rank_of(l: LogLevelFilter) -> (r: u8)
    ensures
        r == level_rank(l),
{
    match l {
        LogLevelFilter::Off => 0,
        LogLevelFilter::Error => 1,
        LogLevelFilter::Warn => 2,
        LogLevelFilter::Info => 3,
        LogLevelFilter::Debug => 4,
        LogLevelFilter::Trace => 5,
    }
}

/// Relies on `str::to_ascii_lowercase` of std: each character has its
/// ASCII case bit folded and nothing else changes.
#[verifier::external_body]
fn ascii_lower(s: &str) -> (r: String)
    ensures
        r@.len() == s@.len(),
        forall|i: int|
            0 <= i < s@.len() ==> (#[trigger] r@[i]) as u32 == crate::parse_file_size::lower_code(
                s@[i],
            ),
{
    s.to_ascii_lowercase()
}

/// The targets to silence, from the command line: either the exact list
/// to keep (everything else is silenced; `~` alone keeps nothing more),
/// or a list of `+target` / `~target` changes to the default of
/// silencing nothing.
pub fn parse_ignore_log_targets(
    set_targets: Option<&Vec<String>>,
    target_changes: Option<&Vec<String>>,
) -> (r: Vec<String>)
    ensures
        set_targets is None && target_changes is None ==> r@.len() == 0,
{
    match set_targets {
        Some(chosen) => {
            let mut kept: Vec<String> = Vec::new();
            let n = chosen.len();
            let mut i: usize = 0;
            while i < n
                invariant
                    i <= n,
                    n == chosen@.len(),
                decreases n - i,
            {
                let low = ascii_lower(chosen[i].as_str());
                if !crate::util::str_equal(low.as_str(), "~") {
                    kept.push(low);
                }
                i = i + 1;
            }
            let all = get_all_log_targets();
            let mut silenced: Vec<String> = Vec::new();
            let m = all.len();
            let mut j: usize = 0;
            while j < m
                invariant
                    j <= m,
                    m == all@.len(),
                decreases m - j,
            {
                let target = all[j];
                let mut is_kept = false;
                let kn = kept.len();
                let mut k: usize = 0;
                while k < kn
                    invariant
                        k <= kn,
                        kn == kept@.len(),
                    decreases kn - k,
                {
                    if crate::util::str_equal(kept[k].as_str(), target) {
                        is_kept = true;
                    }
                    k = k + 1;
                }
                if !is_kept {
                    silenced.push(target.to_owned());
                }
                j = j + 1;
            }
            silenced
        },
        None => {
            match target_changes {
                Some(changes) => {
                    let mut silenced: Vec<String> = Vec::new();
                    let n = changes.len();
                    let mut i: usize = 0;
                    while i < n
                        invariant
                            i <= n,
                            n == changes@.len(),
                        decreases n - i,
                    {
                        let change = changes[i].as_str();
                        let len = change.unicode_len();
                        if len >= 1 {
                            let positive = change.get_char(0) == '+';
                            let rest = change.substring_char(1, len);
                            let target = ascii_lower(rest);
                            if positive {
                                let mut remaining: Vec<String> = Vec::new();
                                let sn = silenced.len();
                                let mut k: usize = 0;
                                while k < sn
                                    invariant
                                        k <= sn,
                                        sn == silenced@.len(),
                                    decreases sn - k,
                                {
                                    if !crate::util::str_equal(
                                        silenced[k].as_str(),
                                        target.as_str(),
                                    ) {
                                        remaining.push(silenced[k].clone());
                                    }
                                    k = k + 1;
                                }
                                silenced = remaining;
                            } else {
                                let mut present = false;
                                let sn = silenced.len();
                                let mut k: usize = 0;
                                while k < sn
                                    invariant
                                        k <= sn,
                                        sn == silenced@.len(),
                                    decreases sn - k,
                                {
                                    if crate::util::str_equal(
                                        silenced[k].as_str(),
                                        target.as_str(),
                                    ) {
                                        present = true;
                                    }
                                    k = k + 1;
                                }
                                if !present {
                                    silenced.push(target);
                                }
                            }
                        }
                        i = i + 1;
                    }
                    silenced
                },
                None => Vec::new(),
            }
        },
    }
}

/// The run's logging policy: a verbosity threshold and a list of
/// silenced targets.
pub struct DuplisLogger {
    disallowed_targets: Vec<String>,
    log_level_filter: LogLevelFilter,
}

impl DuplisLogger {
    /// The silenced targets.
    pub closed spec fn silenced(&self) -> Seq<Seq<char>> {
        Seq::new(self.disallowed_targets@.len(), |i: int| self.disallowed_targets@[i]@)
    }

    /// The verbosity threshold.
    pub closed spec fn threshold(&self) -> LogLevelFilter {
        self.log_level_filter
    }

    /// A policy silencing the given targets under the given threshold.
    pub fn new(ignore_targets: Vec<String>, log_level_filter: LogLevelFilter) -> (r: Self)
        ensures
            r.silenced() == Seq::new(ignore_targets@.len(), |i: int| ignore_targets@[i]@),
            r.threshold() == log_level_filter,
    {
        DuplisLogger { disallowed_targets: ignore_targets, log_level_filter }
    }

    /// Whether a message of this level and target is reported: the level
    /// must fit under the threshold and the target must not be silenced.
    pub fn enabled(&self, level: LogLevelFilter, target: &str) -> (r: bool)
        ensures
            r == (level_rank(level) <= level_rank(self.threshold()) && !exists|i: int|
                0 <= i < self.silenced().len() && self.silenced()[i] == target@),
    {
        if rank_of(level) > rank_of(self.log_level_filter) {
            return false;
        }
        let n = self.disallowed_targets.len();
        let mut i: usize = 0;
        while i < n
            invariant
                i <= n,
                n == self.silenced().len(),
                forall|j: int| 0 <= j < i ==> self.silenced()[j] != target@,
            decreases n - i,
        {
            if crate::util::str_equal(self.disallowed_targets[i].as_str(), target) {
                proof {
                    assert(self.silenced()[i as int] == target@);
                }
                return false;
            }
            i = i + 1;
        }
        proof {
            if exists|i: int| 0 <= i < self.silenced().len() && self.silenced()[i] == target@ {
                let w = choose|w: int|
                    0 <= w < self.silenced().len() && self.silenced()[w] == target@;
                assert(false);
            }
        }
        true
    }
}

} // verus!
