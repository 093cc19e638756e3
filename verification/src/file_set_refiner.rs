//! Equality refiners.
//!
//! A refiner contributes discriminating bytes to the composite digest and
//! decides pairwise equality of two files from their probes. Refiners are
//! chained; the chain is sorted once by work severity so the cheap checks
//! run first, and the checks' verdicts are AND-ed.

use vstd::prelude::*;
use crate::error_handling::AlreadyReportedError;
use crate::file_meta::FileProbe;
use crate::hashing::CompositeHasher;
use crate::hashing::u32_le_bytes;
use crate::sorting::SortKey;
use crate::sorting::sort_spec;
use crate::sorting::stable_sort;

verus! {

/// Which side of a pairwise check failed.
#[derive(Debug, Copy, Clone, Eq, PartialEq, Structural)]
pub enum CheckEqualsErrorOn {
    First,
    Second,
    Both,
}

impl CheckEqualsErrorOn {
    /// Which sides are faulty, as `(first, second)`.
    pub fn is_faulty(self) -> (r: (bool, bool))
        ensures
            r == match self {
                CheckEqualsErrorOn::First => (true, false),
                CheckEqualsErrorOn::Second => (false, true),
                CheckEqualsErrorOn::Both => (true, true),
            },
    {
        match self {
            CheckEqualsErrorOn::First => (true, false),
            CheckEqualsErrorOn::Second => (false, true),
            CheckEqualsErrorOn::Both => (true, true),
        }
    }

    /// The error blaming the first side.
    pub fn first_err() -> (r: Self)
        ensures
            r == CheckEqualsErrorOn::First,
    {
        CheckEqualsErrorOn::First
    }

    /// The error blaming the second side.
    pub fn second_err() -> (r: Self)
        ensures
            r == CheckEqualsErrorOn::Second,
    {
        CheckEqualsErrorOn::Second
    }
}

/// How expensive a refiner's check is.
#[derive(Debug, Copy, Clone, Eq, PartialEq, Hash, Structural)]
pub enum FileWorkload {
    /// Cpu-bound work only.
    Simple,
    /// Reads a file property.
    FileMetadata,
    /// Reads the file content itself.
    FileContent,
}

/// The position of a workload in the cheap-to-expensive order.
pub open spec fn workload_rank(w: FileWorkload) -> int {
    match w {
        FileWorkload::Simple => 0,
        FileWorkload::FileMetadata => 1,
        FileWorkload::FileContent => 2,
    }
}

/// Decides whether two files are equal under one notion of equality, and
/// feeds the property it checks into the composite hash.
pub trait FileEqualsChecker: Sized {
    /// What the pairwise check returns on these probes.
    spec fn check_spec(&self, a: &FileProbe, b: &FileProbe) -> Result<bool, CheckEqualsErrorOn>;

    /// The bytes this refiner hashes for a file, or `None` when the
    /// probe lacks what it needs.
    spec fn component_spec(&self, f: &FileProbe) -> Option<Seq<u8>>;

    /// How expensive the check is.
    spec fn severity_spec(&self) -> FileWorkload;

    /// Checks whether two files are equal under this refiner.
    fn check_equal(&self, a: &FileProbe, b: &FileProbe) -> (r: Result<bool, CheckEqualsErrorOn>)
        ensures
            r == self.check_spec(a, b),
    ;

    /// Hashes the checked property; a no-op where the property is
    /// already part of the content digest.
    fn hash_component(&self, f: &FileProbe, hasher: &mut CompositeHasher) -> (r: Result<
        (),
        AlreadyReportedError,
    >)
        ensures
            match self.component_spec(f) {
                Some(bytes) => r is Ok && final(hasher).fed_bytes() == old(hasher).fed_bytes()
                    + bytes,
                None => r is Err,
            },
    ;

    /// How expensive the check is.
    fn work_severity(&self) -> (r: FileWorkload)
        ensures
            r == self.severity_spec(),
    ;
}

/// Byte-wise content equality. The content is already hashed, so this
/// refiner contributes nothing to the digest.
pub struct FileContentEquals {}

impl FileContentEquals {
    pub fn new() -> (r: Self) {
        FileContentEquals {  }
    }
}

fn bytes_equal(x: &Vec<u8>, y: &Vec<u8>) -> (r: bool)
    ensures
        r == (x@ == y@),
{
    if x.len() != y.len() {
        return false;
    }
    let n = x.len();
    let mut i: usize = 0;
    while i < n
        invariant
            i <= n,
            n == x@.len() == y@.len(),
            forall|j: int| 0 <= j < i ==> x@[j] == y@[j],
        decreases n - i,
    {
        if x[i] != y[i] {
            return false;
        }
        i = i + 1;
    }
    proof {
        assert(x@ =~= y@);
    }
    true
}

impl FileEqualsChecker for FileContentEquals {
    open spec fn check_spec(&self, a: &FileProbe, b: &FileProbe) -> Result<
        bool,
        CheckEqualsErrorOn,
    > {
        match (&a.content, &b.content) {
            (None, _) => Err(CheckEqualsErrorOn::First),
            (Some(_), None) => Err(CheckEqualsErrorOn::Second),
            (Some(x), Some(y)) => Ok(x@ == y@),
        }
    }

    open spec fn component_spec(&self, f: &FileProbe) -> Option<Seq<u8>> {
        Some(Seq::empty())
    }

    open spec fn severity_spec(&self) -> FileWorkload {
        FileWorkload::FileContent
    }

    fn check_equal(&self, a: &FileProbe, b: &FileProbe) -> (r: Result<bool, CheckEqualsErrorOn>) {
        match (&a.content, &b.content) {
            (None, _) => Err(CheckEqualsErrorOn::first_err()),
            (Some(_), None) => Err(CheckEqualsErrorOn::second_err()),
            (Some(x), Some(y)) => Ok(bytes_equal(x, y)),
        }
    }

    fn hash_component(&self, f: &FileProbe, hasher: &mut CompositeHasher) -> (r: Result<
        (),
        AlreadyReportedError,
    >) {
        proof {
            assert(hasher.fed_bytes() + Seq::<u8>::empty() =~= hasher.fed_bytes());
        }
        Ok(())
    }

    fn work_severity(&self) -> (r: FileWorkload) {
        FileWorkload::FileContent
    }
}

/// Equality of the nine low permission bits.
pub struct PermissionEqualChecker {}

impl PermissionEqualChecker {
    pub fn new() -> (r: Self) {
        PermissionEqualChecker {  }
    }
}

impl FileEqualsChecker for PermissionEqualChecker {
    open spec fn check_spec(&self, a: &FileProbe, b: &FileProbe) -> Result<
        bool,
        CheckEqualsErrorOn,
    > {
        match (&a.meta, &b.meta) {
            (None, _) => Err(CheckEqualsErrorOn::First),
            (Some(_), None) => Err(CheckEqualsErrorOn::Second),
            (Some(x), Some(y)) => Ok(x.mode & 0x1ff == y.mode & 0x1ff),
        }
    }

    open spec fn component_spec(&self, f: &FileProbe) -> Option<Seq<u8>> {
        match &f.meta {
            None => None,
            Some(m) => Some(u32_le_bytes(m.mode & 0x1ff)),
        }
    }

    open spec fn severity_spec(&self) -> FileWorkload {
        FileWorkload::FileMetadata
    }

    fn check_equal(&self, a: &FileProbe, b: &FileProbe) -> (r: Result<bool, CheckEqualsErrorOn>) {
        match (&a.meta, &b.meta) {
            (None, _) => Err(CheckEqualsErrorOn::first_err()),
            (Some(_), None) => Err(CheckEqualsErrorOn::second_err()),
            (Some(x), Some(y)) => Ok(x.mode & 0x1ff == y.mode & 0x1ff),
        }
    }

    fn hash_component(&self, f: &FileProbe, hasher: &mut CompositeHasher) -> (r: Result<
        (),
        AlreadyReportedError,
    >) {
        match &f.meta {
            None => Err(AlreadyReportedError),
            Some(m) => {
                hasher.write_u32(m.mode & 0x1ff);
                Ok(())
            },
        }
    }

    fn work_severity(&self) -> (r: FileWorkload) {
        FileWorkload::FileMetadata
    }
}

/// One configured refiner.
pub enum FileEqualsCheckerKind {
    Content(FileContentEquals),
    Permission(PermissionEqualChecker),
}

impl FileEqualsChecker for FileEqualsCheckerKind {
    open spec fn check_spec(&self, a: &FileProbe, b: &FileProbe) -> Result<
        bool,
        CheckEqualsErrorOn,
    > {
        match self {
            FileEqualsCheckerKind::Content(c) => c.check_spec(a, b),
            FileEqualsCheckerKind::Permission(c) => c.check_spec(a, b),
        }
    }

    open spec fn component_spec(&self, f: &FileProbe) -> Option<Seq<u8>> {
        match self {
            FileEqualsCheckerKind::Content(c) => c.component_spec(f),
            FileEqualsCheckerKind::Permission(c) => c.component_spec(f),
        }
    }

    open spec fn severity_spec(&self) -> FileWorkload {
        match self {
            FileEqualsCheckerKind::Content(c) => c.severity_spec(),
            FileEqualsCheckerKind::Permission(c) => c.severity_spec(),
        }
    }

    fn check_equal(&self, a: &FileProbe, b: &FileProbe) -> (r: Result<bool, CheckEqualsErrorOn>) {
        match self {
            FileEqualsCheckerKind::Content(c) => c.check_equal(a, b),
            FileEqualsCheckerKind::Permission(c) => c.check_equal(a, b),
        }
    }

    fn hash_component(&self, f: &FileProbe, hasher: &mut CompositeHasher) -> (r: Result<
        (),
        AlreadyReportedError,
    >) {
        match self {
            FileEqualsCheckerKind::Content(c) => c.hash_component(f, hasher),
            FileEqualsCheckerKind::Permission(c) => c.hash_component(f, hasher),
        }
    }

    fn work_severity(&self) -> (r: FileWorkload) {
        match self {
            FileEqualsCheckerKind::Content(c) => c.work_severity(),
            FileEqualsCheckerKind::Permission(c) => c.work_severity(),
        }
    }
}

impl SortKey for FileEqualsCheckerKind {
    open spec fn le_spec(&self, other: &Self) -> bool {
        workload_rank(self.severity_spec()) <= workload_rank(other.severity_spec())
    }

    proof fn lemma_total(a: &Self, b: &Self) {
    }

    proof fn lemma_trans(a: &Self, b: &Self, c: &Self) {
    }

    fn le(&self, other: &Self) -> (r: bool) {
        let a = self.work_severity();
        let b = other.work_severity();
        let ra: u8 = match a {
            FileWorkload::Simple => 0,
            FileWorkload::FileMetadata => 1,
            FileWorkload::FileContent => 2,
        };
        let rb: u8 = match b {
            FileWorkload::Simple => 0,
            FileWorkload::FileMetadata => 1,
            FileWorkload::FileContent => 2,
        };
        ra <= rb
    }
}

/// The configured refiner chain, sorted once by ascending work severity
/// so that cheap checks run and short-circuit before expensive ones.
pub struct FileSetRefiners {
    checkers: Vec<FileEqualsCheckerKind>,
}

/// The concatenated hash components of a refiner chain, or `None` as
/// soon as one refiner cannot provide its component.
pub open spec fn components_of(cs: Seq<FileEqualsCheckerKind>, f: &FileProbe) -> Option<Seq<u8>>
    decreases cs.len(),
{
    if cs.len() == 0 {
        Some(Seq::empty())
    } else {
        match cs[0].component_spec(f) {
            None => None,
            Some(b) => match components_of(cs.skip(1), f) {
                None => None,
                Some(rest) => Some(b + rest),
            },
        }
    }
}

/// The AND of a refiner chain's verdicts, in order: the first error or
/// the first `false` ends the check.
pub open spec fn check_all(
    cs: Seq<FileEqualsCheckerKind>,
    a: &FileProbe,
    b: &FileProbe,
) -> Result<bool, CheckEqualsErrorOn>
    decreases cs.len(),
{
    if cs.len() == 0 {
        Ok(true)
    } else {
        match cs[0].check_spec(a, b) {
            Err(e) => Err(e),
            Ok(false) => Ok(false),
            Ok(true) => check_all(cs.skip(1), a, b),
        }
    }
}

impl FileSetRefiners {
    /// The refiners in the order they run.
    pub closed spec fn chain(&self) -> Seq<FileEqualsCheckerKind> {
        self.checkers@
    }

    /// Sorts the given refiners by ascending work severity, stably.
    pub fn new(checkers: Vec<FileEqualsCheckerKind>) -> (r: Self)
        ensures
            r.chain() == sort_spec(checkers@),
    {
        FileSetRefiners { checkers: stable_sort(checkers) }
    }

    /// Feeds every refiner's hash component, in order; an error
    /// short-circuits this file.
    pub fn hash_components(&self, hasher: &mut CompositeHasher, f: &FileProbe) -> (r: Result<
        (),
        AlreadyReportedError,
    >)
        ensures
            match components_of(self.chain(), f) {
                Some(bytes) => r is Ok && final(hasher).fed_bytes() == old(hasher).fed_bytes()
                    + bytes,
                None => r is Err,
            },
    {
        let n = self.checkers.len();
        let mut i: usize = 0;
        let ghost fed0 = hasher.fed_bytes();
        let ghost mut acc = Seq::<u8>::empty();
        proof {
            assert(self.chain().skip(0) =~= self.chain());
            assert(fed0 + acc =~= fed0);
        }
        while i < n
            invariant
                i <= n,
                n == self.chain().len(),
                hasher.fed_bytes() == fed0 + acc,
                components_of(self.chain(), f) == match components_of(
                    self.chain().skip(i as int),
                    f,
                ) {
                    None => None::<Seq<u8>>,
                    Some(rest) => Some(acc + rest),
                },
            decreases n - i,
        {
            proof {
                assert(self.chain().skip(i as int)[0] == self.chain()[i as int]);
                assert(self.chain().skip(i as int).skip(1) =~= self.chain().skip(i as int + 1));
            }
            let step = self.checkers[i].hash_component(f, hasher);
            if step.is_err() {
                return Err(AlreadyReportedError);
            }
            proof {
                let b = self.chain()[i as int].component_spec(f).unwrap();
                assert((fed0 + acc) + b =~= fed0 + (acc + b));
                match components_of(self.chain().skip(i as int + 1), f) {
                    Some(rest) => {
                        assert(acc + (b + rest) =~= (acc + b) + rest);
                    },
                    None => {},
                }
                acc = acc + b;
            }
            i = i + 1;
        }
        proof {
            assert(components_of(self.chain().skip(n as int), f) == Some(Seq::<u8>::empty()));
            assert(acc + Seq::<u8>::empty() =~= acc);
        }
        Ok(())
    }

    /// Checks whether two files are equal under every refiner.
    pub fn check_equal(&self, a: &FileProbe, b: &FileProbe) -> (r: Result<
        bool,
        CheckEqualsErrorOn,
    >)
        ensures
            r == check_all(self.chain(), a, b),
    {
        let n = self.checkers.len();
        let mut i: usize = 0;
        proof {
            assert(self.chain().skip(0) =~= self.chain());
        }
        while i < n
            invariant
                i <= n,
                n == self.chain().len(),
                check_all(self.chain(), a, b) == check_all(self.chain().skip(i as int), a, b),
            decreases n - i,
        {
            proof {
                assert(self.chain().skip(i as int)[0] == self.chain()[i as int]);
                assert(self.chain().skip(i as int).skip(1) =~= self.chain().skip(i as int + 1));
            }
            match self.checkers[i].check_equal(a, b) {
                Err(e) => {
                    return Err(e);
                },
                Ok(false) => {
                    return Ok(false);
                },
                Ok(true) => {
                    i = i + 1;
                },
            }
        }
        Ok(true)
    }
}

} // verus!
