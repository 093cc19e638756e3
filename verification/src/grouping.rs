//! The duplicate grouping engine.
//!
//! Hashed files are grouped under their 128-bit composite digest. Each
//! digest owns a bucket of candidate sets; inside a bucket, sets are told
//! apart by the content-only digest, and a file joins a set only after
//! the byte-wise check against the set's first element said yes. The
//! check itself reads files, so the caller runs it and feeds the verdict
//! back; every decision about what the verdict means is made here.

use vstd::prelude::*;
use crate::file_set_refiner::CheckEqualsErrorOn;
use crate::util::LinkedPath;
use crate::util::clone_path;

verus! {

/// What the engine records of one file.
pub struct HashedFile {
    /// The modification time captured when the file was hashed.
    pub file_version_timestamp: Option<u64>,
    /// The file's path.
    pub file_path: LinkedPath,
}

impl View for HashedFile {
    type V = (Option<u64>, Seq<Seq<char>>);

    open spec fn view(&self) -> (Option<u64>, Seq<Seq<char>>) {
        (self.file_version_timestamp, self.file_path@)
    }
}

impl HashedFile {
    /// A copy carrying the same timestamp and path.
    pub fn duplicate(&self) -> (r: HashedFile)
        ensures
            r@ == self@,
    {
        HashedFile {
            file_version_timestamp: self.file_version_timestamp,
            file_path: clone_path(&self.file_path),
        }
    }
}

impl PartialEq for HashedFile {
    fn eq(&self, other: &Self) -> (r: bool) {
        let ts_eq = match (&self.file_version_timestamp, &other.file_version_timestamp) {
            (None, None) => true,
            (Some(a), Some(b)) => *a == *b,
            _ => false,
        };
        ts_eq && self.file_path.eq(&other.file_path)
    }
}

impl vstd::std_specs::cmp::PartialEqSpecImpl for HashedFile {
    open spec fn obeys_eq_spec() -> bool {
        true
    }

    open spec fn eq_spec(&self, other: &HashedFile) -> bool {
        self@ == other@
    }
}

/// One set of byte-identical files under a composite digest, keyed by
/// the content-only digest.
pub struct FileSet {
    content_key: u128,
    files: Vec<HashedFile>,
}

impl FileSet {
    /// The content-only digest this set was opened with.
    pub closed spec fn key(&self) -> u128 {
        self.content_key
    }

    /// The recorded files, in admission order; the first is the
    /// candidate original.
    pub closed spec fn members(&self) -> Seq<(Option<u64>, Seq<Seq<char>>)> {
        Seq::new(self.files@.len(), |i: int| self.files@[i]@)
    }

    /// How many files the set holds.
    pub fn len(&self) -> (r: usize)
        ensures
            r == self.members().len(),
    {
        self.files.len()
    }

    /// The content-only digest this set was opened with.
    pub fn content_key(&self) -> (r: u128)
        ensures
            r == self.key(),
    {
        self.content_key
    }

    /// Gives the recorded files up for ordering and consumption.
    pub fn into_files(self) -> (r: Vec<HashedFile>)
        ensures
            Seq::new(r@.len(), |i: int| r@[i]@) == self.members(),
    {
        let r = self.files;
        proof {
            assert(Seq::new(r@.len(), |i: int| r@[i]@) =~= self.members());
        }
        r
    }
}

/// All sets sharing one composite digest.
pub struct CourseBucket {
    sets: Vec<FileSet>,
}

impl CourseBucket {
    /// The bucket's sets: each a content key with its members.
    pub closed spec fn sets_view(&self) -> Seq<(u128, Seq<(Option<u64>, Seq<Seq<char>>)>)> {
        Seq::new(self.sets@.len(), |i: int| (self.sets@[i].key(), self.sets@[i].members()))
    }
}

/// Whether set `i` of bucket `b` is a candidate home for a file with
/// content digest `content`: keys match and the set still has a head to
/// compare against.
pub open spec fn is_candidate(
    b: Seq<(u128, Seq<(Option<u64>, Seq<Seq<char>>)>)>,
    i: int,
    content: u128,
) -> bool {
    0 <= i < b.len() && b[i].0 == content && b[i].1.len() > 0
}

impl CourseBucket {
    /// The first candidate set at or after `pos` for a file with this
    /// content digest.
    fn find_candidate(&self, content: u128, pos: usize) -> (r: Option<usize>)
        ensures
            match r {
                Some(i) => pos <= i < self.sets_view().len() && is_candidate(
                    self.sets_view(),
                    i as int,
                    content,
                ) && forall|j: int|
                    pos <= j < i ==> !is_candidate(self.sets_view(), j, content),
                None => forall|j: int| j >= pos ==> !is_candidate(self.sets_view(), j, content),
            },
    {
        let n = self.sets.len();
        let mut j: usize = pos;
        while j < n
            invariant
                pos <= j,
                n == self.sets_view().len(),
                forall|k: int| pos <= k < j ==> !is_candidate(self.sets_view(), k, content),
            decreases n - j,
        {
            let key = self.sets[j].content_key;
            let len = self.sets[j].files.len();
            if key == content && len > 0 {
                proof {
                    assert(self.sets_view()[j as int] == (self.sets@[j as int].key(), self.sets@[j as int].members()));
                }
                return Some(j);
            }
            proof {
                assert(self.sets_view()[j as int] == (self.sets@[j as int].key(), self.sets@[j as int].members()));
            }
            j = j + 1;
        }
        None
    }

    /// The path of the set's current head, materialised.
    fn head_segments(&self, i: usize) -> (r: Vec<String>)
        requires
            0 <= i < self.sets_view().len(),
            self.sets_view()[i as int].1.len() > 0,
        ensures
            r.deep_view() == self.sets_view()[i as int].1[0].1,
    {
        proof {
            assert(self.sets_view()[i as int] == (self.sets@[i as int].key(), self.sets@[i as int].members()));
            assert(self.sets@[i as int].members()[0] == self.sets@[i as int].files@[0]@);
        }
        self.sets[i].files[0].file_path.to_push_buf()
    }
}

/// The entries of the shared map, read as a map from composite digest to
/// bucket.
pub open spec fn entries_map(s: Seq<(u128, CourseBucket)>) -> Map<
    u128,
    Seq<(u128, Seq<(Option<u64>, Seq<Seq<char>>)>)>,
>
    decreases s.len(),
{
    if s.len() == 0 {
        Map::empty()
    } else {
        entries_map(s.drop_last()).insert(s.last().0, s.last().1.sets_view())
    }
}

/// Whether the entry keys are pairwise distinct.
pub open spec fn unique_keys(s: Seq<(u128, CourseBucket)>) -> bool {
    forall|i: int, j: int| 0 <= i < j < s.len() ==> (#[trigger] s[i]).0 != (#[trigger] s[j]).0
}

proof fn lemma_map_dom(s: Seq<(u128, CourseBucket)>, k: u128)
    ensures
        entries_map(s).dom().contains(k) <==> exists|i: int|
            0 <= i < s.len() && (#[trigger] s[i]).0 == k,
    decreases s.len(),
{
    if s.len() > 0 {
        lemma_map_dom(s.drop_last(), k);
        if s.last().0 == k {
            assert((#[trigger] s[s.len() - 1]).0 == k);
        } else {
            if entries_map(s).dom().contains(k) {
                let i = choose|i: int| 0 <= i < s.drop_last().len() && (#[trigger] s.drop_last()[i]).0 == k;
                assert((#[trigger] s[i]).0 == k);
            }
            if exists|i: int| 0 <= i < s.len() && (#[trigger] s[i]).0 == k {
                let i = choose|i: int| 0 <= i < s.len() && (#[trigger] s[i]).0 == k;
                assert(i < s.len() - 1);
                assert((#[trigger] s.drop_last()[i]).0 == k);
            }
        }
    }
}

proof fn lemma_map_at(s: Seq<(u128, CourseBucket)>, i: int)
    requires
        unique_keys(s),
        0 <= i < s.len(),
    ensures
        entries_map(s).dom().contains(s[i].0),
        entries_map(s)[s[i].0] == s[i].1.sets_view(),
    decreases s.len(),
{
    if i == s.len() - 1 {
    } else {
        assert(unique_keys(s.drop_last()));
        assert(s.drop_last()[i] == s[i]);
        lemma_map_at(s.drop_last(), i);
        assert(s[i].0 != s.last().0);
    }
}

proof fn lemma_map_update(s: Seq<(u128, CourseBucket)>, i: int, b: CourseBucket)
    requires
        unique_keys(s),
        0 <= i < s.len(),
    ensures
        unique_keys(s.update(i, (s[i].0, b))),
        entries_map(s.update(i, (s[i].0, b))) == entries_map(s).insert(s[i].0, b.sets_view()),
    decreases s.len(),
{
    let s2 = s.update(i, (s[i].0, b));
    assert(forall|j: int| 0 <= j < s.len() ==> (#[trigger] s2[j]).0 == s[j].0);
    assert(unique_keys(s2));
    if i == s.len() - 1 {
        assert(s2.drop_last() =~= s.drop_last());
        assert(s2.last() == (s[i].0, b));
        assert(entries_map(s2) == entries_map(s.drop_last()).insert(s[i].0, b.sets_view()));
        assert(entries_map(s.drop_last()).insert(s[i].0, b.sets_view()) =~= entries_map(
            s,
        ).insert(s[i].0, b.sets_view()));
    } else {
        assert(s2.drop_last() =~= s.drop_last().update(i, (s[i].0, b)));
        assert(s.drop_last()[i] == s[i]);
        assert(unique_keys(s.drop_last()));
        lemma_map_update(s.drop_last(), i, b);
        assert(s2.last() == s.last());
        assert(s[i].0 != s.last().0);
        assert(entries_map(s.drop_last()).insert(s[i].0, b.sets_view()).insert(
            s.last().0,
            s.last().1.sets_view(),
        ) =~= entries_map(s.drop_last()).insert(s.last().0, s.last().1.sets_view()).insert(
            s[i].0,
            b.sets_view(),
        ));
    }
}

/// What advancing a placement found.
pub enum PlaceAdvance {
    /// A candidate set: compare the file against its head.
    NeedCheck(usize),
    /// No candidate was left; the file opened a new set.
    PlacedNew,
}

/// What a check verdict did to the placement.
pub enum PlaceAfterCheck {
    /// The file joined set `i`.
    Placed,
    /// Keep searching from this position.
    Continue(usize),
    /// The file is abandoned; its diagnostic was already reported.
    Abandoned,
}

/// The shared map of the grouping engine: one bucket of file sets per
/// composite digest.
pub struct GroupMap {
    entries: Vec<(u128, CourseBucket)>,
}

impl GroupMap {
    /// Whether the map structure is intact: one bucket per digest.
    pub closed spec fn wf(&self) -> bool {
        unique_keys(self.entries@)
    }

    /// The buckets by composite digest.
    pub closed spec fn contents(&self) -> Map<
        u128,
        Seq<(u128, Seq<(Option<u64>, Seq<Seq<char>>)>)>,
    > {
        entries_map(self.entries@)
    }

    /// The bucket of a digest, or the empty bucket where none exists yet.
    pub open spec fn bucket_or_empty(&self, composite: u128) -> Seq<
        (u128, Seq<(Option<u64>, Seq<Seq<char>>)>),
    > {
        if self.contents().dom().contains(composite) {
            self.contents()[composite]
        } else {
            Seq::empty()
        }
    }

    /// An empty map.
    pub fn new() -> (r: Self)
        ensures
            r.wf(),
            r.contents() == Map::<u128, Seq<(u128, Seq<(Option<u64>, Seq<Seq<char>>)>)>>::empty(),
    {
        GroupMap { entries: Vec::new() }
    }

    fn find_bucket(&self, composite: u128) -> (r: Option<usize>)
        ensures
            match r {
                Some(i) => 0 <= i < self.entries@.len() && self.entries@[i as int].0 == composite,
                None => forall|j: int|
                    0 <= j < self.entries@.len() ==> (#[trigger] self.entries@[j]).0 != composite,
            },
    {
        let n = self.entries.len();
        let mut i: usize = 0;
        while i < n
            invariant
                i <= n,
                n == self.entries@.len(),
                forall|j: int| 0 <= j < i ==> (#[trigger] self.entries@[j]).0 != composite,
            decreases n - i,
        {
            if self.entries[i].0 == composite {
                return Some(i);
            }
            i = i + 1;
        }
        None
    }

    /// Makes sure a bucket for the digest exists and reports its index.
    fn ensure_bucket(&mut self, composite: u128) -> (r: usize)
        requires
            old(self).wf(),
        ensures
            final(self).wf(),
            r < final(self).entries@.len(),
            final(self).entries@[r as int].0 == composite,
            final(self).contents() == old(self).contents().insert(
                composite,
                old(self).bucket_or_empty(composite),
            ),
            final(self).bucket_or_empty(composite) == old(self).bucket_or_empty(composite),
            final(self).entries@[r as int].1.sets_view() == old(self).bucket_or_empty(composite),
    {
        let found = self.find_bucket(composite);
        match found {
            Some(i) => {
                proof {
                    lemma_map_at(self.entries@, i as int);
                    assert(self.contents().insert(composite, self.contents()[composite])
                        =~= self.contents());
                }
                i
            },
            None => {
                proof {
                    lemma_map_dom(self.entries@, composite);
                    assert(!self.contents().dom().contains(composite));
                }
                let ghost before = self.entries@;
                let fresh = CourseBucket { sets: Vec::new() };
                proof {
                    assert(fresh.sets_view() =~= Seq::<
                        (u128, Seq<(Option<u64>, Seq<Seq<char>>)>),
                    >::empty());
                }
                self.entries.push((composite, fresh));
                proof {
                    assert(self.entries@.drop_last() =~= before);
                    assert(forall|i: int, j: int|
                        0 <= i < j < self.entries@.len() ==> (#[trigger] self.entries@[i]).0 != (
                        #[trigger] self.entries@[j]).0);
                    lemma_map_at(self.entries@, self.entries@.len() - 1);
                }
                self.entries.len() - 1
            },
        }
    }

    /// Looks for the next candidate set at or after `pos` in the bucket
    /// of `composite` (creating the bucket if the digest is new). Where
    /// none is left, the file opens a new set under its content digest.
    pub fn place_advance(
        &mut self,
        composite: u128,
        content: u128,
        pos: usize,
        file: &HashedFile,
    ) -> (r: PlaceAdvance)
        requires
            old(self).wf(),
        ensures
            final(self).wf(),
            match r {
                PlaceAdvance::NeedCheck(i) => {
                    &&& final(self).contents() == old(self).contents().insert(
                        composite,
                        old(self).bucket_or_empty(composite),
                    )
                    &&& pos <= i < old(self).bucket_or_empty(composite).len()
                    &&& is_candidate(old(self).bucket_or_empty(composite), i as int, content)
                    &&& forall|j: int|
                        pos <= j < i ==> !is_candidate(
                            old(self).bucket_or_empty(composite),
                            j,
                            content,
                        )
                },
                PlaceAdvance::PlacedNew => {
                    &&& final(self).contents() == old(self).contents().insert(
                        composite,
                        old(self).bucket_or_empty(composite).push((content, seq![file@])),
                    )
                    &&& forall|j: int|
                        j >= pos ==> !is_candidate(old(self).bucket_or_empty(composite), j, content)
                },
            },
    {
        let idx = self.ensure_bucket(composite);
        let ghost b0 = self.bucket_or_empty(composite);
        let found = self.entries[idx].1.find_candidate(content, pos);
        match found {
            Some(i) => PlaceAdvance::NeedCheck(i),
            None => {
                let ghost before = self.entries@;
                let mut entry = self.entries.remove(idx);
                let fresh = FileSet { content_key: content, files: vec![file.duplicate()] };
                proof {
                    assert(fresh.members() =~= seq![file@]);
                }
                entry.1.sets.push(fresh);
                proof {
                    assert(entry.1.sets_view() =~= b0.push((content, seq![file@])));
                }
                self.entries.insert(idx, entry);
                proof {
                    assert(self.entries@ =~= before.update(idx as int, entry));
                    lemma_map_update(before, idx as int, entry.1);
                }
                PlaceAdvance::PlacedNew
            },
        }
    }

    /// Whether set `i` under `composite` is still a candidate for a
    /// file with content digest `content`: the bucket exists, the index
    /// is in range, the keys match and the set still has a head. A
    /// caller that released the map between steps revalidates with this
    /// before applying a check verdict.
    pub fn candidate_ok(&self, composite: u128, i: usize, content: u128) -> (r: bool)
        requires
            self.wf(),
        ensures
            r == (self.contents().dom().contains(composite) && is_candidate(
                self.bucket_or_empty(composite),
                i as int,
                content,
            )),
    {
        let idx = match self.find_bucket(composite) {
            Some(idx) => idx,
            None => {
                proof {
                    lemma_map_dom(self.entries@, composite);
                }
                return false;
            },
        };
        proof {
            lemma_map_at(self.entries@, idx as int);
        }
        let bucket = &self.entries[idx].1;
        if i >= bucket.sets.len() {
            return false;
        }
        proof {
            assert(bucket.sets_view()[i as int] == (
                bucket.sets@[i as int].key(),
                bucket.sets@[i as int].members(),
            ));
        }
        bucket.sets[i].content_key == content && bucket.sets[i].files.len() > 0
    }

    /// The materialised path of the head of candidate set `i`, which the
    /// caller compares the incoming file against.
    pub fn head_segments(&self, composite: u128, i: usize) -> (r: Vec<String>)
        requires
            self.wf(),
            self.contents().dom().contains(composite),
            0 <= i < self.contents()[composite].len(),
            self.contents()[composite][i as int].1.len() > 0,
        ensures
            r.deep_view() == self.contents()[composite][i as int].1[0].1,
    {
        let idx = match self.find_bucket(composite) {
            Some(idx) => idx,
            None => {
                proof {
                    lemma_map_dom(self.entries@, composite);
                }
                proof {
                    assert(false);
                }
                0
            },
        };
        proof {
            lemma_map_at(self.entries@, idx as int);
        }
        self.entries[idx].1.head_segments(i)
    }

    /// Applies the verdict of the byte-wise check of `file` against the
    /// head of candidate set `i`: a yes admits the file there; a no moves
    /// the search on; a faulty head is dropped from its set and the head
    /// is probed anew; a faulty incoming file is abandoned.
    pub fn apply_check(
        &mut self,
        composite: u128,
        i: usize,
        check: Result<bool, CheckEqualsErrorOn>,
        file: &HashedFile,
    ) -> (r: PlaceAfterCheck)
        requires
            old(self).wf(),
            old(self).contents().dom().contains(composite),
            0 <= i < old(self).contents()[composite].len(),
            old(self).contents()[composite][i as int].1.len() > 0,
        ensures
            final(self).wf(),
            ({
                let b = old(self).contents()[composite];
                let grown = b.update(i as int, (b[i as int].0, b[i as int].1.push(file@)));
                let beheaded = b.update(i as int, (b[i as int].0, b[i as int].1.skip(1)));
                &&& check == Ok::<bool, CheckEqualsErrorOn>(true) ==> r == PlaceAfterCheck::Placed
                    && final(self).contents() == old(self).contents().insert(composite, grown)
                &&& check == Ok::<bool, CheckEqualsErrorOn>(false) ==> r
                    == PlaceAfterCheck::Continue((i + 1) as usize) && final(self).contents() == old(
                    self,
                ).contents()
                &&& check == Err::<bool, CheckEqualsErrorOn>(CheckEqualsErrorOn::First) ==> r
                    == PlaceAfterCheck::Continue(i) && final(self).contents() == old(
                    self,
                ).contents().insert(composite, beheaded)
                &&& check == Err::<bool, CheckEqualsErrorOn>(CheckEqualsErrorOn::Second) ==> r
                    == PlaceAfterCheck::Abandoned && final(self).contents() == old(self).contents()
                &&& check == Err::<bool, CheckEqualsErrorOn>(CheckEqualsErrorOn::Both) ==> r
                    == PlaceAfterCheck::Abandoned && final(self).contents() == old(
                    self,
                ).contents().insert(composite, beheaded)
            }),
    {
        let ghost b = old(self).contents()[composite];
        match check {
            Ok(true) => {
                self.admit_into(composite, i, file);
                PlaceAfterCheck::Placed
            },
            Ok(false) => {
                proof {
                    lemma_map_dom(self.entries@, composite);
                    let k = choose|k: int|
                        0 <= k < self.entries@.len() && (#[trigger] self.entries@[k]).0
                            == composite;
                    lemma_map_at(self.entries@, k);
                    assert(b.len() == self.entries@[k].1.sets@.len());
                    assert(vstd::std_specs::vec::spec_vec_len(&self.entries@[k].1.sets)
                        == self.entries@[k].1.sets@.len()) by {
                        broadcast use vstd::std_specs::vec::axiom_spec_len;

                    }
                }
                PlaceAfterCheck::Continue(i + 1)
            },
            Err(e) => {
                let (first_faulty, second_faulty) = e.is_faulty();
                if first_faulty {
                    self.drop_head(composite, i);
                }
                if second_faulty {
                    PlaceAfterCheck::Abandoned
                } else {
                    PlaceAfterCheck::Continue(i)
                }
            },
        }
    }

    /// Appends the file to set `i` of the digest's bucket.
    fn admit_into(&mut self, composite: u128, i: usize, file: &HashedFile)
        requires
            old(self).wf(),
            old(self).contents().dom().contains(composite),
            0 <= i < old(self).contents()[composite].len(),
        ensures
            final(self).wf(),
            ({
                let b = old(self).contents()[composite];
                final(self).contents() == old(self).contents().insert(
                    composite,
                    b.update(i as int, (b[i as int].0, b[i as int].1.push(file@))),
                )
            }),
    {
        let ghost b = old(self).contents()[composite];
        let idx = match self.find_bucket(composite) {
            Some(idx) => idx,
            None => {
                proof {
                    lemma_map_dom(self.entries@, composite);
                    assert(false);
                }
                0
            },
        };
        proof {
            lemma_map_at(self.entries@, idx as int);
        }
        let ghost before = self.entries@;
        let mut entry = self.entries.remove(idx);
        let ghost oldsets = entry.1.sets@;
        let mut set = entry.1.sets.remove(i);
        set.files.push(file.duplicate());
        proof {
            assert(set.members() =~= b[i as int].1.push(file@));
        }
        entry.1.sets.insert(i, set);
        proof {
            assert(entry.1.sets@ =~= oldsets.update(i as int, set));
            assert(entry.1.sets_view() =~= b.update(i as int, (b[i as int].0, b[i as int].1.push(file@))));
        }
        self.entries.insert(idx, entry);
        proof {
            assert(self.entries@ =~= before.update(idx as int, entry));
            lemma_map_update(before, idx as int, entry.1);
        }
    }

    /// Removes the head of set `i` of the digest's bucket: it has become
    /// unreadable and can no longer stand for the set.
    fn drop_head(&mut self, composite: u128, i: usize)
        requires
            old(self).wf(),
            old(self).contents().dom().contains(composite),
            0 <= i < old(self).contents()[composite].len(),
            old(self).contents()[composite][i as int].1.len() > 0,
        ensures
            final(self).wf(),
            ({
                let b = old(self).contents()[composite];
                final(self).contents() == old(self).contents().insert(
                    composite,
                    b.update(i as int, (b[i as int].0, b[i as int].1.skip(1))),
                )
            }),
    {
        let ghost b = old(self).contents()[composite];
        let idx = match self.find_bucket(composite) {
            Some(idx) => idx,
            None => {
                proof {
                    lemma_map_dom(self.entries@, composite);
                    assert(false);
                }
                0
            },
        };
        proof {
            lemma_map_at(self.entries@, idx as int);
        }
        let ghost before = self.entries@;
        let mut entry = self.entries.remove(idx);
        let ghost oldsets = entry.1.sets@;
        let mut set = entry.1.sets.remove(i);
        let ghost oldfiles = set.files@;
        let _gone = set.files.remove(0);
        proof {
            assert(set.files@ =~= oldfiles.skip(1));
            assert(set.members() =~= b[i as int].1.skip(1));
        }
        entry.1.sets.insert(i, set);
        proof {
            assert(entry.1.sets@ =~= oldsets.update(i as int, set));
            assert(entry.1.sets_view() =~= b.update(i as int, (b[i as int].0, b[i as int].1.skip(1))));
        }
        self.entries.insert(idx, entry);
        proof {
            assert(self.entries@ =~= before.update(idx as int, entry));
            lemma_map_update(before, idx as int, entry.1);
        }
    }

    /// The sets of every bucket, in the order the map keeps them.
    pub closed spec fn set_list(&self) -> Seq<(u128, Seq<(Option<u64>, Seq<Seq<char>>)>)> {
        buckets_flat(self.entries@)
    }

    /// Drains the map into the list of its sets, bucket by bucket, for
    /// ordering and consumption.
    pub fn into_sets(self) -> (r: Vec<FileSet>)
        ensures
            Seq::new(r@.len(), |i: int| (r@[i].key(), r@[i].members())) == self.set_list(),
    {
        let ghost whole = self.entries@;
        let mut entries = self.entries;
        let mut out: Vec<FileSet> = Vec::new();
        let ghost mut k = 0int;
        proof {
            assert(buckets_flat(whole.take(0)) =~= Seq::<
                (u128, Seq<(Option<u64>, Seq<Seq<char>>)>),
            >::empty());
            assert(Seq::new(out@.len(), |i: int| (out@[i].key(), out@[i].members())) =~= Seq::<
                (u128, Seq<(Option<u64>, Seq<Seq<char>>)>),
            >::empty());
        }
        while entries.len() > 0
            invariant
                0 <= k <= whole.len(),
                entries@ == whole.skip(k),
                Seq::new(out@.len(), |i: int| (out@[i].key(), out@[i].members())) == buckets_flat(
                    whole.take(k),
                ),
            decreases whole.len() - k,
        {
            let ghost out0 = Seq::new(out@.len(), |i: int| (out@[i].key(), out@[i].members()));
            let entry = entries.remove(0);
            proof {
                assert(entries@ =~= whole.skip(k + 1));
                assert(entry == whole[k]);
            }
            let mut sets = entry.1.sets;
            let ghost bview = whole[k].1.sets_view();
            let ghost mut j = 0int;
            proof {
                assert(sets@ == whole[k].1.sets@);
                assert(Seq::new(sets@.len(), |t: int| (sets@[t].key(), sets@[t].members()))
                    =~= bview.skip(0));
                assert(out0 + bview.take(0) =~= out0);
            }
            while sets.len() > 0
                invariant
                    0 <= j <= bview.len(),
                    Seq::new(sets@.len(), |t: int| (sets@[t].key(), sets@[t].members()))
                        == bview.skip(j),
                    Seq::new(out@.len(), |i: int| (out@[i].key(), out@[i].members())) == out0
                        + bview.take(j),
                decreases bview.len() - j,
            {
                let ghost sets0 = sets@;
                let ghost smap0 = Seq::new(sets0.len(), |t: int| (sets0[t].key(), sets0[t].members()));
                let s = sets.remove(0);
                proof {
                    assert(smap0.len() == sets0.len());
                    assert(sets0.len() > 0);
                    assert(smap0 =~= bview.skip(j));
                    assert(j < bview.len());
                    assert((s.key(), s.members()) == smap0[0]);
                    assert(smap0[0] == bview.skip(j)[0]);
                    assert(bview.skip(j)[0] == bview[j]);
                    assert forall|t: int| 0 <= t < sets@.len() implies (
                        sets@[t].key(),
                        sets@[t].members(),
                    ) == bview.skip(j + 1)[t] by {
                        assert(sets@[t] == sets0[t + 1]);
                        assert((sets0[t + 1].key(), sets0[t + 1].members()) == smap0[t + 1]);
                        assert(smap0[t + 1] == bview.skip(j)[t + 1]);
                        assert(bview.skip(j)[t + 1] == bview[j + 1 + t]);
                        assert(bview.skip(j + 1)[t] == bview[j + 1 + t]);
                    }
                    assert(Seq::new(sets@.len(), |t: int| (sets@[t].key(), sets@[t].members()))
                        =~= bview.skip(j + 1));
                }
                let ghost outprev = out@;
                let ghost outmap0 = Seq::new(
                    outprev.len(),
                    |i: int| (outprev[i].key(), outprev[i].members()),
                );
                out.push(s);
                proof {
                    assert(outmap0 =~= out0 + bview.take(j));
                    assert(outmap0.len() == outprev.len());
                    assert(outprev.len() == out0.len() + j);
                    assert forall|i: int| 0 <= i < out@.len() implies (
                        out@[i].key(),
                        out@[i].members(),
                    ) == (out0 + bview.take(j + 1))[i] by {
                        if i < outprev.len() {
                            assert(out@[i] == outprev[i]);
                            assert((outprev[i].key(), outprev[i].members()) == outmap0[i]);
                            assert(outmap0[i] == (out0 + bview.take(j))[i]);
                            if i < out0.len() {
                                assert((out0 + bview.take(j))[i] == out0[i]);
                                assert((out0 + bview.take(j + 1))[i] == out0[i]);
                            } else {
                                assert((out0 + bview.take(j))[i] == bview.take(j)[i - out0.len()]);
                                assert(bview.take(j)[i - out0.len()] == bview[i - out0.len()]);
                                assert((out0 + bview.take(j + 1))[i] == bview.take(j + 1)[i
                                    - out0.len()]);
                            }
                        } else {
                            assert(out@[i] == s);
                            assert(i == out0.len() + j);
                            assert((out0 + bview.take(j + 1))[i] == bview.take(j + 1)[j]);
                            assert(bview.take(j + 1)[j] == bview[j]);
                        }
                    }
                    assert(Seq::new(out@.len(), |i: int| (out@[i].key(), out@[i].members())) =~= out0
                        + bview.take(j + 1));
                    j = j + 1;
                }
            }
            proof {
                assert(bview.take(bview.len() as int) =~= bview);
                assert(whole.take(k + 1).drop_last() =~= whole.take(k));
                assert(whole.take(k + 1).last() == whole[k]);
                k = k + 1;
            }
        }
        proof {
            assert(whole.take(whole.len() as int) =~= whole);
        }
        out
    }
}

/// The sets of a run of buckets, flattened in order.
pub open spec fn buckets_flat(s: Seq<(u128, CourseBucket)>) -> Seq<
    (u128, Seq<(Option<u64>, Seq<Seq<char>>)>),
>
    decreases s.len(),
{
    if s.len() == 0 {
        Seq::empty()
    } else {
        buckets_flat(s.drop_last()) + s.last().1.sets_view()
    }
}

/// Whether `r` is an equivalence over file records.
pub open spec fn is_equivalence(
    r: spec_fn((Option<u64>, Seq<Seq<char>>), (Option<u64>, Seq<Seq<char>>)) -> bool,
) -> bool {
    &&& forall|a: (Option<u64>, Seq<Seq<char>>)| #[trigger] r(a, a)
    &&& forall|a: (Option<u64>, Seq<Seq<char>>), b: (Option<u64>, Seq<Seq<char>>)|
        #[trigger] r(a, b) ==> r(b, a)
    &&& forall|
        a: (Option<u64>, Seq<Seq<char>>),
        b: (Option<u64>, Seq<Seq<char>>),
        c: (Option<u64>, Seq<Seq<char>>),
    |
        #[trigger] r(a, b) && #[trigger] r(b, c) ==> r(a, c)
}

/// Whether every two members of `s` are related under `r`.
pub open spec fn pairwise_related(
    r: spec_fn((Option<u64>, Seq<Seq<char>>), (Option<u64>, Seq<Seq<char>>)) -> bool,
    s: Seq<(Option<u64>, Seq<Seq<char>>)>,
) -> bool {
    forall|i: int, j: int| 0 <= i < s.len() && 0 <= j < s.len() ==> #[trigger] r(s[i], s[j])
}

/// Set transitivity: under any equivalence (such as byte-wise equality
/// checked by the refiner chain), a set that admits a file only after a
/// positive check against its current head stays pairwise related — so
/// every member of an emitted set is related to the set's first element,
/// whichever heads were dropped along the way.
pub proof fn lemma_set_transitivity(
    r: spec_fn((Option<u64>, Seq<Seq<char>>), (Option<u64>, Seq<Seq<char>>)) -> bool,
    s: Seq<(Option<u64>, Seq<Seq<char>>)>,
    f: (Option<u64>, Seq<Seq<char>>),
)
    requires
        is_equivalence(r),
        pairwise_related(r, s),
        s.len() > 0,
        r(s[0], f),
    ensures
        pairwise_related(r, s.push(f)),
        forall|i: int| 0 <= i < s.push(f).len() ==> #[trigger] r(s.push(f)[0], s.push(f)[i]),
{
    let s2 = s.push(f);
    assert forall|i: int, j: int| 0 <= i < s2.len() && 0 <= j < s2.len() implies #[trigger] r(
        s2[i],
        s2[j],
    ) by {
        if i < s.len() && j < s.len() {
            assert(r(s[i], s[j]));
        } else if i < s.len() && j == s.len() {
            assert(r(s[i], s[0]));
            assert(r(s[0], f));
            assert(r(s[i], f));
        } else if i == s.len() && j < s.len() {
            assert(r(s[0], f));
            assert(r(f, s[0]));
            assert(r(s[0], s[j]));
            assert(r(f, s[j]));
        } else {
            assert(r(s[0], f));
            assert(r(f, s[0]));
            assert(r(f, f));
        }
    }
}

/// Dropping a faulty head keeps the remaining set pairwise related.
pub proof fn lemma_behead_keeps_relation(
    r: spec_fn((Option<u64>, Seq<Seq<char>>), (Option<u64>, Seq<Seq<char>>)) -> bool,
    s: Seq<(Option<u64>, Seq<Seq<char>>)>,
)
    requires
        pairwise_related(r, s),
        s.len() > 0,
    ensures
        pairwise_related(r, s.skip(1)),
{
    let s2 = s.skip(1);
    assert forall|i: int, j: int| 0 <= i < s2.len() && 0 <= j < s2.len() implies #[trigger] r(
        s2[i],
        s2[j],
    ) by {
        assert(s2[i] == s[i + 1]);
        assert(s2[j] == s[j + 1]);
        assert(r(s[i + 1], s[j + 1]));
    }
}

/// No cross-bucket equality: one placement step rewrites at most the
/// bucket of its own composite digest, so files with distinct composite
/// digests can never end up in one set.
pub proof fn lemma_no_cross_bucket(
    m1: Map<u128, Seq<(u128, Seq<(Option<u64>, Seq<Seq<char>>)>)>>,
    m2: Map<u128, Seq<(u128, Seq<(Option<u64>, Seq<Seq<char>>)>)>>,
    c: u128,
    b: Seq<(u128, Seq<(Option<u64>, Seq<Seq<char>>)>)>,
)
    requires
        m2 == m1.insert(c, b),
    ensures
        forall|c2: u128|
            c2 != c && m1.dom().contains(c2) ==> m2.dom().contains(c2) && m2[c2] == m1[c2],
{
}

} // verus!
