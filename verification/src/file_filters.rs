//! Name and metadata filters over candidate files.
//!
//! Name filters look only at the path segments; metadata filters look at
//! a metadata snapshot and run only when the name filters passed. A
//! filter that cannot decide reports an error, which the filter stack
//! treats as "drop the file".

use vstd::prelude::*;
use crate::file_meta::FileMeta;

verus! {

/// Only files larger than the bound pass.
#[derive(Clone)]
pub struct MinSizeFileFilter {
    min: u64,
}

impl MinSizeFileFilter {
    /// The bound: kept files are strictly larger.
    pub closed spec fn bound(&self) -> u64 {
        self.min
    }

    pub fn new(min: u64) -> (r: Self)
        ensures
            r.bound() == min,
    {
        MinSizeFileFilter { min }
    }

    /// Keeps files strictly larger than the bound.
    pub fn filter_file_metadata(&self, meta: &FileMeta) -> (r: Result<bool, ()>)
        ensures
            r == Ok::<bool, ()>(meta.len > self.bound()),
    {
        Ok(meta.len > self.min)
    }
}

/// Only files smaller than the bound pass.
#[derive(Clone)]
pub struct MaxSizeFileFilter {
    max: u64,
}

impl MaxSizeFileFilter {
    /// The bound: kept files are strictly smaller.
    pub closed spec fn bound(&self) -> u64 {
        self.max
    }

    pub fn new(max: u64) -> (r: Self)
        ensures
            r.bound() == max,
    {
        MaxSizeFileFilter { max }
    }

    /// Keeps files strictly smaller than the bound.
    pub fn filter_file_metadata(&self, meta: &FileMeta) -> (r: Result<bool, ()>)
        ensures
            r == Ok::<bool, ()>(meta.len < self.bound()),
    {
        Ok(meta.len < self.max)
    }
}

/// Drops files whose platform attribute bits meet the mask.
#[derive(Clone)]
pub struct FileAttributeFilter {
    mask: u32,
}

impl FileAttributeFilter {
    /// The mask: kept files share no bit with it.
    pub closed spec fn masked(&self) -> u32 {
        self.mask
    }

    pub fn new(mask: u32) -> (r: Self)
        ensures
            r.masked() == mask,
    {
        FileAttributeFilter { mask }
    }

    /// Keeps files whose attributes share no bit with the mask.
    pub fn filter_file_metadata(&self, meta: &FileMeta) -> (r: Result<bool, ()>)
        ensures
            r == Ok::<bool, ()>(meta.attributes & self.masked() == 0),
    {
        Ok(meta.attributes & self.mask == 0)
    }
}

/// The position of the last `.` in a file name.
pub open spec fn rfind_dot(name: Seq<char>) -> Option<int>
    decreases name.len(),
{
    if name.len() == 0 {
        None
    } else if name.last() == '.' {
        Some(name.len() - 1)
    } else {
        rfind_dot(name.drop_last())
    }
}

/// The extension of a file name: what follows the last `.`, provided
/// something precedes that dot.
pub open spec fn extension_of(name: Seq<char>) -> Option<Seq<char>> {
    match rfind_dot(name) {
        Some(i) => if i > 0 {
            Some(name.skip(i + 1))
        } else {
            None
        },
        None => None,
    }
}

/// Computes the extension of the path's last segment.
fn extension_segment(name: &str) -> (r: Option<&str>)
    ensures
        match r {
            Some(e) => extension_of(name@) == Some(e@),
            None => extension_of(name@) is None,
        },
{
    let n = name.unicode_len();
    let mut i: usize = n;
    proof {
        assert(name@.take(n as int) =~= name@);
    }
    while i > 0
        invariant
            i <= n,
            n == name@.len(),
            rfind_dot(name@) == rfind_dot(name@.take(i as int)),
        decreases i,
    {
        proof {
            assert(name@.take(i as int).last() == name@[i - 1]);
            assert(name@.take(i as int).drop_last() =~= name@.take(i as int - 1));
        }
        if name.get_char(i - 1) == '.' {
            if i - 1 > 0 {
                let e = name.substring_char(i, n);
                return Some(e);
            } else {
                return None;
            }
        }
        i = i - 1;
    }
    proof {
        assert(name@.take(0).len() == 0);
    }
    None
}

/// Whether some value in the list reads `v`.
pub open spec fn some_value_is(values: Seq<String>, v: Seq<char>) -> bool {
    exists|i: int| 0 <= i < values.len() && (#[trigger] values[i])@ == v
}

/// Collects an extension list from the command line: `~` stands for
/// "no extension", everything else is listed once: every listed
/// extension was given, no `~` is listed, and every given extension is
/// listed.
pub fn gather_extensions(values: &Vec<String>) -> (r: (Vec<String>, bool))
    ensures
        ({
            let (exts, no_ext) = r;
            &&& no_ext == some_value_is(values@, "~"@)
            &&& forall|k: int|
                0 <= k < exts@.len() ==> some_value_is(values@, (#[trigger] exts@[k])@)
            &&& forall|k: int| 0 <= k < exts@.len() ==> (#[trigger] exts@[k])@ != "~"@
            &&& forall|i: int|
                0 <= i < values@.len() && (#[trigger] values@[i])@ != "~"@ ==> some_value_is(
                    exts@,
                    values@[i]@,
                )
        }),
{
    let mut exts: Vec<String> = Vec::new();
    let mut no_ext = false;
    let n = values.len();
    let mut i: usize = 0;
    while i < n
        invariant
            i <= n,
            n == values@.len(),
            no_ext == some_value_is(values@.take(i as int), "~"@),
            forall|k: int|
                0 <= k < exts@.len() ==> some_value_is(values@, (#[trigger] exts@[k])@),
            forall|k: int| 0 <= k < exts@.len() ==> (#[trigger] exts@[k])@ != "~"@,
            forall|j: int|
                0 <= j < i && (#[trigger] values@[j])@ != "~"@ ==> some_value_is(
                    exts@,
                    values@[j]@,
                ),
        decreases n - i,
    {
        let ghost prefix = values@.take(i as int);
        let ghost prefix2 = values@.take(i as int + 1);
        proof {
            assert(prefix2.drop_last() =~= prefix);
            assert(prefix2.last() == values@[i as int]);
        }
        if crate::util::str_equal(values[i].as_str(), "~") {
            proof {
                assert(prefix2[i as int]@ == "~"@);
                assert(some_value_is(prefix2, "~"@));
            }
            no_ext = true;
        } else {
            proof {
                if some_value_is(prefix, "~"@) {
                    let w = choose|w: int| 0 <= w < prefix.len() && (#[trigger] prefix[w])@ == "~"@;
                    assert(prefix2[w]@ == "~"@);
                    assert(some_value_is(prefix2, "~"@));
                }
                if some_value_is(prefix2, "~"@) {
                    let w = choose|w: int|
                        0 <= w < prefix2.len() && (#[trigger] prefix2[w])@ == "~"@;
                    assert(w < prefix.len());
                    assert(prefix[w]@ == "~"@);
                    assert(some_value_is(prefix, "~"@));
                }
            }
            let mut present = false;
            let m = exts.len();
            let mut k: usize = 0;
            while k < m
                invariant
                    k <= m,
                    m == exts@.len(),
                    i < values@.len(),
                    present ==> some_value_is(exts@, values@[i as int]@),
                decreases m - k,
            {
                if crate::util::str_equal(exts[k].as_str(), values[i].as_str()) {
                    proof {
                        assert((exts@[k as int])@ == values@[i as int]@);
                        assert(some_value_is(exts@, values@[i as int]@));
                    }
                    present = true;
                }
                k = k + 1;
            }
            if !present {
                let ghost before = exts@;
                exts.push(values[i].clone());
                proof {
                    assert(forall|k: int|
                        0 <= k < before.len() ==> (#[trigger] exts@[k]) == before[k]);
                    assert((exts@[exts@.len() - 1])@ == (values@[i as int])@);
                    assert(some_value_is(values@, (exts@[exts@.len() - 1])@));
                    assert forall|j: int|
                        0 <= j < i + 1 && (#[trigger] values@[j])@ != "~"@ implies some_value_is(
                        exts@,
                        values@[j]@,
                    ) by {
                        if j < i {
                            assert(some_value_is(before, values@[j]@));
                            let w = choose|w: int|
                                0 <= w < before.len() && (#[trigger] before[w])@ == values@[j]@;
                            assert((exts@[w])@ == values@[j]@);
                        } else {
                            assert((exts@[exts@.len() - 1])@ == values@[j]@);
                        }
                    }
                }
            }
        }
        i = i + 1;
    }
    proof {
        assert(values@.take(n as int) =~= values@);
    }
    (exts, no_ext)
}

/// Keeps or drops files by the extension of their name: the listed
/// extensions form a whitelist when `positive`, otherwise a blacklist;
/// the flag decides how a file without extension counts.
#[derive(Clone)]
pub struct ExtensionFilter {
    extensions: Vec<String>,
    no_ext_in_set: bool,
    positive: bool,
}

impl ExtensionFilter {
    /// The listed extensions.
    pub closed spec fn listed(&self) -> Seq<Seq<char>> {
        Seq::new(self.extensions@.len(), |i: int| self.extensions@[i]@)
    }

    /// Whether a file without extension counts as listed.
    pub closed spec fn counts_no_ext(&self) -> bool {
        self.no_ext_in_set
    }

    /// Whether the list is a whitelist.
    pub closed spec fn is_whitelist(&self) -> bool {
        self.positive
    }

    pub fn new(extensions: Vec<String>, no_extension_in_set: bool, positive: bool) -> (r: Self)
        ensures
            r.listed() == Seq::new(extensions@.len(), |i: int| extensions@[i]@),
            r.counts_no_ext() == no_extension_in_set,
            r.is_whitelist() == positive,
    {
        ExtensionFilter { extensions, no_ext_in_set: no_extension_in_set, positive }
    }

    /// Whether the file counts as listed under this filter.
    pub open spec fn matches_spec(&self, name: Seq<char>) -> bool {
        match extension_of(name) {
            Some(e) => exists|i: int| 0 <= i < self.listed().len() && self.listed()[i] == e,
            None => self.counts_no_ext(),
        }
    }

    /// Keeps the file when it is listed and the list is a whitelist, or
    /// unlisted and the list is a blacklist. The name checked is the
    /// path's last segment; an empty path counts as having no extension.
    pub fn filter_file_name(&self, segments: &Vec<String>) -> (r: Result<bool, ()>)
        ensures
            ({
                let name: Seq<char> = if segments@.len() > 0 {
                    segments@.last()@
                } else {
                    Seq::empty()
                };
                r == Ok::<bool, ()>(self.matches_spec(name) == self.is_whitelist())
            }),
    {
        let ext: Option<&str> = if segments.len() > 0 {
            extension_segment(segments[segments.len() - 1].as_str())
        } else {
            proof {
                assert(rfind_dot(Seq::<char>::empty()) is None);
            }
            None
        };
        let listed = match ext {
            None => self.no_ext_in_set,
            Some(e) => {
                let mut found = false;
                let m = self.extensions.len();
                let mut k: usize = 0;
                while k < m && !found
                    invariant
                        k <= m,
                        m == self.listed().len(),
                        found ==> exists|i: int|
                            0 <= i < self.listed().len() && self.listed()[i] == e@,
                        !found ==> forall|i: int| 0 <= i < k ==> self.listed()[i] != e@,
                    decreases m - k,
                {
                    if crate::util::str_equal(self.extensions[k].as_str(), e) {
                        proof {
                            assert(self.listed()[k as int] == e@);
                        }
                        found = true;
                    }
                    k = k + 1;
                }
                found
            },
        };
        Ok(listed == self.positive)
    }
}

/// One level of the blacklist tree: a segment either blocks everything
/// below it or leads to a deeper level.
pub struct PathFilterTree {
    entries: Vec<(String, Option<PathFilterTree>)>,
}

/// The value filed under a segment, first match.
spec fn lookup_entry(
    s: Seq<(String, Option<PathFilterTree>)>,
    key: Seq<char>,
) -> Option<Option<PathFilterTree>>
    decreases s.len(),
{
    if s.len() == 0 {
        None
    } else if s[0].0@ == key {
        Some(s[0].1)
    } else {
        lookup_entry(s.skip(1), key)
    }
}

/// Whether the tree blocks this path: some blocked node lies on it.
spec fn blocks(t: PathFilterTree, path: Seq<Seq<char>>) -> bool
    decreases path.len(),
{
    if path.len() == 0 {
        false
    } else {
        match lookup_entry(t.entries@, path[0]) {
            None => false,
            Some(None) => true,
            Some(Some(sub)) => blocks(sub, path.skip(1)),
        }
    }
}

/// Whether `q` is a segment-wise prefix of `p`.
pub open spec fn is_path_prefix(q: Seq<Seq<char>>, p: Seq<Seq<char>>) -> bool {
    q.len() <= p.len() && forall|k: int| 0 <= k < q.len() ==> q[k] == p[k]
}

proof fn lemma_lookup_at(s: Seq<(String, Option<PathFilterTree>)>, key: Seq<char>, k: int)
    requires
        0 <= k < s.len(),
        s[k].0@ == key,
        forall|j: int| 0 <= j < k ==> (#[trigger] s[j]).0@ != key,
    ensures
        lookup_entry(s, key) == Some(s[k].1),
    decreases k,
{
    if k > 0 {
        let t = s.skip(1);
        assert(forall|j: int| 0 <= j < k - 1 ==> (#[trigger] t[j]).0@ != key);
        assert(t[k - 1] == s[k]);
        lemma_lookup_at(t, key, k - 1);
    }
}

proof fn lemma_lookup_none(s: Seq<(String, Option<PathFilterTree>)>, key: Seq<char>)
    requires
        forall|j: int| 0 <= j < s.len() ==> (#[trigger] s[j]).0@ != key,
    ensures
        lookup_entry(s, key) is None,
    decreases s.len(),
{
    if s.len() > 0 {
        let t = s.skip(1);
        assert(forall|j: int| 0 <= j < t.len() ==> (#[trigger] t[j]).0@ != key);
        lemma_lookup_none(t, key);
    }
}

proof fn lemma_lookup_update(
    s: Seq<(String, Option<PathFilterTree>)>,
    k: int,
    e: (String, Option<PathFilterTree>),
    key2: Seq<char>,
)
    requires
        0 <= k < s.len(),
        e.0@ == s[k].0@,
        key2 != s[k].0@,
    ensures
        lookup_entry(s.update(k, e), key2) == lookup_entry(s, key2),
    decreases k,
{
    let s2 = s.update(k, e);
    if s.len() > 0 {
        if k == 0 {
            assert(s2[0] == e);
            assert(s2.skip(1) =~= s.skip(1));
        } else {
            assert(s2[0] == s[0]);
            if s[0].0@ == key2 {
            } else {
                assert(s2.skip(1) =~= s.skip(1).update(k - 1, e));
                assert(s.skip(1)[k - 1] == s[k]);
                lemma_lookup_update(s.skip(1), k - 1, e, key2);
            }
        }
    }
}

proof fn lemma_lookup_push(
    s: Seq<(String, Option<PathFilterTree>)>,
    e: (String, Option<PathFilterTree>),
    key: Seq<char>,
)
    requires
        forall|j: int| 0 <= j < s.len() ==> (#[trigger] s[j]).0@ != e.0@,
    ensures
        lookup_entry(s.push(e), key) == (if key == e.0@ {
            Some(e.1)
        } else {
            lookup_entry(s, key)
        }),
    decreases s.len(),
{
    let s2 = s.push(e);
    if s.len() == 0 {
        assert(s2[0] == e);
        assert(s2.skip(1) =~= Seq::<(String, Option<PathFilterTree>)>::empty());
        if key != e.0@ {
            assert(lookup_entry(s2, key) == lookup_entry(s2.skip(1), key));
        }
    } else {
        assert(s2[0] == s[0]);
        assert((s[0]).0@ != e.0@);
        if s[0].0@ == key {
            assert(key != e.0@);
            assert(lookup_entry(s2, key) == Some(s[0].1));
        } else {
            assert(s2.skip(1) =~= s.skip(1).push(e));
            assert(forall|j: int| 0 <= j < s.skip(1).len() ==> (#[trigger] s.skip(1)[j]).0@ != e.0@);
            lemma_lookup_push(s.skip(1), e, key);
        }
    }
}

fn find_key(entries: &Vec<(String, Option<PathFilterTree>)>, key: &String) -> (r: Option<usize>)
    ensures
        match r {
            Some(k) => k < entries@.len() && entries@[k as int].0@ == key@ && forall|j: int|
                0 <= j < k ==> (#[trigger] entries@[j]).0@ != key@,
            None => forall|j: int|
                0 <= j < entries@.len() ==> (#[trigger] entries@[j]).0@ != key@,
        },
{
    let n = entries.len();
    let mut i: usize = 0;
    while i < n
        invariant
            i <= n,
            n == entries@.len(),
            forall|j: int| 0 <= j < i ==> (#[trigger] entries@[j]).0@ != key@,
        decreases n - i,
    {
        if crate::util::str_equal(entries[i].0.as_str(), key.as_str()) {
            return Some(i);
        }
        i = i + 1;
    }
    None
}

/// Files under a fresh tree are never blocked.
proof fn lemma_fresh_tree_blocks_nothing(t: PathFilterTree, p: Seq<Seq<char>>)
    requires
        t.entries@.len() == 0,
    ensures
        !blocks(t, p),
{
    if p.len() > 0 {
    }
}

/// Marks the path from segment `i` on as blocked under `t`.
fn insert_blocked(t: &mut PathFilterTree, path: &Vec<String>, i: usize)
    requires
        i < path@.len(),
    ensures
        forall|p: Seq<Seq<char>>|
            #[trigger] blocks(*final(t), p) == (blocks(*old(t), p) || is_path_prefix(
                path.deep_view().skip(i as int),
                p,
            )),
    decreases path@.len() - i,
{
    let ghost t0 = *t;
    let ghost q = path.deep_view().skip(i as int);
    proof {
        assert(q[0] == path.deep_view()[i as int]);
        assert(path.deep_view()[i as int] == path@[i as int]@);
        assert(q.len() >= 1);
    }
    let found = find_key(&t.entries, &path[i]);
    if i == path.len() - 1 {
        match found {
            Some(k) => {
                let ghost before = t.entries@;
                let e = t.entries.remove(k);
                t.entries.insert(k, (e.0, None));
                proof {
                    assert(t.entries@ =~= before.update(k as int, (before[k as int].0, None)));
                    assert forall|p: Seq<Seq<char>>|
                        #[trigger] blocks(*t, p) == (blocks(t0, p) || is_path_prefix(q, p)) by {
                        if p.len() == 0 {
                        } else if p[0] == q[0] {
                            lemma_lookup_at(t.entries@, p[0], k as int);
                            assert(is_path_prefix(q, p));
                        } else {
                            lemma_lookup_update(
                                before,
                                k as int,
                                (before[k as int].0, None),
                                p[0],
                            );
                        }
                    }
                }
            },
            None => {
                let ghost before = t.entries@;
                t.entries.push((path[i].clone(), None));
                proof {
                    let e = t.entries@.last();
                    assert(t.entries@ =~= before.push(e));
                    assert(e.0@ == q[0]);
                    assert forall|p: Seq<Seq<char>>|
                        #[trigger] blocks(*t, p) == (blocks(t0, p) || is_path_prefix(q, p)) by {
                        if p.len() == 0 {
                        } else {
                            lemma_lookup_push(before, e, p[0]);
                            if p[0] == q[0] {
                                lemma_lookup_none(before, p[0]);
                                assert(is_path_prefix(q, p));
                            }
                        }
                    }
                }
            },
        }
    } else {
        proof {
            assert(q.skip(1) =~= path.deep_view().skip(i as int + 1));
        }
        match found {
            Some(k) => {
                let ghost before = t.entries@;
                let e = t.entries.remove(k);
                match e.1 {
                    None => {
                        t.entries.insert(k, (e.0, None));
                        proof {
                            assert(t.entries@ =~= before);
                            assert forall|p: Seq<Seq<char>>|
                                #[trigger] blocks(*t, p) == (blocks(t0, p) || is_path_prefix(
                                    q,
                                    p,
                                )) by {
                                if p.len() > 0 && p[0] == q[0] {
                                    lemma_lookup_at(before, p[0], k as int);
                                }
                            }
                        }
                    },
                    Some(mut sub) => {
                        let ghost sub0 = sub;
                        insert_blocked(&mut sub, path, i + 1);
                        t.entries.insert(k, (e.0, Some(sub)));
                        proof {
                            assert(t.entries@ =~= before.update(
                                k as int,
                                (before[k as int].0, Some(sub)),
                            ));
                            assert forall|p: Seq<Seq<char>>|
                                #[trigger] blocks(*t, p) == (blocks(t0, p) || is_path_prefix(
                                    q,
                                    p,
                                )) by {
                                if p.len() == 0 {
                                } else if p[0] == q[0] {
                                    lemma_lookup_at(before, p[0], k as int);
                                    lemma_lookup_at(t.entries@, p[0], k as int);
                                    assert(blocks(*t, p) == blocks(sub, p.skip(1)));
                                    assert(blocks(t0, p) == blocks(sub0, p.skip(1)));
                                    assert(blocks(sub, p.skip(1)) == (blocks(sub0, p.skip(1))
                                        || is_path_prefix(q.skip(1), p.skip(1))));
                                    assert(is_path_prefix(q, p) == is_path_prefix(
                                        q.skip(1),
                                        p.skip(1),
                                    )) by {
                                        if is_path_prefix(q.skip(1), p.skip(1)) {
                                            assert forall|m: int| 0 <= m < q.len() implies q[m]
                                                == p[m] by {
                                                if m > 0 {
                                                    assert(q.skip(1)[m - 1] == p.skip(1)[m - 1]);
                                                }
                                            }
                                        }
                                        if is_path_prefix(q, p) {
                                            assert forall|m: int|
                                                0 <= m < q.skip(1).len() implies q.skip(1)[m]
                                                == p.skip(1)[m] by {
                                                assert(q[m + 1] == p[m + 1]);
                                            }
                                        }
                                    }
                                } else {
                                    lemma_lookup_update(
                                        before,
                                        k as int,
                                        (before[k as int].0, Some(sub)),
                                        p[0],
                                    );
                                }
                            }
                        }
                    },
                }
            },
            None => {
                let ghost before = t.entries@;
                let mut sub = PathFilterTree { entries: Vec::new() };
                let ghost fresh = sub;
                insert_blocked(&mut sub, path, i + 1);
                t.entries.push((path[i].clone(), Some(sub)));
                proof {
                    let e = t.entries@.last();
                    assert(t.entries@ =~= before.push(e));
                    assert(e.0@ == q[0]);
                    assert(e.1 == Some(sub));
                    assert forall|p: Seq<Seq<char>>|
                        #[trigger] blocks(*t, p) == (blocks(t0, p) || is_path_prefix(q, p)) by {
                        if p.len() == 0 {
                        } else {
                            lemma_lookup_push(before, e, p[0]);
                            if p[0] == q[0] {
                                lemma_lookup_none(before, p[0]);
                                lemma_fresh_tree_blocks_nothing(fresh, p.skip(1));
                                assert(blocks(*t, p) == blocks(sub, p.skip(1)));
                                assert(blocks(sub, p.skip(1)) == (blocks(fresh, p.skip(1))
                                    || is_path_prefix(q.skip(1), p.skip(1))));
                                assert(is_path_prefix(q, p) == is_path_prefix(
                                    q.skip(1),
                                    p.skip(1),
                                )) by {
                                    if is_path_prefix(q.skip(1), p.skip(1)) {
                                        assert forall|m: int| 0 <= m < q.len() implies q[m]
                                            == p[m] by {
                                            if m > 0 {
                                                assert(q.skip(1)[m - 1] == p.skip(1)[m - 1]);
                                            }
                                        }
                                    }
                                    if is_path_prefix(q, p) {
                                        assert forall|m: int|
                                            0 <= m < q.skip(1).len() implies q.skip(1)[m]
                                            == p.skip(1)[m] by {
                                            assert(q[m + 1] == p[m + 1]);
                                        }
                                    }
                                }
                            }
                        }
                    }
                }
            },
        }
    }
}

/// Drops every file lying under one of the blacklisted path prefixes.
pub struct PathFilter {
    root: PathFilterTree,
}

impl PathFilter {
    /// Whether the blacklist covers this path.
    pub closed spec fn blocked_by(&self, p: Seq<Seq<char>>) -> bool {
        blocks(self.root, p)
    }

    /// Builds the blacklist tree: a path is blocked exactly when one of
    /// the given non-empty prefixes covers it.
    pub fn new(paths: &Vec<Vec<String>>) -> (r: Self)
        ensures
            forall|p: Seq<Seq<char>>|
                #[trigger] r.blocked_by(p) == exists|i: int|
                    0 <= i < paths.deep_view().len() && paths.deep_view()[i].len() > 0
                        && is_path_prefix(paths.deep_view()[i], p),
    {
        let mut root = PathFilterTree { entries: Vec::new() };
        let n = paths.len();
        let mut j: usize = 0;
        proof {
            assert forall|p: Seq<Seq<char>>| !blocks(root, p) by {
                lemma_fresh_tree_blocks_nothing(root, p);
            }
        }
        while j < n
            invariant
                j <= n,
                n == paths.deep_view().len(),
                n == paths@.len(),
                forall|p: Seq<Seq<char>>|
                    #[trigger] blocks(root, p) == exists|i: int|
                        0 <= i < j && paths.deep_view()[i].len() > 0 && is_path_prefix(
                            paths.deep_view()[i],
                            p,
                        ),
            decreases n - j,
        {
            let ghost before = root;
            if paths[j].len() > 0 {
                proof {
                    assert(paths.deep_view()[j as int] == paths@[j as int].deep_view());
                    assert(paths@[j as int].deep_view().skip(0) =~= paths.deep_view()[j as int]);
                }
                insert_blocked(&mut root, &paths[j], 0);
            }
            proof {
                assert forall|p: Seq<Seq<char>>|
                    #[trigger] blocks(root, p) == exists|i: int|
                        0 <= i < j + 1 && paths.deep_view()[i].len() > 0 && is_path_prefix(
                            paths.deep_view()[i],
                            p,
                        ) by {
                    if blocks(root, p) {
                        if blocks(before, p) {
                            let w = choose|i: int|
                                0 <= i < j && paths.deep_view()[i].len() > 0 && is_path_prefix(
                                    paths.deep_view()[i],
                                    p,
                                );
                            assert(0 <= w < j + 1 && paths.deep_view()[w].len() > 0
                                && is_path_prefix(paths.deep_view()[w], p));
                        } else {
                            assert(paths.deep_view()[j as int].len() > 0 && is_path_prefix(
                                paths.deep_view()[j as int],
                                p,
                            ));
                        }
                    }
                    if exists|i: int|
                        0 <= i < j + 1 && paths.deep_view()[i].len() > 0 && is_path_prefix(
                            paths.deep_view()[i],
                            p,
                        ) {
                        let w = choose|i: int|
                            0 <= i < j + 1 && paths.deep_view()[i].len() > 0 && is_path_prefix(
                                paths.deep_view()[i],
                                p,
                            );
                        if w < j {
                            assert(blocks(before, p));
                        }
                        assert(blocks(root, p));
                    }
                }
            }
            j = j + 1;
        }
        PathFilter { root }
    }

    /// Keeps the file exactly when no blacklisted prefix covers its
    /// path.
    pub fn filter_file_name(&self, segments: &Vec<String>) -> (r: Result<bool, ()>)
        ensures
            r == Ok::<bool, ()>(!self.blocked_by(segments.deep_view())),
    {
        let ghost whole = segments.deep_view();
        let mut cur: &PathFilterTree = &self.root;
        let n = segments.len();
        let mut i: usize = 0;
        proof {
            assert(whole.skip(0) =~= whole);
        }
        while i < n
            invariant
                i <= n,
                n == whole.len(),
                n == segments@.len(),
                whole == segments.deep_view(),
                blocks(self.root, whole) == blocks(*cur, whole.skip(i as int)),
            decreases n - i,
        {
            proof {
                assert(whole.skip(i as int)[0] == whole[i as int]);
                assert(whole[i as int] == segments@[i as int].deep_view());
                assert(segments@[i as int].deep_view() == segments@[i as int]@);
                assert(whole.skip(i as int).skip(1) =~= whole.skip(i as int + 1));
            }
            let found = find_key(&cur.entries, &segments[i]);
            match found {
                None => {
                    proof {
                        lemma_lookup_none(cur.entries@, whole[i as int]);
                        assert(!blocks(*cur, whole.skip(i as int)));
                    }
                    return Ok(true);
                },
                Some(k) => {
                    proof {
                        lemma_lookup_at(cur.entries@, whole[i as int], k as int);
                    }
                    match &cur.entries[k].1 {
                        None => {
                            proof {
                                assert(cur.entries@[k as int].1 is None);
                                assert(blocks(*cur, whole.skip(i as int)));
                            }
                            return Ok(false);
                        },
                        Some(sub) => {
                            proof {
                                assert(cur.entries@[k as int].1 == Some(*sub));
                                assert(blocks(*cur, whole.skip(i as int)) == blocks(
                                    *sub,
                                    whole.skip(i as int + 1),
                                ));
                            }
                            cur = sub;
                        },
                    }
                },
            }
            i = i + 1;
        }
        proof {
            assert(whole.skip(n as int).len() == 0);
        }
        Ok(true)
    }
}

/// Drops files with a segment that starts with a dot.
#[derive(Clone)]
pub struct HiddenFileFilter {}

impl HiddenFileFilter {
    pub fn new() -> (r: Self) {
        HiddenFileFilter {  }
    }

    /// Keeps the file only when no segment of its path is hidden.
    pub fn filter_file_name(&self, segments: &Vec<String>) -> (r: Result<bool, ()>)
        ensures
            r == Ok::<bool, ()>(
                forall|i: int|
                    0 <= i < segments.deep_view().len() ==> ((
                    #[trigger] segments.deep_view()[i]).len() == 0 || segments.deep_view()[i][0]
                        != '.'),
            ),
{
        let n = segments.len();
        let mut i: usize = 0;
        while i < n
            invariant
                i <= n,
                n == segments@.len(),
                forall|j: int|
                    0 <= j < i ==> ((#[trigger] segments@[j])@.len() == 0 || segments@[j]@[0]
                        != '.'),
            decreases n - i,
        {
            let s = &segments[i];
            if s.as_str().unicode_len() > 0 && s.as_str().get_char(0) == '.' {
                proof {
                    assert(segments.deep_view()[i as int] == segments@[i as int]@);
                    assert(segments.deep_view()[i as int].len() > 0);
                    assert(segments.deep_view()[i as int][0] == '.');
                }
                return Ok(false);
            }
            i = i + 1;
        }
        proof {
            assert forall|j: int| 0 <= j < segments.deep_view().len() implies ((
            #[trigger] segments.deep_view()[j]).len() == 0 || segments.deep_view()[j][0]
                != '.') by {
                assert(segments.deep_view()[j] == segments@[j]@);
            }
        }
        Ok(true)
    }
}


/// One configured name filter.
pub enum FileNameFilterKind {
    Extension(ExtensionFilter),
    Path(PathFilter),
    Hidden(HiddenFileFilter),
}

impl FileNameFilterKind {
    /// Whether this filter keeps a file with these path segments.
    pub open spec fn passes(&self, segs: Seq<Seq<char>>) -> bool {
        match self {
            FileNameFilterKind::Extension(f) => f.matches_spec(
                if segs.len() > 0 {
                    segs.last()
                } else {
                    Seq::empty()
                },
            ) == f.is_whitelist(),
            FileNameFilterKind::Path(f) => !f.blocked_by(segs),
            FileNameFilterKind::Hidden(_) => forall|i: int|
                0 <= i < segs.len() ==> ((#[trigger] segs[i]).len() == 0 || segs[i][0] != '.'),
        }
    }

    /// Runs the filter on the file's path segments.
    pub fn filter_file_name(&self, segments: &Vec<String>) -> (r: Result<bool, ()>)
        ensures
            r == Ok::<bool, ()>(self.passes(segments.deep_view())),
    {
        match self {
            FileNameFilterKind::Extension(f) => {
                proof {
                    if segments@.len() > 0 {
                        assert(segments.deep_view().last() == segments@.last()@);
                    }
                }
                f.filter_file_name(segments)
            },
            FileNameFilterKind::Path(f) => f.filter_file_name(segments),
            FileNameFilterKind::Hidden(f) => {
                proof {
                    assert forall|i: int| 0 <= i < segments@.len() implies (
                        #[trigger] segments.deep_view()[i]) == segments@[i]@ by {}
                }
                f.filter_file_name(segments)
            },
        }
    }
}

/// One configured metadata filter.
#[derive(Clone)]
pub enum FileMetadataFilterKind {
    MinSize(MinSizeFileFilter),
    MaxSize(MaxSizeFileFilter),
    Attributes(FileAttributeFilter),
}

impl FileMetadataFilterKind {
    /// Whether this filter keeps a file with this metadata.
    pub open spec fn passes(&self, meta: FileMeta) -> bool {
        match self {
            FileMetadataFilterKind::MinSize(f) => meta.len > f.bound(),
            FileMetadataFilterKind::MaxSize(f) => meta.len < f.bound(),
            FileMetadataFilterKind::Attributes(f) => meta.attributes & f.masked() == 0,
        }
    }

    /// Runs the filter on the file's metadata snapshot.
    pub fn filter_file_metadata(&self, meta: &FileMeta) -> (r: Result<bool, ()>)
        ensures
            r == Ok::<bool, ()>(self.passes(*meta)),
    {
        match self {
            FileMetadataFilterKind::MinSize(f) => f.filter_file_metadata(meta),
            FileMetadataFilterKind::MaxSize(f) => f.filter_file_metadata(meta),
            FileMetadataFilterKind::Attributes(f) => f.filter_file_metadata(meta),
        }
    }
}

/// The configured filter stack: name filters first, metadata filters
/// only when the name filters passed.
pub struct FileFilter(pub Vec<FileNameFilterKind>, pub Vec<FileMetadataFilterKind>);

impl FileFilter {
    /// Whether every name filter keeps the file.
    pub open spec fn name_passes(&self, segs: Seq<Seq<char>>) -> bool {
        forall|i: int| 0 <= i < self.0@.len() ==> (#[trigger] self.0@[i]).passes(segs)
    }

    /// Whether every metadata filter keeps the file.
    pub open spec fn metadata_passes(&self, meta: FileMeta) -> bool {
        forall|i: int| 0 <= i < self.1@.len() ==> (#[trigger] self.1@[i]).passes(meta)
    }

    /// Runs the name filters.
    pub fn filter_name(&self, segments: &Vec<String>) -> (r: bool)
        ensures
            r == self.name_passes(segments.deep_view()),
    {
        let n = self.0.len();
        let mut i: usize = 0;
        while i < n
            invariant
                i <= n,
                n == self.0@.len(),
                forall|j: int| 0 <= j < i ==> (#[trigger] self.0@[j]).passes(segments.deep_view()),
            decreases n - i,
        {
            let keep = match self.0[i].filter_file_name(segments) {
                Ok(keep) => keep,
                Err(()) => false,
            };
            if !keep {
                return false;
            }
            i = i + 1;
        }
        true
    }

    /// Whether any metadata filter is configured, so that the caller
    /// knows to fetch metadata at all.
    pub fn needs_metadata(&self) -> (r: bool)
        ensures
            r == (self.1@.len() > 0),
    {
        self.1.len() > 0
    }

    /// Runs the whole stack with the metadata already fetched.
    pub fn keep_file_md(&self, segments: &Vec<String>, meta: &FileMeta) -> (r: bool)
        ensures
            r == (self.name_passes(segments.deep_view()) && self.metadata_passes(*meta)),
    {
        if !self.filter_name(segments) {
            return false;
        }
        let n = self.1.len();
        let mut i: usize = 0;
        while i < n
            invariant
                i <= n,
                n == self.1@.len(),
                self.name_passes(segments.deep_view()),
                forall|j: int| 0 <= j < i ==> (#[trigger] self.1@[j]).passes(*meta),
            decreases n - i,
        {
            let keep = match self.1[i].filter_file_metadata(meta) {
                Ok(keep) => keep,
                Err(()) => false,
            };
            if !keep {
                return false;
            }
            i = i + 1;
        }
        true
    }
}

} // verus!
