//! Orderings over duplicate sets.
//!
//! After draining, each set is sorted by a stack of orderings; the first
//! element of the final order is the original. Metadata-driven orderings
//! read their keys from snapshots the caller fetched at ordering time; a
//! file whose metadata cannot be read is dropped from the set, and a key
//! the platform cannot provide aborts the ordering.

use vstd::prelude::*;
use crate::error_handling::AlreadyReportedError;
use crate::grouping::HashedFile;
use crate::sorting::SortKey;
use crate::sorting::sort_spec;
use crate::sorting::stable_sort;

verus! {

/// A metadata key fetched for one file at ordering time.
#[derive(Clone, Copy)]
pub enum KeyFetch {
    /// The file's metadata could not be read; the file leaves the set.
    Missing,
    /// The platform does not provide this key; the ordering fails.
    Unsupported,
    /// The key's value.
    At(u64),
}

/// A file with the numeric key it is ordered by, ascending.
pub struct KeyedFile {
    pub key: u64,
    pub file: HashedFile,
}

impl SortKey for KeyedFile {
    open spec fn le_spec(&self, other: &Self) -> bool {
        self.key <= other.key
    }

    proof fn lemma_total(a: &Self, b: &Self) {
    }

    proof fn lemma_trans(a: &Self, b: &Self, c: &Self) {
    }

    fn le(&self, other: &Self) -> (r: bool) {
        self.key <= other.key
    }
}

/// A file with the numeric key it is ordered by, descending.
pub struct RevKeyedFile {
    pub key: u64,
    pub file: HashedFile,
}

impl SortKey for RevKeyedFile {
    open spec fn le_spec(&self, other: &Self) -> bool {
        other.key <= self.key
    }

    proof fn lemma_total(a: &Self, b: &Self) {
    }

    proof fn lemma_trans(a: &Self, b: &Self, c: &Self) {
    }

    fn le(&self, other: &Self) -> (r: bool) {
        other.key <= self.key
    }
}

/// Whether some key could not be provided by the platform.
pub open spec fn has_unsupported(keys: Seq<KeyFetch>) -> bool {
    exists|i: int| 0 <= i < keys.len() && keys[i] is Unsupported
}

/// The files that keep a key, paired with it, in order.
pub open spec fn kept_keyed(files: Seq<HashedFile>, keys: Seq<KeyFetch>) -> Seq<KeyedFile>
    decreases files.len(),
{
    if files.len() == 0 {
        Seq::empty()
    } else {
        let rest = kept_keyed(files.drop_last(), keys.drop_last());
        match keys.last() {
            KeyFetch::At(k) => rest.push(KeyedFile { key: k, file: files.last() }),
            _ => rest,
        }
    }
}

/// The same pairing for the descending order.
pub open spec fn kept_keyed_rev(files: Seq<HashedFile>, keys: Seq<KeyFetch>) -> Seq<RevKeyedFile>
    decreases files.len(),
{
    if files.len() == 0 {
        Seq::empty()
    } else {
        let rest = kept_keyed_rev(files.drop_last(), keys.drop_last());
        match keys.last() {
            KeyFetch::At(k) => rest.push(RevKeyedFile { key: k, file: files.last() }),
            _ => rest,
        }
    }
}

/// The files of a keyed sequence, keys dropped.
pub open spec fn strip_keyed(s: Seq<KeyedFile>) -> Seq<HashedFile> {
    Seq::new(s.len(), |i: int| s[i].file)
}

/// The files of a descending keyed sequence, keys dropped.
pub open spec fn strip_keyed_rev(s: Seq<RevKeyedFile>) -> Seq<HashedFile> {
    Seq::new(s.len(), |i: int| s[i].file)
}

/// What ordering `files` by `keys` ascending leaves in the set.
pub open spec fn ordered_by_keys(files: Seq<HashedFile>, keys: Seq<KeyFetch>) -> Seq<HashedFile> {
    strip_keyed(sort_spec(kept_keyed(files, keys)))
}

/// What ordering `files` by `keys` descending leaves in the set.
pub open spec fn ordered_by_keys_rev(files: Seq<HashedFile>, keys: Seq<KeyFetch>) -> Seq<
    HashedFile,
> {
    strip_keyed_rev(sort_spec(kept_keyed_rev(files, keys)))
}

fn gather_keyed(files: &mut Vec<HashedFile>, keys: &Vec<KeyFetch>) -> (r: Result<
    Vec<KeyedFile>,
    AlreadyReportedError,
>)
    requires
        keys@.len() == old(files)@.len(),
    ensures
        final(files)@.len() == 0,
        match r {
            Ok(pairs) => !has_unsupported(keys@) && pairs@ == kept_keyed(old(files)@, keys@),
            Err(_) => has_unsupported(keys@),
        },
{
    let ghost files0 = old(files)@;
    let n = keys.len();
    let mut pairs: Vec<KeyedFile> = Vec::new();
    let mut i: usize = 0;
    proof {
        assert(pairs@ =~= kept_keyed(files0.take(0), keys@.take(0)));
    }
    while i < n
        invariant
            i <= n,
            n == keys@.len() == files0.len(),
            files@ =~= files0.skip(i as int),
            pairs@ == kept_keyed(files0.take(i as int), keys@.take(i as int)),
            forall|j: int| 0 <= j < i ==> !((#[trigger] keys@[j]) is Unsupported),
        decreases n - i,
    {
        let f = files.remove(0);
        proof {
            assert(f == files0[i as int]);
            assert(files@ =~= files0.skip(i as int + 1));
            assert(files0.take(i as int + 1).drop_last() =~= files0.take(i as int));
            assert(keys@.take(i as int + 1).drop_last() =~= keys@.take(i as int));
            assert(files0.take(i as int + 1).last() == files0[i as int]);
            assert(keys@.take(i as int + 1).last() == keys@[i as int]);
        }
        match keys[i] {
            KeyFetch::Missing => {},
            KeyFetch::Unsupported => {
                files.clear();
                return Err(AlreadyReportedError);
            },
            KeyFetch::At(k) => {
                pairs.push(KeyedFile { key: k, file: f });
            },
        }
        i = i + 1;
    }
    proof {
        assert(files0.take(n as int) =~= files0);
        assert(keys@.take(n as int) =~= keys@);
        assert(files@.len() == 0);
        if has_unsupported(keys@) {
            let w = choose|w: int| 0 <= w < keys@.len() && keys@[w] is Unsupported;
            assert(false);
        }
    }
    Ok(pairs)
}

fn gather_keyed_rev(files: &mut Vec<HashedFile>, keys: &Vec<KeyFetch>) -> (r: Result<
    Vec<RevKeyedFile>,
    AlreadyReportedError,
>)
    requires
        keys@.len() == old(files)@.len(),
    ensures
        final(files)@.len() == 0,
        match r {
            Ok(pairs) => !has_unsupported(keys@) && pairs@ == kept_keyed_rev(old(files)@, keys@),
            Err(_) => has_unsupported(keys@),
        },
{
    let ghost files0 = old(files)@;
    let n = keys.len();
    let mut pairs: Vec<RevKeyedFile> = Vec::new();
    let mut i: usize = 0;
    proof {
        assert(pairs@ =~= kept_keyed_rev(files0.take(0), keys@.take(0)));
    }
    while i < n
        invariant
            i <= n,
            n == keys@.len() == files0.len(),
            files@ =~= files0.skip(i as int),
            pairs@ == kept_keyed_rev(files0.take(i as int), keys@.take(i as int)),
            forall|j: int| 0 <= j < i ==> !((#[trigger] keys@[j]) is Unsupported),
        decreases n - i,
    {
        let f = files.remove(0);
        proof {
            assert(f == files0[i as int]);
            assert(files@ =~= files0.skip(i as int + 1));
            assert(files0.take(i as int + 1).drop_last() =~= files0.take(i as int));
            assert(keys@.take(i as int + 1).drop_last() =~= keys@.take(i as int));
            assert(files0.take(i as int + 1).last() == files0[i as int]);
            assert(keys@.take(i as int + 1).last() == keys@[i as int]);
        }
        match keys[i] {
            KeyFetch::Missing => {},
            KeyFetch::Unsupported => {
                files.clear();
                return Err(AlreadyReportedError);
            },
            KeyFetch::At(k) => {
                pairs.push(RevKeyedFile { key: k, file: f });
            },
        }
        i = i + 1;
    }
    proof {
        assert(files0.take(n as int) =~= files0);
        assert(keys@.take(n as int) =~= keys@);
        if has_unsupported(keys@) {
            let w = choose|w: int| 0 <= w < keys@.len() && keys@[w] is Unsupported;
            assert(false);
        }
    }
    Ok(pairs)
}

/// Orders the files by the fetched keys, ascending when `reverse` is
/// false and descending when it is true, stably either way. A file
/// without metadata leaves the set; an unsupported key empties it and
/// reports the failure.
pub fn order_by_keys(
    files: &mut Vec<HashedFile>,
    keys: &Vec<KeyFetch>,
    reverse: bool,
) -> (r: Result<(), AlreadyReportedError>)
    requires
        keys@.len() == old(files)@.len(),
    ensures
        match r {
            Ok(_) => !has_unsupported(keys@) && final(files)@ == (if reverse {
                ordered_by_keys_rev(old(files)@, keys@)
            } else {
                ordered_by_keys(old(files)@, keys@)
            }),
            Err(_) => has_unsupported(keys@) && final(files)@.len() == 0,
        },
{
    if reverse {
        let pairs = match gather_keyed_rev(files, keys) {
            Ok(pairs) => pairs,
            Err(e) => {
                return Err(e);
            },
        };
        let mut sorted = stable_sort(pairs);
        let ghost sortedv = sorted@;
        let total = sorted.len();
        let mut j: usize = 0;
        while sorted.len() > 0
            invariant
                total == sortedv.len(),
                j <= total,
                j == sortedv.len() - sorted@.len(),
                sorted@ =~= sortedv.skip(j as int),
                files@ =~= strip_keyed_rev(sortedv).take(j as int),
            decreases sorted@.len(),
        {
            let p = sorted.remove(0);
            proof {
                assert(p == sortedv[j as int]);
                assert(sorted@ =~= sortedv.skip(j as int + 1));
            }
            files.push(p.file);
            proof {
                assert(files@ =~= strip_keyed_rev(sortedv).take(j as int + 1));
            }
            j = j + 1;
        }
        proof {
            assert(strip_keyed_rev(sortedv).take(sortedv.len() as int) =~= strip_keyed_rev(
                sortedv,
            ));
        }
        Ok(())
    } else {
        let pairs = match gather_keyed(files, keys) {
            Ok(pairs) => pairs,
            Err(e) => {
                return Err(e);
            },
        };
        let mut sorted = stable_sort(pairs);
        let ghost sortedv = sorted@;
        let total = sorted.len();
        let mut j: usize = 0;
        while sorted.len() > 0
            invariant
                total == sortedv.len(),
                j <= total,
                j == sortedv.len() - sorted@.len(),
                sorted@ =~= sortedv.skip(j as int),
                files@ =~= strip_keyed(sortedv).take(j as int),
            decreases sorted@.len(),
        {
            let p = sorted.remove(0);
            proof {
                assert(p == sortedv[j as int]);
                assert(sorted@ =~= sortedv.skip(j as int + 1));
            }
            files.push(p.file);
            proof {
                assert(files@ =~= strip_keyed(sortedv).take(j as int + 1));
            }
            j = j + 1;
        }
        proof {
            assert(strip_keyed(sortedv).take(sortedv.len() as int) =~= strip_keyed(sortedv));
        }
        Ok(())
    }
}

/// Orders by modification time: least recently modified first, or the
/// reverse.
pub struct ModTimeSetOrder {
    reverse: bool,
}

impl ModTimeSetOrder {
    /// Whether the order is most-recent-first.
    pub closed spec fn is_reverse(&self) -> bool {
        self.reverse
    }

    pub fn new(reverse: bool) -> (r: Self)
        ensures
            r.is_reverse() == reverse,
    {
        ModTimeSetOrder { reverse }
    }

    /// Orders the set by the fetched modification times.
    pub fn order(&self, files: &mut Vec<HashedFile>, keys: &Vec<KeyFetch>) -> (r: Result<
        (),
        AlreadyReportedError,
    >)
        requires
            keys@.len() == old(files)@.len(),
        ensures
            match r {
                Ok(_) => !has_unsupported(keys@) && final(files)@ == (if self.is_reverse() {
                    ordered_by_keys_rev(old(files)@, keys@)
                } else {
                    ordered_by_keys(old(files)@, keys@)
                }),
                Err(_) => has_unsupported(keys@) && final(files)@.len() == 0,
            },
    {
        order_by_keys(files, keys, self.reverse)
    }
}

/// Orders by creation time: oldest first, or the reverse.
pub struct CreateTimeSetOrder {
    reverse: bool,
}

impl CreateTimeSetOrder {
    /// Whether the order is newest-first.
    pub closed spec fn is_reverse(&self) -> bool {
        self.reverse
    }

    pub fn new(reverse: bool) -> (r: Self)
        ensures
            r.is_reverse() == reverse,
    {
        CreateTimeSetOrder { reverse }
    }

    /// Orders the set by the fetched creation times.
    pub fn order(&self, files: &mut Vec<HashedFile>, keys: &Vec<KeyFetch>) -> (r: Result<
        (),
        AlreadyReportedError,
    >)
        requires
            keys@.len() == old(files)@.len(),
        ensures
            match r {
                Ok(_) => !has_unsupported(keys@) && final(files)@ == (if self.is_reverse() {
                    ordered_by_keys_rev(old(files)@, keys@)
                } else {
                    ordered_by_keys(old(files)@, keys@)
                }),
                Err(_) => has_unsupported(keys@) && final(files)@.len() == 0,
            },
    {
        order_by_keys(files, keys, self.reverse)
    }
}

/// Orders non-symlinks before symlinks, so a real file stands as the
/// original. The caller fetches `0` for a regular file and `1` for a
/// symlink.
pub struct SymlinkSetOrder {
    reverse: bool,
}

impl SymlinkSetOrder {
    pub closed spec fn is_reverse(&self) -> bool {
        self.reverse
    }

    pub fn new() -> (r: Self)
        ensures
            !r.is_reverse(),
    {
        SymlinkSetOrder { reverse: false }
    }

    /// Orders the set by the fetched symlink flags.
    pub fn order(&self, files: &mut Vec<HashedFile>, keys: &Vec<KeyFetch>) -> (r: Result<
        (),
        AlreadyReportedError,
    >)
        requires
            keys@.len() == old(files)@.len(),
        ensures
            match r {
                Ok(_) => !has_unsupported(keys@) && final(files)@ == (if self.is_reverse() {
                    ordered_by_keys_rev(old(files)@, keys@)
                } else {
                    ordered_by_keys(old(files)@, keys@)
                }),
                Err(_) => has_unsupported(keys@) && final(files)@.len() == 0,
            },
    {
        order_by_keys(files, keys, self.reverse)
    }
}

/// Leaves the set as it is.
pub struct NoopSetOrder {}

impl NoopSetOrder {
    pub fn new() -> (r: Self) {
        NoopSetOrder {  }
    }

    /// Changes nothing.
    pub fn order(&self, files: &mut Vec<HashedFile>) -> (r: Result<(), AlreadyReportedError>)
        ensures
            r is Ok,
            final(files)@ == old(files)@,
    {
        Ok(())
    }
}

/// Ordering an already ordered run of keyed files changes nothing, so
/// with a fixed ordering and fixed keys the orderings are idempotent and
/// their result does not depend on how the run was assembled.
pub proof fn lemma_order_idempotent(pairs: Seq<KeyedFile>)
    ensures
        sort_spec(sort_spec(pairs)) == sort_spec(pairs),
{
    crate::sorting::lemma_sort_idempotent(pairs);
}

/// The keys an ordered set would fetch again under fixed metadata: each
/// file's own key, all present.
pub open spec fn keys_after(files: Seq<HashedFile>, keys: Seq<KeyFetch>) -> Seq<KeyFetch> {
    Seq::new(
        sort_spec(kept_keyed(files, keys)).len(),
        |i: int| KeyFetch::At(sort_spec(kept_keyed(files, keys))[i].key),
    )
}

proof fn lemma_rekey(s: Seq<KeyedFile>)
    ensures
        kept_keyed(
            strip_keyed(s),
            Seq::new(s.len(), |i: int| KeyFetch::At(s[i].key)),
        ) == s,
    decreases s.len(),
{
    let files = strip_keyed(s);
    let keys = Seq::new(s.len(), |i: int| KeyFetch::At(s[i].key));
    if s.len() == 0 {
        assert(kept_keyed(files, keys) =~= s);
    } else {
        let dl = s.drop_last();
        lemma_rekey(dl);
        assert(files.drop_last() =~= strip_keyed(dl));
        assert(keys.drop_last() =~= Seq::new(dl.len(), |i: int| KeyFetch::At(dl[i].key)));
        assert(keys.last() == KeyFetch::At(s.last().key));
        assert(files.last() == s.last().file);
        assert(kept_keyed(files, keys) == kept_keyed(
            strip_keyed(dl),
            Seq::new(dl.len(), |i: int| KeyFetch::At(dl[i].key)),
        ).push(KeyedFile { key: s.last().key, file: s.last().file }));
        assert(KeyedFile { key: s.last().key, file: s.last().file } == s.last());
        assert(dl.push(s.last()) =~= s);
    }
}

/// Ordering a set that was just ordered, under fixed metadata, returns
/// it unchanged: `order(order(X)) == order(X)`.
pub proof fn lemma_order_fixed_point(files: Seq<HashedFile>, keys: Seq<KeyFetch>)
    ensures
        ordered_by_keys(ordered_by_keys(files, keys), keys_after(files, keys)) == ordered_by_keys(
            files,
            keys,
        ),
{
    let s = sort_spec(kept_keyed(files, keys));
    crate::sorting::lemma_sort_sorted(kept_keyed(files, keys));
    lemma_rekey(s);
    assert(keys_after(files, keys) =~= Seq::new(s.len(), |i: int| KeyFetch::At(s[i].key)));
    crate::sorting::lemma_sort_of_sorted(s);
}

/// Lexicographic order over character sequences, by code point.
pub open spec fn lex_le(a: Seq<char>, b: Seq<char>) -> bool
    decreases a.len(),
{
    if a.len() == 0 {
        true
    } else if b.len() == 0 {
        false
    } else if (a[0] as u32) < (b[0] as u32) {
        true
    } else if (a[0] as u32) > (b[0] as u32) {
        false
    } else {
        lex_le(a.skip(1), b.skip(1))
    }
}

pub proof fn lemma_lex_total(a: Seq<char>, b: Seq<char>)
    ensures
        lex_le(a, b) || lex_le(b, a),
    decreases a.len(),
{
    if a.len() > 0 && b.len() > 0 && a[0] as u32 == b[0] as u32 {
        lemma_lex_total(a.skip(1), b.skip(1));
    }
}

pub proof fn lemma_lex_trans(a: Seq<char>, b: Seq<char>, c: Seq<char>)
    requires
        lex_le(a, b),
        lex_le(b, c),
    ensures
        lex_le(a, c),
    decreases a.len(),
{
    if a.len() == 0 {
    } else {
        assert(b.len() > 0);
        assert(c.len() > 0);
        if a[0] as u32 == b[0] as u32 && b[0] as u32 == c[0] as u32 {
            lemma_lex_trans(a.skip(1), b.skip(1), c.skip(1));
        }
    }
}

/// A file with the materialised name it is ordered by, ascending.
pub struct NamedFile {
    pub name: String,
    pub file: HashedFile,
}

impl SortKey for NamedFile {
    open spec fn le_spec(&self, other: &Self) -> bool {
        lex_le(self.name@, other.name@)
    }

    proof fn lemma_total(a: &Self, b: &Self) {
        lemma_lex_total(a.name@, b.name@);
    }

    proof fn lemma_trans(a: &Self, b: &Self, c: &Self) {
        lemma_lex_trans(a.name@, b.name@, c.name@);
    }

    fn le(&self, other: &Self) -> (r: bool) {
        str_lex_le(self.name.as_str(), other.name.as_str())
    }
}

/// A file with the materialised name it is ordered by, descending.
pub struct RevNamedFile {
    pub name: String,
    pub file: HashedFile,
}

impl SortKey for RevNamedFile {
    open spec fn le_spec(&self, other: &Self) -> bool {
        lex_le(other.name@, self.name@)
    }

    proof fn lemma_total(a: &Self, b: &Self) {
        lemma_lex_total(a.name@, b.name@);
    }

    proof fn lemma_trans(a: &Self, b: &Self, c: &Self) {
        lemma_lex_trans(c.name@, b.name@, a.name@);
    }

    fn le(&self, other: &Self) -> (r: bool) {
        str_lex_le(other.name.as_str(), self.name.as_str())
    }
}

/// Decides the lexicographic order of two texts.
fn str_lex_le(a: &str, b: &str) -> (r: bool)
    ensures
        r == lex_le(a@, b@),
{
    let na = a.unicode_len();
    let nb = b.unicode_len();
    let mut i: usize = 0;
    proof {
        assert(a@.skip(0) =~= a@);
        assert(b@.skip(0) =~= b@);
    }
    while i < na && i < nb
        invariant
            i <= na,
            i <= nb,
            na == a@.len(),
            nb == b@.len(),
            lex_le(a@, b@) == lex_le(a@.skip(i as int), b@.skip(i as int)),
        decreases na - i,
    {
        let ca = a.get_char(i);
        let cb = b.get_char(i);
        proof {
            assert(a@.skip(i as int)[0] == a@[i as int]);
            assert(b@.skip(i as int)[0] == b@[i as int]);
            assert(a@.skip(i as int).skip(1) =~= a@.skip(i as int + 1));
            assert(b@.skip(i as int).skip(1) =~= b@.skip(i as int + 1));
        }
        if (ca as u32) < (cb as u32) {
            return true;
        }
        if (ca as u32) > (cb as u32) {
            return false;
        }
        i = i + 1;
    }
    proof {
        if i >= na {
            assert(a@.skip(i as int).len() == 0);
        } else {
            assert(b@.skip(i as int).len() == 0);
            assert(a@.skip(i as int).len() > 0);
        }
    }
    i >= na
}

/// The files paired with the names they sort by, ascending.
pub open spec fn named_pairs(files: Seq<HashedFile>, names: Seq<String>) -> Seq<NamedFile>
    decreases files.len(),
{
    if files.len() == 0 {
        Seq::empty()
    } else {
        named_pairs(files.drop_last(), names.drop_last()).push(
            NamedFile { name: names.last(), file: files.last() },
        )
    }
}

/// The files paired with the names they sort by, descending.
pub open spec fn named_pairs_rev(files: Seq<HashedFile>, names: Seq<String>) -> Seq<RevNamedFile>
    decreases files.len(),
{
    if files.len() == 0 {
        Seq::empty()
    } else {
        named_pairs_rev(files.drop_last(), names.drop_last()).push(
            RevNamedFile { name: names.last(), file: files.last() },
        )
    }
}

/// The files of a named sequence, names dropped.
pub open spec fn strip_named(s: Seq<NamedFile>) -> Seq<HashedFile> {
    Seq::new(s.len(), |i: int| s[i].file)
}

/// The files of a descending named sequence, names dropped.
pub open spec fn strip_named_rev(s: Seq<RevNamedFile>) -> Seq<HashedFile> {
    Seq::new(s.len(), |i: int| s[i].file)
}

/// Orders files alphabetically by their materialised path text: a
/// stable sort by the names the caller materialised, ascending or
/// descending.
pub struct NameAlphabeticSetOrder {
    reverse: bool,
}

impl NameAlphabeticSetOrder {
    /// Whether the order is descending.
    pub closed spec fn is_reverse(&self) -> bool {
        self.reverse
    }

    pub fn new(reverse: bool) -> (r: Self)
        ensures
            r.is_reverse() == reverse,
    {
        NameAlphabeticSetOrder { reverse }
    }

    /// Orders the set by the given path names; the names belong to the
    /// files position by position.
    pub fn order(&self, files: &mut Vec<HashedFile>, names: Vec<String>) -> (r: Result<
        (),
        AlreadyReportedError,
    >)
        requires
            names@.len() == old(files)@.len(),
        ensures
            r is Ok,
            final(files)@ == (if self.is_reverse() {
                strip_named_rev(sort_spec(named_pairs_rev(old(files)@, names@)))
            } else {
                strip_named(sort_spec(named_pairs(old(files)@, names@)))
            }),
    {
        let ghost files0 = old(files)@;
        let ghost names0 = names@;
        let mut names = names;
        if self.reverse {
            let mut pairs: Vec<RevNamedFile> = Vec::new();
            let n = names.len();
            let mut i: usize = 0;
            proof {
                assert(pairs@ =~= named_pairs_rev(files0.take(0), names0.take(0)));
            }
            while i < n
                invariant
                    i <= n,
                    n == names0.len() == files0.len(),
                    files@ =~= files0.skip(i as int),
                    names@ =~= names0.skip(i as int),
                    pairs@ == named_pairs_rev(files0.take(i as int), names0.take(i as int)),
                decreases n - i,
            {
                let f = files.remove(0);
                let name = names.remove(0);
                proof {
                    assert(f == files0[i as int]);
                    assert(name == names0[i as int]);
                    assert(files@ =~= files0.skip(i as int + 1));
                    assert(names@ =~= names0.skip(i as int + 1));
                    assert(files0.take(i as int + 1).drop_last() =~= files0.take(i as int));
                    assert(names0.take(i as int + 1).drop_last() =~= names0.take(i as int));
                    assert(files0.take(i as int + 1).last() == files0[i as int]);
                    assert(names0.take(i as int + 1).last() == names0[i as int]);
                }
                pairs.push(RevNamedFile { name, file: f });
                i = i + 1;
            }
            proof {
                assert(files0.take(n as int) =~= files0);
                assert(names0.take(n as int) =~= names0);
            }
            let mut sorted = stable_sort(pairs);
            let ghost sortedv = sorted@;
            let total = sorted.len();
            let mut j: usize = 0;
            while sorted.len() > 0
                invariant
                    total == sortedv.len(),
                    j <= total,
                    j == sortedv.len() - sorted@.len(),
                    sorted@ =~= sortedv.skip(j as int),
                    files@ =~= strip_named_rev(sortedv).take(j as int),
                decreases sorted@.len(),
            {
                let p = sorted.remove(0);
                proof {
                    assert(p == sortedv[j as int]);
                    assert(sorted@ =~= sortedv.skip(j as int + 1));
                }
                files.push(p.file);
                proof {
                    assert(files@ =~= strip_named_rev(sortedv).take(j as int + 1));
                }
                j = j + 1;
            }
            proof {
                assert(strip_named_rev(sortedv).take(sortedv.len() as int) =~= strip_named_rev(
                    sortedv,
                ));
            }
            Ok(())
        } else {
            let mut pairs: Vec<NamedFile> = Vec::new();
            let n = names.len();
            let mut i: usize = 0;
            proof {
                assert(pairs@ =~= named_pairs(files0.take(0), names0.take(0)));
            }
            while i < n
                invariant
                    i <= n,
                    n == names0.len() == files0.len(),
                    files@ =~= files0.skip(i as int),
                    names@ =~= names0.skip(i as int),
                    pairs@ == named_pairs(files0.take(i as int), names0.take(i as int)),
                decreases n - i,
            {
                let f = files.remove(0);
                let name = names.remove(0);
                proof {
                    assert(f == files0[i as int]);
                    assert(name == names0[i as int]);
                    assert(files@ =~= files0.skip(i as int + 1));
                    assert(names@ =~= names0.skip(i as int + 1));
                    assert(files0.take(i as int + 1).drop_last() =~= files0.take(i as int));
                    assert(names0.take(i as int + 1).drop_last() =~= names0.take(i as int));
                    assert(files0.take(i as int + 1).last() == files0[i as int]);
                    assert(names0.take(i as int + 1).last() == names0[i as int]);
                }
                pairs.push(NamedFile { name, file: f });
                i = i + 1;
            }
            proof {
                assert(files0.take(n as int) =~= files0);
                assert(names0.take(n as int) =~= names0);
            }
            let mut sorted = stable_sort(pairs);
            let ghost sortedv = sorted@;
            let total = sorted.len();
            let mut j: usize = 0;
            while sorted.len() > 0
                invariant
                    total == sortedv.len(),
                    j <= total,
                    j == sortedv.len() - sorted@.len(),
                    sorted@ =~= sortedv.skip(j as int),
                    files@ =~= strip_named(sortedv).take(j as int),
                decreases sorted@.len(),
            {
                let p = sorted.remove(0);
                proof {
                    assert(p == sortedv[j as int]);
                    assert(sorted@ =~= sortedv.skip(j as int + 1));
                }
                files.push(p.file);
                proof {
                    assert(files@ =~= strip_named(sortedv).take(j as int + 1));
                }
                j = j + 1;
            }
            proof {
                assert(strip_named(sortedv).take(sortedv.len() as int) =~= strip_named(sortedv));
            }
            Ok(())
        }
    }
}

} // verus!
