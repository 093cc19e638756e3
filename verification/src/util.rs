//! The shared path model.
//!
//! A path is a singly-linked list of segments; parents are shared, so a
//! directory walk keeps one copy of each directory prefix however many
//! files lie under it. The view of a path is its sequence of segments,
//! root first, so equality is structural over segments no matter how a
//! path was built.

use std::sync::Arc;
use vstd::prelude::*;

verus! {

/// A path segment with a shared reference to its parent.
pub struct LinkedPath {
    parent: Option<Arc<LinkedPath>>,
    segment: String,
}

impl LinkedPath {
    /// The segments of the path, root first.
    pub closed spec fn segments(&self) -> Seq<Seq<char>>
        decreases *self,
    {
        match &self.parent {
            Some(p) => (**p).segments().push(self.segment@),
            None => seq![self.segment@],
        }
    }
}

impl View for LinkedPath {
    type V = Seq<Seq<char>>;

    open spec fn view(&self) -> Seq<Seq<char>> {
        self.segments()
    }
}

/// Relies on `Arc::clone` of std: the clone is the same shared value.
#[verifier::external_body]
fn share_parent(p: &Arc<LinkedPath>) -> (r: Arc<LinkedPath>)
    ensures
        r == *p,
{
    p.clone()
}

impl LinkedPath {
    /// A one-segment path.
    pub fn root(dir: &str) -> (r: Arc<LinkedPath>)
        ensures
            r@ =~= seq![dir@],
    {
        Arc::new(LinkedPath { parent: None, segment: dir.to_owned() })
    }

    /// The path that extends `parent` by one segment.
    pub fn new_child(parent: &Arc<LinkedPath>, segment: String) -> (r: LinkedPath)
        ensures
            r@ == parent@.push(segment@),
    {
        LinkedPath { parent: Some(share_parent(parent)), segment }
    }

    /// Builds a path from materialised segments, root first.
    pub fn from_path_buf(segments: &Vec<String>) -> (r: Arc<LinkedPath>)
        requires
            segments@.len() >= 1,
        ensures
            r@ =~= segments.deep_view(),
    {
        Arc::new(Self::from_segments(segments))
    }

    /// Builds an owned path from materialised segments, root first.
    pub fn from_segments(segments: &Vec<String>) -> (r: LinkedPath)
        requires
            segments@.len() >= 1,
        ensures
            r@ =~= segments.deep_view(),
    {
        let mut path = LinkedPath { parent: None, segment: segments[0].clone() };
        let mut i: usize = 1;
        proof {
            assert(path@ =~= segments.deep_view().take(1));
        }
        while i < segments.len()
            invariant
                1 <= i <= segments@.len(),
                path@ == segments.deep_view().take(i as int),
            decreases segments@.len() - i,
        {
            path = LinkedPath {
                parent: Some(Arc::new(path)),
                segment: segments[i].clone(),
            };
            proof {
                assert(path@ =~= segments.deep_view().take(i as int + 1));
            }
            i = i + 1;
        }
        proof {
            assert(segments.deep_view().take(segments@.len() as int) =~= segments.deep_view());
        }
        path
    }

    fn push_full_to_buf(&self, buf: &mut Vec<String>)
        ensures
            final(buf).deep_view() == old(buf).deep_view() + self@,
        decreases *self,
    {
        match &self.parent {
            Some(p) => {
                proof {
                    assert(self.segments() == p.segments().push(self.segment@));
                }
                p.push_full_to_buf(buf);
                proof {
                    assert(buf.deep_view() == old(buf).deep_view() + p.segments());
                }
                let ghost mid = buf@;
                buf.push(self.segment.clone());
                proof {
                    assert(buf@ == mid.push(buf@[buf@.len() - 1]));
                    assert(buf@[buf@.len() - 1]@ == self.segment@);
                    assert forall|i: int| 0 <= i < buf@.len() implies buf.deep_view()[i] == (old(
                        buf,
                    ).deep_view() + self@)[i] by {
                        assert(buf.deep_view()[i] == buf@[i].deep_view());
                        if i < mid.len() {
                            assert(buf@[i] == mid[i]);
                            assert(mid[i].deep_view() == (old(buf).deep_view() + p.segments())[i]);
                        }
                    }
                    assert(buf.deep_view() =~= old(buf).deep_view() + self@);
                }
            },
            None => {
                buf.push(self.segment.clone());
                proof {
                    assert(buf.deep_view() =~= old(buf).deep_view() + self@);
                }
            },
        }
    }

    /// Materialises the segments into a reusable buffer.
    pub fn write_full_to_buf(&self, buf: &mut Vec<String>)
        ensures
            final(buf).deep_view() == self@,
    {
        buf.clear();
        self.push_full_to_buf(buf);
        proof {
            assert(Seq::<Seq<char>>::empty() + self@ =~= self@);
        }
    }

    /// Materialises the segments into a fresh buffer.
    pub fn to_push_buf(&self) -> (r: Vec<String>)
        ensures
            r.deep_view() == self@,
    {
        let mut buf: Vec<String> = Vec::new();
        self.write_full_to_buf(&mut buf);
        buf
    }
}

/// A path names at least its own segment.
pub proof fn lemma_segments_len(p: &LinkedPath)
    ensures
        p@.len() >= 1,
    decreases *p,
{
    match &p.parent {
        Some(q) => lemma_segments_len(&**q),
        None => {},
    }
}

proof fn lemma_push_injective(a: Seq<Seq<char>>, b: Seq<Seq<char>>, x: Seq<char>, y: Seq<char>)
    ensures
        (a.push(x) == b.push(y)) <==> (a == b && x == y),
{
    if a.push(x) == b.push(y) {
        assert(a.push(x).drop_last() =~= a);
        assert(b.push(y).drop_last() =~= b);
        assert(a.push(x).last() == x);
        assert(b.push(y).last() == y);
    }
    if a == b && x == y {
        assert(a.push(x) =~= b.push(y));
    }
}

impl PartialEq for LinkedPath {
    fn eq(&self, other: &Self) -> (r: bool)
        decreases *self,
    {
        let seg_eq = self.segment.eq(&other.segment);
        match (&self.parent, &other.parent) {
            (None, None) => {
                proof {
                    assert(self@ == seq![self.segment@]);
                    assert(other@ == seq![other.segment@]);
                    if seg_eq {
                        assert(seq![self.segment@] =~= seq![other.segment@]);
                    } else {
                        assert(seq![self.segment@][0] != seq![other.segment@][0]);
                    }
                    assert(seg_eq == (self@ == other@));
                }
                seg_eq
            },
            (Some(p), Some(q)) => {
                let par_eq = (**p).eq(&**q);
                proof {
                    lemma_push_injective(
                        (**p).segments(),
                        (**q).segments(),
                        self.segment@,
                        other.segment@,
                    );
                    assert(self@ == (**p).segments().push(self.segment@));
                    assert(other@ == (**q).segments().push(other.segment@));
                    assert((par_eq && seg_eq) == (self@ == other@));
                }
                par_eq && seg_eq
            },
            (None, Some(q)) => {
                proof {
                    lemma_segments_len(&**q);
                    assert(self@.len() == 1);
                    assert(other@.len() >= 2);
                    assert(self@ != other@);
                }
                false
            },
            (Some(p), None) => {
                proof {
                    lemma_segments_len(&**p);
                    assert(self@.len() >= 2);
                    assert(other@.len() == 1);
                    assert(self@ != other@);
                }
                false
            },
        }
    }
}

impl vstd::std_specs::cmp::PartialEqSpecImpl for LinkedPath {
    open spec fn obeys_eq_spec() -> bool {
        true
    }

    open spec fn eq_spec(&self, other: &LinkedPath) -> bool {
        self@ == other@
    }
}

/// The text of a materialised path: segments joined by `/`, with no
/// separator added after a segment that already ends in one.
pub open spec fn display_spec(segs: Seq<Seq<char>>) -> Seq<char>
    decreases segs.len(),
{
    if segs.len() == 0 {
        Seq::empty()
    } else {
        let prefix = display_spec(segs.drop_last());
        if prefix.len() == 0 || prefix.last() == '/' {
            prefix + segs.last()
        } else {
            prefix + seq!['/'] + segs.last()
        }
    }
}

/// Joins materialised segments into one path text.
pub fn display_path(segs: &Vec<String>) -> (r: String)
    ensures
        r@ == display_spec(segs.deep_view()),
{
    let mut out = String::new();
    let mut i: usize = 0;
    proof {
        assert(segs.deep_view().take(0) =~= Seq::<Seq<char>>::empty());
    }
    while i < segs.len()
        invariant
            i <= segs@.len(),
            out@ == display_spec(segs.deep_view().take(i as int)),
        decreases segs@.len() - i,
    {
        let n = out.unicode_len();
        if n > 0 && out.as_str().get_char(n - 1) != '/' {
            out.append("/");
            proof {
                reveal_strlit("/");
                assert("/"@ =~= seq!['/']);
            }
        }
        out.append(segs[i].as_str());
        proof {
            assert(segs.deep_view().take(i as int + 1).drop_last() =~= segs.deep_view().take(
                i as int,
            ));
            assert(segs.deep_view().take(i as int + 1).last() == segs.deep_view()[i as int]);
        }
        i = i + 1;
    }
    proof {
        assert(segs.deep_view().take(segs@.len() as int) =~= segs.deep_view());
    }
    out
}

/// Whether two texts are the same sequence of characters.
pub fn str_equal(a: &str, b: &str) -> (r: bool)
    ensures
        r == (a@ == b@),
{
    let n = a.unicode_len();
    let m = b.unicode_len();
    if n != m {
        return false;
    }
    let mut i: usize = 0;
    while i < n
        invariant
            i <= n,
            n == a@.len() == b@.len(),
            forall|j: int| 0 <= j < i ==> a@[j] == b@[j],
        decreases n - i,
    {
        if a.get_char(i) != b.get_char(i) {
            return false;
        }
        i = i + 1;
    }
    proof {
        assert(a@ =~= b@);
    }
    true
}

/// Whether the path text holds a comma.
pub open spec fn has_comma(s: Seq<char>) -> bool {
    exists|i: int| 0 <= i < s.len() && s[i] == ','
}

/// Whether a path's text contains a `,`, which the machine-readable
/// output formats cannot carry.
pub fn path_contains_comma(path: &str) -> (r: bool)
    ensures
        r == has_comma(path@),
{
    let n: usize = path.unicode_len();
    let mut i: usize = 0;
    while i < n
        invariant
            i <= n,
            n == path@.len(),
            forall|j: int| 0 <= j < i ==> path@[j] != ',',
        decreases n - i,
    {
        if path.get_char(i) == ',' {
            return true;
        }
        i = i + 1;
    }
    false
}

/// A sink for the paths that an input source discovers.
pub trait InputSink {
    /// The paths this sink has been handed, in order. A sink that does
    /// not say records nothing.
    open spec fn sunk(&self) -> Seq<Seq<Seq<char>>> {
        Seq::empty()
    }

    /// Hands one path to the sink.
    fn put(&mut self, path: LinkedPath)
        ensures
            final(self).sunk() == old(self).sunk().push(path@),
    ;
}

/// A sink that forwards each path to the wrapped sink at most once,
/// however often the sources emit it.
pub struct DedupingInputSink<S> {
    seen: Vec<LinkedPath>,
    inner: S,
    received: Ghost<Seq<Seq<Seq<char>>>>,
}

impl<S> DedupingInputSink<S> {
    /// The paths this sink has seen, in order of first arrival.
    pub closed spec fn seen_paths(&self) -> Seq<Seq<Seq<char>>> {
        Seq::new(self.seen@.len(), |i: int| self.seen@[i]@)
    }

    /// Records `path`; reports whether it was new.
    fn register(&mut self, path: &LinkedPath) -> (fresh: bool)
        ensures
            fresh == !old(self).seen_paths().contains(path@),
            final(self).seen_paths() == if fresh {
                old(self).seen_paths().push(path@)
            } else {
                old(self).seen_paths()
            },
            final(self).inner == old(self).inner,
            final(self).received == old(self).received,
    {
        let mut i: usize = 0;
        let n = self.seen.len();
        while i < n
            invariant
                i <= n,
                n == self.seen@.len(),
                forall|j: int| 0 <= j < i ==> self.seen_paths()[j] != path@,
            decreases n - i,
        {
            if self.seen[i].eq(path) {
                proof {
                    assert(self.seen_paths()[i as int] == path@);
                }
                return false;
            }
            i = i + 1;
        }
        proof {
            if self.seen_paths().contains(path@) {
                let k = choose|k: int|
                    0 <= k < self.seen_paths().len() && self.seen_paths()[k] == path@;
                assert(self.seen_paths()[k] != path@);
            }
        }
        let ghost before = self.seen_paths();
        self.seen.push(clone_path(path));
        proof {
            assert(self.seen_paths() =~= before.push(path@));
        }
        true
    }
}

impl<S: InputSink> DedupingInputSink<S> {
    /// The paths forwarded to the wrapped sink.
    pub closed spec fn forwarded(&self) -> Seq<Seq<Seq<char>>> {
        self.inner.sunk()
    }

    /// A sink over `inherit` that has seen nothing yet.
    pub fn new(inherit: S) -> (r: Self)
        ensures
            r.seen_paths() == Seq::<Seq<Seq<char>>>::empty(),
            r.sunk() == Seq::<Seq<Seq<char>>>::empty(),
            r.forwarded() == inherit.sunk(),
    {
        let r = DedupingInputSink { seen: Vec::new(), inner: inherit, received: Ghost(Seq::empty()) };
        proof {
            assert(r.seen_paths() =~= Seq::<Seq<Seq<char>>>::empty());
        }
        r
    }

    /// Forwards the path exactly when no structurally equal path was
    /// ever handed to this sink before; the seen set only grows.
    pub fn forward(&mut self, path: LinkedPath)
        ensures
            final(self).sunk() == old(self).sunk().push(path@),
            final(self).seen_paths() == if old(self).seen_paths().contains(path@) {
                old(self).seen_paths()
            } else {
                old(self).seen_paths().push(path@)
            },
            final(self).forwarded() == if old(self).seen_paths().contains(path@) {
                old(self).forwarded()
            } else {
                old(self).forwarded().push(path@)
            },
    {
        proof {
            self.received@ = self.received@.push(path@);
        }
        let fresh = self.register(&path);
        if fresh {
            self.inner.put(path);
        }
    }
}

impl<S: InputSink> InputSink for DedupingInputSink<S> {
    closed spec fn sunk(&self) -> Seq<Seq<Seq<char>>> {
        self.received@
    }

    fn put(&mut self, path: LinkedPath) {
        self.forward(path);
    }
}

/// Relies on the derived clones of `Arc` and `String`: the copy shares
/// the parent and carries the same segment.
#[verifier::external_body]
pub fn clone_path(p: &LinkedPath) -> (r: LinkedPath)
    ensures
        r@ == p@,
{
    LinkedPath { parent: p.parent.clone(), segment: p.segment.clone() }
}

} // verus!
