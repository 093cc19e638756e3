//! Input sources: which candidate files enter the pipeline.
//!
//! The walk itself reads directories; every decision about an entry —
//! whether it is filtered, emitted, recursed into or followed — is made
//! here. The driver lists directories, resolves symlinks and fetches
//! metadata, and hands the plain results in.

use std::sync::Arc;
use vstd::prelude::*;
use crate::file_filters::FileFilter;
use crate::file_meta::FileMeta;
use crate::util::InputSink;
use crate::util::LinkedPath;

verus! {

/// What a directory entry is.
#[derive(Debug, Copy, Clone, Eq, PartialEq, Structural)]
pub enum EntryKind {
    File,
    Directory,
    Symlink,
    Other,
}

/// What the walker asks the driver to do with one entry.
#[derive(Debug, Copy, Clone, Eq, PartialEq, Structural)]
pub enum EntryDirective {
    /// Nothing further: the entry was handled or dropped.
    Done,
    /// Resolve the symlink and report back what it points to.
    FollowSymlink,
}

/// Whether the filter stack keeps a file with these segments and this
/// metadata snapshot: the name filters must pass, and where metadata
/// filters are configured, a snapshot must be there and pass too.
pub open spec fn kept_by(filter: FileFilter, segs: Seq<Seq<char>>, meta: Option<FileMeta>) -> bool {
    filter.name_passes(segs) && (filter.1@.len() == 0 || (match meta {
        Some(m) => filter.metadata_passes(m),
        None => false,
    }))
}

/// Emits the file into the sink exactly when the filter stack keeps it.
/// Where the stack needs metadata and none could be fetched, the file
/// is dropped, as any unreadable file is.
pub fn emit_if_kept<S: InputSink>(
    filter: &FileFilter,
    segments: &Vec<String>,
    meta: Option<&FileMeta>,
    sink: &mut S,
) -> (kept: bool)
    requires
        segments@.len() >= 1,
    ensures
        kept == kept_by(*filter, segments.deep_view(), match meta {
            Some(m) => Some(*m),
            None => None,
        }),
        final(sink).sunk() == if kept {
            old(sink).sunk().push(segments.deep_view())
        } else {
            old(sink).sunk()
        },
{
    if !filter.filter_name(segments) {
        return false;
    }
    if filter.needs_metadata() {
        let kept = match meta {
            Some(m) => filter.keep_file_md(segments, m),
            None => {
                return false;
            },
        };
        if !kept {
            return false;
        }
    }
    sink.put(LinkedPath::from_segments(segments));
    true
}

/// Discovers files by walking directories.
pub struct DiscoveringInputSource {
    recurse: bool,
    follow_symlink: bool,
    file_filters: FileFilter,
    sources: Vec<Arc<LinkedPath>>,
}

impl DiscoveringInputSource {
    /// Whether the walk descends into subdirectories.
    pub closed spec fn recurses(&self) -> bool {
        self.recurse
    }

    /// Whether symlinks are followed.
    pub closed spec fn follows_symlinks(&self) -> bool {
        self.follow_symlink
    }

    /// The configured filter stack.
    pub closed spec fn filters(&self) -> FileFilter {
        self.file_filters
    }

    /// The directories still to be walked.
    pub closed spec fn pending(&self) -> Seq<Seq<Seq<char>>> {
        Seq::new(self.sources@.len(), |i: int| self.sources@[i]@)
    }

    /// A walker over the given roots.
    pub fn new(
        recurse: bool,
        follow_symlink: bool,
        sources: Vec<Arc<LinkedPath>>,
        file_filters: FileFilter,
    ) -> (r: Self)
        ensures
            r.recurses() == recurse,
            r.follows_symlinks() == follow_symlink,
            r.filters() == file_filters,
            r.pending() == Seq::new(sources@.len(), |i: int| sources@[i]@),
    {
        DiscoveringInputSource { recurse, follow_symlink, file_filters, sources }
    }

    /// Whether the filter stack will need metadata for plain files.
    pub fn wants_metadata(&self) -> (r: bool)
        ensures
            r == (self.filters().1@.len() > 0),
    {
        self.file_filters.needs_metadata()
    }

    /// The next directory to list, until the walk is done.
    pub fn next_dir(&mut self) -> (r: Option<Arc<LinkedPath>>)
        ensures
            final(self).filters() == old(self).filters(),
            final(self).recurses() == old(self).recurses(),
            final(self).follows_symlinks() == old(self).follows_symlinks(),
            match r {
                Some(d) => old(self).pending().len() > 0 && d@ == old(self).pending().last()
                    && final(self).pending() == old(self).pending().drop_last(),
                None => old(self).pending().len() == 0 && final(self).pending() == old(self).pending(),
            },
    {
        let ghost before = self.pending();
        let r = self.sources.pop();
        proof {
            if before.len() > 0 {
                assert(self.pending() =~= before.drop_last());
            } else {
                assert(self.pending() =~= before);
            }
        }
        r
    }

    /// Decides one directory entry: a file runs through the filters and
    /// is emitted exactly when they keep it; a subdirectory is queued
    /// exactly when the walk recurses; a symlink is handed back for
    /// resolution exactly when they are followed.
    pub fn consume_entry<S: InputSink>(
        &mut self,
        dir: &Arc<LinkedPath>,
        name: &String,
        kind: EntryKind,
        meta: Option<&FileMeta>,
        sink: &mut S,
    ) -> (r: EntryDirective)
        ensures
            final(self).filters() == old(self).filters(),
            final(self).recurses() == old(self).recurses(),
            final(self).follows_symlinks() == old(self).follows_symlinks(),
            (r == EntryDirective::FollowSymlink) == (kind == EntryKind::Symlink && old(self).follows_symlinks()),
            ({
                let child = dir@.push(name@);
                &&& kind == EntryKind::File ==> final(self).pending() == old(self).pending()
                    && final(sink).sunk() == (if kept_by(old(self).filters(), child, match meta {
                    Some(m) => Some(*m),
                    None => None,
                }) {
                    old(sink).sunk().push(child)
                } else {
                    old(sink).sunk()
                })
                &&& kind == EntryKind::Directory ==> final(sink).sunk() == old(sink).sunk()
                    && final(self).pending() == (if old(self).recurses() {
                    old(self).pending().push(child)
                } else {
                    old(self).pending()
                })
                &&& (kind == EntryKind::Symlink || kind == EntryKind::Other)
                    ==> (final(sink).sunk() == old(sink).sunk() && final(self).pending()
                    == old(self).pending())
            }),
    {
        match kind {
            EntryKind::File => {
                let child = LinkedPath::new_child(dir, name.clone());
                let segments = child.to_push_buf();
                proof {
                    crate::util::lemma_segments_len(&child);
                }
                let _kept = emit_if_kept(&self.file_filters, &segments, meta, sink);
                EntryDirective::Done
            },
            EntryKind::Directory => {
                if self.recurse {
                    let ghost before = self.pending();
                    let child = LinkedPath::new_child(dir, name.clone());
                    self.sources.push(Arc::new(child));
                    proof {
                        assert(self.pending() =~= before.push(dir@.push(name@)));
                    }
                }
                EntryDirective::Done
            },
            EntryKind::Symlink => {
                if self.follow_symlink {
                    EntryDirective::FollowSymlink
                } else {
                    EntryDirective::Done
                }
            },
            EntryKind::Other => EntryDirective::Done,
        }
    }

    /// Decides a followed symlink from its resolved target: a file is
    /// emitted under its canonical path exactly when the filters keep
    /// it; a directory joins the walk exactly when it recurses.
    pub fn consume_followed_symlink<S: InputSink>(
        &mut self,
        target_segments: &Vec<String>,
        kind: EntryKind,
        meta: &FileMeta,
        sink: &mut S,
    )
        requires
            target_segments@.len() >= 1,
        ensures
            final(self).filters() == old(self).filters(),
            final(self).recurses() == old(self).recurses(),
            final(self).follows_symlinks() == old(self).follows_symlinks(),
            kind == EntryKind::File ==> final(self).pending() == old(self).pending() && final(sink).sunk() == (if kept_by(
                old(self).filters(),
                target_segments.deep_view(),
                Some(*meta),
            ) {
                old(sink).sunk().push(target_segments.deep_view())
            } else {
                old(sink).sunk()
            }),
            kind == EntryKind::Directory ==> final(sink).sunk() == old(sink).sunk() && final(self).pending() == (if old(self).recurses() {
                old(self).pending().push(target_segments.deep_view())
            } else {
                old(self).pending()
            }),
            (kind == EntryKind::Symlink || kind == EntryKind::Other) ==> final(sink).sunk() == old(sink).sunk() && final(self).pending() == old(self).pending(),
    {
        match kind {
            EntryKind::File => {
                let _kept = emit_if_kept(&self.file_filters, target_segments, Some(meta), sink);
            },
            EntryKind::Directory => {
                if self.recurse {
                    let ghost before = self.pending();
                    self.sources.push(LinkedPath::from_path_buf(target_segments));
                    proof {
                        assert(self.pending() =~= before.push(target_segments.deep_view()));
                    }
                }
            },
            _ => {},
        }
    }
}

/// Discovers files from a caller-read list of lines.
pub struct StdInSource {
    file_filters: FileFilter,
}

impl StdInSource {
    /// The configured filter stack.
    pub closed spec fn filters(&self) -> FileFilter {
        self.file_filters
    }

    /// A line source over the given filter stack.
    pub fn new(file_filters: FileFilter) -> (r: Self)
        ensures
            r.filters() == file_filters,
    {
        StdInSource { file_filters }
    }

    /// Decides one line: an empty line is dropped, anything else is a
    /// canonicalised path emitted exactly when the filters keep it.
    pub fn consume_line<S: InputSink>(
        &self,
        segments: &Vec<String>,
        meta: Option<&FileMeta>,
        sink: &mut S,
    ) -> (kept: bool)
        ensures
            kept == (segments@.len() > 0 && kept_by(
                self.filters(),
                segments.deep_view(),
                match meta {
                    Some(m) => Some(*m),
                    None => None,
                },
            )),
            final(sink).sunk() == if kept {
                old(sink).sunk().push(segments.deep_view())
            } else {
                old(sink).sunk()
            },
    {
        if segments.len() == 0 {
            return false;
        }
        emit_if_kept(&self.file_filters, segments, meta, sink)
    }
}

} // verus!
