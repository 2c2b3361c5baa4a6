//! Iterative depth-first traversal over a worklist of directories. The
//! engine here is a state machine over plain values: the surrounding
//! application pops a pending directory with `next_dir`, enumerates it,
//! and reports each discovered entry through `handle_entry` together with
//! its kind and its extracted ranking metric. Directory enumeration and
//! metadata I/O stay outside; every decision is made, and verified, here.
use vstd::prelude::*;

use crate::ranking::entry_views;
use crate::ranking::sorted_best_first;
use crate::ranking::spec_consider;
use crate::ranking::RankedEntry;
use crate::ranking::Ranking;
use crate::Direction;
use crate::WalkError;

verus! {

/// A directory waiting to be visited, and how deep below a root it lies.
/// Roots start at depth zero.
#[derive(Clone, Debug)]
pub struct WorkItem {
    pub path: String,
    pub depth: u16,
}

/// What the metadata of a discovered entry says it is. Kinds other than
/// file or directory (device nodes, sockets) are deliberately neither
/// counted nor ranked.
#[derive(Clone, Copy, PartialEq, Eq, Structural, Debug)]
pub enum EntryKind {
    File,
    Dir,
    Other,
}

/// The whole state of one run: the worklist of pending directories, the
/// two run counters, the single ranker, and the run's fixed configuration.
pub struct Traversal {
    pub worklist: Vec<WorkItem>,
    pub files_checked: u64,
    pub dirs_checked: u64,
    pub ranking: Ranking,
    pub files: bool,
    pub dirs: bool,
    pub recursive: bool,
    pub follow_symlinks: bool,
    pub max_subdirs: u16,
}

/// The configuration and the ranker's fixed parameters never change
/// between construction and `finish`.
pub open spec fn same_config(a: Traversal, b: Traversal) -> bool {
    &&& a.files == b.files
    &&& a.dirs == b.dirs
    &&& a.recursive == b.recursive
    &&& a.follow_symlinks == b.follow_symlinks
    &&& a.max_subdirs == b.max_subdirs
    &&& a.ranking.capacity == b.ranking.capacity
    &&& a.ranking.direction == b.ranking.direction
}

impl Traversal {
    /// The worklist as the pairs of plain values the contracts speak about.
    pub open spec fn worklist_view(self) -> Seq<(Seq<char>, u16)> {
        self.worklist@.map_values(|w: WorkItem| (w.path@, w.depth))
    }

    /// Invariant: the ranker is well formed, at least one subject kind is
    /// eligible, and nothing on the worklist lies below the depth ceiling.
    pub open spec fn wf(self) -> bool {
        &&& self.ranking.wf()
        &&& (self.files || self.dirs)
        &&& (forall|i: int|
            0 <= i < self.worklist@.len() ==> (#[trigger] self.worklist@[i]).depth
                <= self.max_subdirs)
    }

    /// Starts a run: the worklist holds every root at depth zero, in the
    /// order given, the counters are zero and the ranker is empty. The
    /// configuration supplier has already validated `count >= 1` and that
    /// at least one subject kind is selected; the core assumes both.
    pub fn new(
        count: usize,
        direction: Direction,
        files: bool,
        dirs: bool,
        recursive: bool,
        follow_symlinks: bool,
        max_subdirs: u16,
        roots: Vec<String>,
    ) -> (t: Traversal)
        requires
            count >= 1,
            files || dirs,
        ensures
            t.wf(),
            t.files == files,
            t.dirs == dirs,
            t.recursive == recursive,
            t.follow_symlinks == follow_symlinks,
            t.max_subdirs == max_subdirs,
            t.files_checked == 0,
            t.dirs_checked == 0,
            t.ranking.capacity == count,
            t.ranking.direction == direction,
            t.ranking.entries@.len() == 0,
            t.ranking.considered() == vstd::multiset::Multiset::<u128>::empty(),
            t.worklist_view().len() == roots@.len(),
            forall|i: int|
                0 <= i < roots@.len() ==> #[trigger] t.worklist_view()[i] == (roots@[i]@, 0u16),
    {
        let mut worklist: Vec<WorkItem> = Vec::new();
        let mut i: usize = 0;
        while i < roots.len()
            invariant
                0 <= i <= roots@.len(),
                worklist@.len() == i,
                forall|j: int|
                    0 <= j < i ==> (#[trigger] worklist@[j]).path@ == roots@[j]@
                        && worklist@[j].depth == 0,
            decreases roots@.len() - i,
        {
            worklist.push(WorkItem { path: roots[i].clone(), depth: 0 });
            i += 1;
        }
        let t = Traversal {
            worklist,
            files_checked: 0,
            dirs_checked: 0,
            ranking: Ranking::new(count, direction),
            files,
            dirs,
            recursive,
            follow_symlinks,
            max_subdirs,
        };
        proof {
            assert(forall|j: int|
                0 <= j < roots@.len() ==> #[trigger] t.worklist_view()[j] == (roots@[j]@, 0u16));
        }
        t
    }

    /// Pops the next pending directory, last pushed first. Nothing else
    /// changes: the counters, the ranker and the rest of the worklist are
    /// untouched, so a directory that then turns out to be unreadable
    /// costs nothing but its own enumeration.
    pub fn next_dir(&mut self) -> (r: Option<WorkItem>)
        requires
            old(self).wf(),
        ensures
            final(self).wf(),
            same_config(*old(self), *final(self)),
            final(self).files_checked == old(self).files_checked,
            final(self).dirs_checked == old(self).dirs_checked,
            final(self).ranking == old(self).ranking,
            old(self).worklist@.len() == 0 ==> r is None && final(self).worklist@ == old(
                self,
            ).worklist@,
            old(self).worklist@.len() > 0 ==> (r matches Some(w) && w == old(
                self,
            ).worklist@.last()) && final(self).worklist@ == old(self).worklist@.drop_last(),
    {
        self.worklist.pop()
    }

    /// Takes one discovered entry of the directory most recently popped at
    /// depth `dir_level`. A file or a directory is counted; it is submitted
    /// to the ranker exactly when its kind is selected, failing only when
    /// the metric is unavailable; a directory is scheduled one level deeper
    /// exactly when the walk is recursive and the ceiling allows it.
    pub fn handle_entry(
        &mut self,
        path: String,
        dir_level: u16,
        kind: EntryKind,
        metric: Option<u128>,
    ) -> (r: Result<(), WalkError>)
        requires
            old(self).wf(),
            old(self).files_checked < u64::MAX,
            old(self).dirs_checked < u64::MAX,
        ensures
            final(self).wf(),
            same_config(*old(self), *final(self)),
            final(self).files_checked == old(self).files_checked + (if kind is File {
                1int
            } else {
                0int
            }),
            final(self).dirs_checked == old(self).dirs_checked + (if kind is Dir {
                1int
            } else {
                0int
            }),
            (if kind is Dir && old(self).recursive && dir_level < old(self).max_subdirs {
                final(self).worklist_view() == old(self).worklist_view().push(
                    (path@, (dir_level + 1) as u16),
                )
            } else {
                final(self).worklist@ == old(self).worklist@
            }),
            (if (kind is File && old(self).files) || (kind is Dir && old(self).dirs) {
                match metric {
                    None => final(self).ranking == old(self).ranking && (
                    r matches Err(WalkError::MetricUnavailable(p)) && p@ == path@),
                    Some(k) => r is Ok && entry_views(final(self).ranking.entries@)
                        == spec_consider(
                        old(self).ranking.direction,
                        old(self).ranking.capacity as nat,
                        entry_views(old(self).ranking.entries@),
                        path@,
                        k,
                    ) && final(self).ranking.considered() == old(
                        self,
                    ).ranking.considered().insert(k),
                }
            } else {
                final(self).ranking == old(self).ranking && r is Ok
            }),
    {
        let ghost pre = *self;
        match kind {
            EntryKind::File => {
                self.files_checked = self.files_checked + 1;
                if self.files {
                    self.ranking.consider(path, metric)
                } else {
                    Ok(())
                }
            },
            EntryKind::Dir => {
                self.dirs_checked = self.dirs_checked + 1;
                let descend = self.recursive && dir_level < self.max_subdirs;
                if self.dirs {
                    if descend {
                        let ranked_path = path.clone();
                        let res = self.ranking.consider(ranked_path, metric);
                        self.worklist.push(WorkItem { path, depth: dir_level + 1 });
                        proof {
                            lemma_worklist_view_push(pre, *self, (dir_level + 1) as u16);
                        }
                        res
                    } else {
                        self.ranking.consider(path, metric)
                    }
                } else {
                    if descend {
                        self.worklist.push(WorkItem { path, depth: dir_level + 1 });
                        proof {
                            lemma_worklist_view_push(pre, *self, (dir_level + 1) as u16);
                        }
                    }
                    Ok(())
                }
            },
            EntryKind::Other => Ok(()),
        }
    }

    /// Ends the run: the two counters and the ranker's final sequence,
    /// best first.
    pub fn finish(self) -> (r: (u64, u64, Vec<RankedEntry>))
        requires
            self.wf(),
        ensures
            r.0 == self.files_checked,
            r.1 == self.dirs_checked,
            r.2@ == self.ranking.entries@,
            r.2@.len() <= self.ranking.capacity,
            sorted_best_first(self.ranking.direction, r.2@),
    {
        let Traversal { worklist: _, files_checked, dirs_checked, ranking, .. } = self;
        (files_checked, dirs_checked, ranking.finish())
    }
}

/// One push at the end leaves every earlier worklist view entry in place
/// and appends the new pair.
proof fn lemma_worklist_view_push(pre: Traversal, post: Traversal, depth: u16)
    requires
        post.worklist@.len() == pre.worklist@.len() + 1,
        post.worklist@ == pre.worklist@.push(post.worklist@.last()),
        post.worklist@.last().depth == depth,
    ensures
        post.worklist_view() == pre.worklist_view().push(
            (post.worklist@.last().path@, depth),
        ),
{
    assert(post.worklist_view() =~= pre.worklist_view().push(
        (post.worklist@.last().path@, depth),
    ));
}

/// Law: no directory below the depth ceiling is ever on the worklist, so
/// entries are only ever handled for directories at depth at most
/// `max_subdirs` — with a ceiling of zero, only the roots themselves are
/// enumerated, never their subdirectories' contents.
pub proof fn lemma_depth_ceiling(t: Traversal)
    requires
        t.wf(),
    ensures
        forall|i: int|
            0 <= i < t.worklist@.len() ==> (#[trigger] t.worklist@[i]).depth <= t.max_subdirs,
{
}

} // verus!
