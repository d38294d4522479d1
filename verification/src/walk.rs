//! The tree walk: the order in which a directory tree is mirrored, one
//! request to the file system at a time.

use crate::copy::{check_destination, destination_inside_source};
use crate::error::{CopyError, CopyErrorView};
use crate::path::{copy_bytes, join_path, joined};
use vstd::prelude::*;

verus! {

/// One entry of a directory, as the file system lists it.
#[derive(Debug, PartialEq, Eq)]
pub struct DirEntry {
    /// The name of the entry within its directory.
    pub name: Vec<u8>,
    /// Whether the entry is a directory; anything else is copied as a file.
    pub is_dir: bool,
}

/// The mathematical content of a [`DirEntry`].
pub struct DirEntryView {
    pub name: Seq<u8>,
    pub is_dir: bool,
}

impl View for DirEntry {
    type V = DirEntryView;

    open spec fn view(&self) -> DirEntryView {
        DirEntryView { name: self.name@, is_dir: self.is_dir }
    }
}

/// What the walk asks of the file system next, or how it has ended.
#[derive(Debug, PartialEq, Eq)]
pub enum WalkAction {
    /// Create the directory `path` and any missing parent; it may exist.
    CreateDir { path: Vec<u8> },
    /// Open the directory `path` for listing.
    OpenDir { path: Vec<u8> },
    /// Read the next entry of the directory that was opened last and is
    /// not yet exhausted.
    NextEntry,
    /// Copy the file `source` to `dest`.
    CopyFile { source: Vec<u8>, dest: Vec<u8> },
    /// The whole tree has been mirrored.
    Finished,
    /// The walk has been given up.
    Failed(CopyError),
}

/// The mathematical content of a [`WalkAction`].
pub enum WalkActionView {
    CreateDir { path: Seq<u8> },
    OpenDir { path: Seq<u8> },
    NextEntry,
    CopyFile { source: Seq<u8>, dest: Seq<u8> },
    Finished,
    Failed(CopyErrorView),
}

impl View for WalkAction {
    type V = WalkActionView;

    open spec fn view(&self) -> WalkActionView {
        match self {
            WalkAction::CreateDir { path } => WalkActionView::CreateDir { path: path@ },
            WalkAction::OpenDir { path } => WalkActionView::OpenDir { path: path@ },
            WalkAction::NextEntry => WalkActionView::NextEntry,
            WalkAction::CopyFile { source, dest } => WalkActionView::CopyFile {
                source: source@,
                dest: dest@,
            },
            WalkAction::Finished => WalkActionView::Finished,
            WalkAction::Failed(error) => WalkActionView::Failed(error@),
        }
    }
}

impl WalkActionView {
    /// Whether the walk has come to an end, one way or the other.
    pub open spec fn is_final(self) -> bool {
        self is Finished || self is Failed
    }
}

/// What the file system answered to the pending request.
#[derive(Debug, PartialEq, Eq)]
pub enum WalkEvent {
    /// The directory was created or opened, or the file was copied.
    Completed,
    /// The directory being listed has this further entry.
    Entry(DirEntry),
    /// The directory being listed has no further entry.
    EndOfDir,
    /// The request failed; the text is that of the cause.
    Failed(String),
}

/// The mathematical content of a [`WalkEvent`].
pub enum WalkEventView {
    Completed,
    Entry(DirEntryView),
    EndOfDir,
    Failed(Seq<char>),
}

impl View for WalkEvent {
    type V = WalkEventView;

    open spec fn view(&self) -> WalkEventView {
        match self {
            WalkEvent::Completed => WalkEventView::Completed,
            WalkEvent::Entry(entry) => WalkEventView::Entry(entry@),
            WalkEvent::EndOfDir => WalkEventView::EndOfDir,
            WalkEvent::Failed(cause) => WalkEventView::Failed(cause@),
        }
    }
}

/// A directory that is being mirrored: where it is read and where it is
/// written.
pub struct FrameView {
    pub source: Seq<u8>,
    pub dest: Seq<u8>,
}

/// The mathematical content of a [`TreeWalk`].
pub struct TreeWalkView {
    /// The working directory against which paths are resolved.
    pub cwd: Seq<u8>,
    /// The directories being mirrored, the outermost first.
    pub frames: Seq<FrameView>,
    /// The request that awaits its answer, or the end of the walk.
    pub pending: WalkActionView,
}

impl TreeWalkView {
    /// The walk of the tree `from` into `to`, before anything was done:
    /// refused if the destination lies below the source, and otherwise about
    /// to create the destination.
    pub open spec fn initial(cwd: Seq<u8>, from: Seq<u8>, to: Seq<u8>) -> TreeWalkView {
        if destination_inside_source(cwd, from, to) {
            TreeWalkView {
                cwd,
                frames: Seq::empty(),
                pending: WalkActionView::Failed(CopyErrorView::DestinationInsideSource),
            }
        } else {
            TreeWalkView {
                cwd,
                frames: seq![FrameView { source: from, dest: to }],
                pending: WalkActionView::CreateDir { path: to },
            }
        }
    }

    /// A pending request always concerns the innermost directory.
    pub open spec fn wf(self) -> bool {
        match self.pending {
            WalkActionView::CreateDir { path } => self.frames.len() > 0 && path
                == self.frames.last().dest,
            WalkActionView::OpenDir { path } => self.frames.len() > 0 && path
                == self.frames.last().source,
            WalkActionView::NextEntry => self.frames.len() > 0,
            WalkActionView::CopyFile { .. } => self.frames.len() > 0,
            WalkActionView::Finished => self.frames.len() == 0,
            WalkActionView::Failed(_) => true,
        }
    }

    /// The walk with another pending request.
    pub open spec fn asking(self, pending: WalkActionView) -> TreeWalkView {
        TreeWalkView { pending, ..self }
    }

    /// The walk after the entry `entry` of the innermost directory was
    /// read. A file is to be copied next. A directory is entered, its
    /// destination to be created next, unless that destination lies below
    /// the directory itself.
    pub open spec fn entered(self, entry: DirEntryView) -> TreeWalkView {
        let source = joined(self.frames.last().source, entry.name);
        let dest = joined(self.frames.last().dest, entry.name);
        if !entry.is_dir {
            self.asking(WalkActionView::CopyFile { source, dest })
        } else if destination_inside_source(self.cwd, source, dest) {
            self.asking(WalkActionView::Failed(CopyErrorView::DestinationInsideSource))
        } else {
            TreeWalkView {
                frames: self.frames.push(FrameView { source, dest }),
                pending: WalkActionView::CreateDir { path: dest },
                ..self
            }
        }
    }

    /// The walk after the innermost directory was exhausted: its parent is
    /// listed further, and the walk is finished where there is none.
    pub open spec fn left(self) -> TreeWalkView {
        TreeWalkView {
            frames: self.frames.drop_last(),
            pending: if self.frames.len() <= 1 {
                WalkActionView::Finished
            } else {
                WalkActionView::NextEntry
            },
            ..self
        }
    }

    /// The walk after an answer of the file system. An answer that does not
    /// fit the pending request, or that comes after the end, changes nothing.
    pub open spec fn advanced(self, event: WalkEventView) -> TreeWalkView {
        match (self.pending, event) {
            (WalkActionView::CreateDir { .. }, WalkEventView::Completed) => self.asking(
                WalkActionView::OpenDir { path: self.frames.last().source },
            ),
            (WalkActionView::OpenDir { .. }, WalkEventView::Completed) => self.asking(
                WalkActionView::NextEntry,
            ),
            (WalkActionView::CopyFile { .. }, WalkEventView::Completed) => self.asking(
                WalkActionView::NextEntry,
            ),
            (WalkActionView::NextEntry, WalkEventView::Entry(entry)) => self.entered(entry),
            (WalkActionView::NextEntry, WalkEventView::EndOfDir) => self.left(),
            (pending, WalkEventView::Failed(cause)) => if pending.is_final() {
                self
            } else {
                self.asking(WalkActionView::Failed(CopyErrorView::Io(cause)))
            },
            _ => self,
        }
    }
}

/// Every answer leaves the walk well formed.
pub proof fn lemma_advanced_wf(walk: TreeWalkView, event: WalkEventView)
    requires
        walk.wf(),
    ensures
        walk.advanced(event).wf(),
{
}

/// A failure ends the walk at once, whatever it was doing, and the end is
/// final: no later answer changes it.
pub proof fn lemma_failure_ends_walk(walk: TreeWalkView, cause: Seq<char>, later: WalkEventView)
    requires
        !walk.pending.is_final(),
    ensures
        walk.advanced(WalkEventView::Failed(cause)).pending == WalkActionView::Failed(
            CopyErrorView::Io(cause),
        ),
        walk.advanced(WalkEventView::Failed(cause)).advanced(later) == walk.advanced(
            WalkEventView::Failed(cause),
        ),
{
}

/// A directory that is being mirrored.
struct Frame {
    source: Vec<u8>,
    dest: Vec<u8>,
}

impl View for Frame {
    type V = FrameView;

    closed spec fn view(&self) -> FrameView {
        FrameView { source: self.source@, dest: self.dest@ }
    }
}

/// The views of a stack of frames.
spec fn frame_views(frames: Seq<Frame>) -> Seq<FrameView> {
    Seq::new(frames.len(), |i: int| frames[i]@)
}

/// The kind of the pending request.
enum Phase {
    Creating,
    Opening,
    Listing,
    Copying,
    Ended,
}

/// Mirrors a directory tree, depth first, without touching the file system
/// itself: `pending` says what is to be done next, and `advance` takes the
/// answer. Entries are taken in the order in which they are listed; a
/// failure ends the walk at once and leaves what was copied in place.
pub struct TreeWalk {
    cwd: Vec<u8>,
    frames: Vec<Frame>,
    pending: WalkAction,
}

impl View for TreeWalk {
    type V = TreeWalkView;

    closed spec fn view(&self) -> TreeWalkView {
        TreeWalkView { cwd: self.cwd@, frames: frame_views(self.frames@), pending: self.pending@ }
    }
}

impl TreeWalk {
    /// Prepares the copy of the directory `from` to `to`, both taken
    /// relative to the working directory `cwd`. The copy is refused at once
    /// if `to` lies below `from`.
    pub fn new(cwd: Vec<u8>, from: Vec<u8>, to: Vec<u8>) -> (walk: TreeWalk)
        ensures
            walk@ == TreeWalkView::initial(cwd@, from@, to@),
            walk@.wf(),
    {
        match check_destination(cwd.as_slice(), from.as_slice(), to.as_slice()) {
            Err(error) => {
                let walk = TreeWalk { cwd, frames: Vec::new(), pending: WalkAction::Failed(error) };
                assert(walk@.frames =~= Seq::<FrameView>::empty());
                walk
            },
            Ok(_) => {
                let mut frames: Vec<Frame> = Vec::new();
                let pending = WalkAction::CreateDir { path: copy_bytes(to.as_slice()) };
                frames.push(Frame { source: from, dest: to });
                let walk = TreeWalk { cwd, frames, pending };
                assert(walk@.frames =~= seq![FrameView { source: from@, dest: to@ }]);
                walk
            },
        }
    }

    /// What is to be done next, or how the walk has ended.
    pub fn pending(&self) -> (action: &WalkAction)
        ensures
            action@ == self@.pending,
    {
        &self.pending
    }

    /// Whether the walk has ended.
    pub fn is_over(&self) -> (over: bool)
        ensures
            over == self@.pending.is_final(),
    {
        match self.phase() {
            Phase::Ended => true,
            _ => false,
        }
    }

    fn phase(&self) -> (phase: Phase)
        ensures
            match phase {
                Phase::Creating => self@.pending is CreateDir,
                Phase::Opening => self@.pending is OpenDir,
                Phase::Listing => self@.pending is NextEntry,
                Phase::Copying => self@.pending is CopyFile,
                Phase::Ended => self@.pending.is_final(),
            },
    {
        match &self.pending {
            WalkAction::CreateDir { .. } => Phase::Creating,
            WalkAction::OpenDir { .. } => Phase::Opening,
            WalkAction::NextEntry => Phase::Listing,
            WalkAction::CopyFile { .. } => Phase::Copying,
            WalkAction::Finished => Phase::Ended,
            WalkAction::Failed(_) => Phase::Ended,
        }
    }

    /// Takes the answer of the file system to the pending request and
    /// decides what is to be done next.
    pub fn advance(&mut self, event: WalkEvent)
        requires
            old(self)@.wf(),
        ensures
            final(self)@ == old(self)@.advanced(event@),
            final(self)@.wf(),
    {
        proof {
            lemma_advanced_wf(self@, event@);
        }
        let phase = self.phase();
        match event {
            WalkEvent::Failed(cause) => {
                match phase {
                    Phase::Ended => {},
                    _ => {
                        self.pending = WalkAction::Failed(CopyError::Io(cause));
                    },
                }
            },
            WalkEvent::Completed => {
                match phase {
                    Phase::Creating => {
                        let top = self.frames.len() - 1;
                        let path = copy_bytes(self.frames[top].source.as_slice());
                        self.pending = WalkAction::OpenDir { path };
                    },
                    Phase::Opening => {
                        self.pending = WalkAction::NextEntry;
                    },
                    Phase::Copying => {
                        self.pending = WalkAction::NextEntry;
                    },
                    _ => {},
                }
            },
            WalkEvent::Entry(entry) => {
                match phase {
                    Phase::Listing => {
                        let top = self.frames.len() - 1;
                        let source = join_path(
                            self.frames[top].source.as_slice(),
                            entry.name.as_slice(),
                        );
                        let dest = join_path(
                            self.frames[top].dest.as_slice(),
                            entry.name.as_slice(),
                        );
                        if !entry.is_dir {
                            self.pending = WalkAction::CopyFile { source, dest };
                        } else {
                            match check_destination(
                                self.cwd.as_slice(),
                                source.as_slice(),
                                dest.as_slice(),
                            ) {
                                Err(error) => {
                                    self.pending = WalkAction::Failed(error);
                                },
                                Ok(_) => {
                                    self.pending = WalkAction::CreateDir { path: copy_bytes(dest.as_slice()) };
                                    self.frames.push(Frame { source, dest });
                                    assert(self@.frames =~= old(self)@.entered(entry@).frames);
                                },
                            }
                        }
                    },
                    _ => {},
                }
            },
            WalkEvent::EndOfDir => {
                match phase {
                    Phase::Listing => {
                        self.frames.pop();
                        assert(self@.frames =~= old(self)@.frames.drop_last());
                        if self.frames.len() == 0 {
                            self.pending = WalkAction::Finished;
                        } else {
                            self.pending = WalkAction::NextEntry;
                        }
                    },
                    _ => {},
                }
            },
        }
    }
}

} // verus!
