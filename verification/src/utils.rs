//! What is shown and estimated before and while files are copied: names
//! trimmed for display, and the scan that counts the files below a path and
//! adds up their sizes.

use crate::path::contents;
use vstd::prelude::*;

verus! {

/// Number of characters of the ellipsis that replaces the middle of a long name.
pub const ELLIPSIS_LEN: usize = 3;

/// The ellipsis itself, as a sequence of characters.
pub open spec fn ellipsis() -> Seq<char> {
    seq!['.', '.', '.']
}

/// Characters kept from the start of a name that is cut down to `max_len`.
pub open spec fn head_len(max_len: nat) -> nat
    recommends
        max_len > ELLIPSIS_LEN,
{
    ((max_len - ELLIPSIS_LEN + 1) / 2) as nat
}

/// Characters kept from the end of a name that is cut down to `max_len`.
pub open spec fn tail_len(max_len: nat) -> nat
    recommends
        max_len > ELLIPSIS_LEN,
{
    ((max_len - ELLIPSIS_LEN) / 2) as nat
}

/// What a name looks like once it has been fitted into `max_len` characters.
pub open spec fn trimmed(name: Seq<char>, max_len: nat) -> Seq<char> {
    if name.len() <= max_len {
        name
    } else if max_len <= ELLIPSIS_LEN {
        ellipsis()
    } else {
        name.take(head_len(max_len) as int) + ellipsis() + name.skip(
            name.len() - tail_len(max_len),
        )
    }
}

/// Trims long file names for display: the start and the end of the name are
/// kept and the middle is replaced by an ellipsis.
pub fn trim_filename(name: &str, max_len: usize) -> (out: String)
    ensures
        out@ == trimmed(name@, max_len as nat),
        name@.len() <= max_len ==> out@ == name@,
        name@.len() > max_len >= ELLIPSIS_LEN ==> {
            let head = head_len(max_len as nat) as int;
            let tail = tail_len(max_len as nat) as int;
            &&& out@.len() == max_len
            &&& out@.subrange(0, head) == name@.subrange(0, head)
            &&& out@.subrange(head, head + ELLIPSIS_LEN) == ellipsis()
            &&& out@.subrange(head + ELLIPSIS_LEN, max_len as int) == name@.subrange(
                name@.len() - tail,
                name@.len() as int,
            )
        },
{
    let len = name.unicode_len();
    if len <= max_len {
        return name.to_owned();
    }
    proof {
        if max_len >= ELLIPSIS_LEN {
            lemma_trimmed_shape(name@, max_len as nat);
        }
    }
    proof {
        reveal_strlit("...");
    }
    let dots = "...";
    assert(dots@ =~= ellipsis());
    if max_len <= ELLIPSIS_LEN {
        return dots.to_owned();
    }
    let remaining = max_len - ELLIPSIS_LEN;
    let start_len = (remaining + 1) / 2;
    let end_len = remaining / 2;
    let head = name.substring_char(0, start_len);
    let tail = name.substring_char(len - end_len, len);
    let mut out = head.to_owned();
    out.append(dots);
    out.append(tail);
    assert(out@ =~= trimmed(name@, max_len as nat));
    out
}

/// A name longer than the width asked for comes out with exactly that many
/// characters, provided the width has room for the ellipsis: the start of
/// the name, the ellipsis in the middle, and the end of the name, the
/// start being at most one character longer than the end.
pub proof fn lemma_trimmed_shape(name: Seq<char>, max_len: nat)
    requires
        name.len() > max_len >= ELLIPSIS_LEN,
    ensures
        ({
            let out = trimmed(name, max_len);
            let head = head_len(max_len) as int;
            let tail = tail_len(max_len) as int;
            &&& out.len() == max_len
            &&& head + ELLIPSIS_LEN + tail == max_len
            &&& tail <= head <= tail + 1
            &&& out.subrange(0, head) == name.subrange(0, head)
            &&& out.subrange(head, head + ELLIPSIS_LEN) == ellipsis()
            &&& out.subrange(head + ELLIPSIS_LEN, max_len as int) == name.subrange(
                name.len() - tail,
                name.len() as int,
            )
        }),
{
    let out = trimmed(name, max_len);
    let head = head_len(max_len) as int;
    let tail = tail_len(max_len) as int;
    if max_len == ELLIPSIS_LEN {
        assert(out =~= ellipsis());
    } else {
        assert(out =~= name.take(head) + ellipsis() + name.skip(name.len() - tail));
    }
    assert(out.subrange(0, head) =~= name.subrange(0, head));
    assert(out.subrange(head, head + ELLIPSIS_LEN) =~= ellipsis());
    assert(out.subrange(head + ELLIPSIS_LEN, max_len as int) =~= name.subrange(
        name.len() - tail,
        name.len() as int,
    ));
}

/// A count held at the largest value a `u64` can take.
pub open spec fn capped(count: nat) -> nat {
    if count > u64::MAX {
        u64::MAX as nat
    } else {
        count
    }
}

/// The sum of two counts, held at the largest value a `u64` can take.
pub open spec fn capped_sum(a: nat, b: nat) -> nat {
    capped(a + b)
}

/// What the file system says of one path of a scan.
#[derive(Debug, PartialEq, Eq)]
pub enum Observation {
    /// A directory, with the paths of the children that could be listed.
    Directory(Vec<Vec<u8>>),
    /// A regular file, with its size; `None` where the file vanished or
    /// became unreadable before its size could be read.
    File(Option<u64>),
    /// Anything else, a path that has vanished included.
    Other,
}

/// The mathematical content of an [`Observation`].
pub enum ObservationView {
    Directory(Seq<Seq<u8>>),
    File(Option<u64>),
    Other,
}

impl View for Observation {
    type V = ObservationView;

    open spec fn view(&self) -> ObservationView {
        match self {
            Observation::Directory(children) => ObservationView::Directory(contents(children@)),
            Observation::File(size) => ObservationView::File(*size),
            Observation::Other => ObservationView::Other,
        }
    }
}

/// The mathematical content of a [`SizeScan`].
pub struct SizeScanView {
    /// The paths still to be looked at; the last one is next.
    pub pending: Seq<Seq<u8>>,
    /// Regular files seen so far.
    pub files: nat,
    /// Sum of the sizes of the files whose metadata could be read.
    pub bytes: nat,
}

impl SizeScanView {
    /// A scan that has `root` to look at and has seen nothing.
    pub open spec fn initial(root: Seq<u8>) -> SizeScanView {
        SizeScanView { pending: seq![root], files: 0, bytes: 0 }
    }

    /// The scan after the next path was taken off the stack.
    pub open spec fn popped(self) -> SizeScanView {
        if self.pending.len() > 0 {
            SizeScanView { pending: self.pending.drop_last(), ..self }
        } else {
            self
        }
    }

    /// The scan after an observation: the children of a directory are
    /// stacked in the order given, a file whose size could be read is
    /// counted and its size added, anything else is passed over, a file
    /// whose size could not be read included.
    pub open spec fn recorded(self, observation: ObservationView) -> SizeScanView {
        match observation {
            ObservationView::Directory(children) => SizeScanView {
                pending: self.pending + children,
                ..self
            },
            ObservationView::File(Some(size)) => SizeScanView {
                files: capped_sum(self.files, 1),
                bytes: capped_sum(self.bytes, size as nat),
                ..self
            },
            ObservationView::File(None) => self,
            ObservationView::Other => self,
        }
    }
}

/// Counts the files below a path and adds up their sizes, without
/// recursion: the paths still to be looked at are kept on a stack. The
/// caller takes the next path with `next_path`, asks the file system about
/// it, and hands the answer to `record`, until no path is left.
pub struct SizeScan {
    pending: Vec<Vec<u8>>,
    files: u64,
    bytes: u64,
}

impl View for SizeScan {
    type V = SizeScanView;

    closed spec fn view(&self) -> SizeScanView {
        SizeScanView {
            pending: contents(self.pending@),
            files: self.files as nat,
            bytes: self.bytes as nat,
        }
    }
}

impl SizeScan {
    /// Starts a scan of `root`.
    pub fn new(root: Vec<u8>) -> (scan: SizeScan)
        ensures
            scan@ == SizeScanView::initial(root@),
    {
        let mut pending: Vec<Vec<u8>> = Vec::new();
        pending.push(root);
        let scan = SizeScan { pending, files: 0, bytes: 0 };
        assert(scan@.pending =~= seq![root@]);
        scan
    }

    /// Takes the next path to look at off the stack; `None` when the scan
    /// is over.
    pub fn next_path(&mut self) -> (path: Option<Vec<u8>>)
        ensures
            final(self)@ == old(self)@.popped(),
            match path {
                Some(p) => old(self)@.pending.len() > 0 && p@ == old(self)@.pending.last(),
                None => old(self)@.pending.len() == 0,
            },
    {
        let path = self.pending.pop();
        assert(self@.pending =~= old(self)@.popped().pending);
        path
    }

    /// Records what the file system said of the path taken last.
    pub fn record(&mut self, observation: Observation)
        ensures
            final(self)@ == old(self)@.recorded(observation@),
    {
        match observation {
            Observation::Directory(children) => {
                let mut children = children;
                let ghost added = contents(children@);
                self.pending.append(&mut children);
                assert(self@.pending =~= old(self)@.pending + added);
            },
            Observation::File(Some(size)) => {
                self.files = self.files.saturating_add(1);
                self.bytes = self.bytes.saturating_add(size);
            },
            Observation::File(None) => {},
            Observation::Other => {},
        }
    }

    /// The estimate so far: the number of files and the sum of their sizes.
    pub fn estimate(&self) -> (totals: (u64, u64))
        ensures
            totals.0 == self@.files,
            totals.1 == self@.bytes,
    {
        (self.files, self.bytes)
    }
}

/// Adds the estimate for one source to the estimate for a whole request:
/// files to files and bytes to bytes.
pub fn add_estimates(total: (u64, u64), part: (u64, u64)) -> (sum: (u64, u64))
    ensures
        sum.0 == capped_sum(total.0 as nat, part.0 as nat),
        sum.1 == capped_sum(total.1 as nat, part.1 as nat),
{
    (total.0.saturating_add(part.0), total.1.saturating_add(part.1))
}

/// What lies at a path while a scan runs, as a model of the file system:
/// a file with its size, or without where the size cannot be read; a
/// directory with what lies at the paths that its listing gives; or
/// something else.
pub enum ScanNode {
    File { path: Seq<u8>, size: Option<u64> },
    Dir { path: Seq<u8>, children: Seq<ScanNode> },
    Other { path: Seq<u8> },
}

impl ScanNode {
    /// The path at which the node lies.
    pub open spec fn path(self) -> Seq<u8> {
        match self {
            ScanNode::File { path, .. } => path,
            ScanNode::Dir { path, .. } => path,
            ScanNode::Other { path } => path,
        }
    }

    /// What the file system says of the node.
    pub open spec fn observation(self) -> ObservationView {
        match self {
            ScanNode::File { size, .. } => ObservationView::File(size),
            ScanNode::Dir { children, .. } => ObservationView::Directory(paths_of(children)),
            ScanNode::Other { .. } => ObservationView::Other,
        }
    }
}

/// The paths at which the given nodes lie.
pub open spec fn paths_of(nodes: Seq<ScanNode>) -> Seq<Seq<u8>> {
    Seq::new(nodes.len(), |i: int| nodes[i].path())
}

/// The number of regular files at or below a node whose size can be read.
pub open spec fn files_in(node: ScanNode) -> nat
    decreases node, 0nat,
{
    match node {
        ScanNode::File { size, .. } => if size is Some {
            1
        } else {
            0
        },
        ScanNode::Dir { children, .. } => files_among(children, children.len()),
        ScanNode::Other { .. } => 0,
    }
}

/// The number of regular files at or below the first `count` nodes whose
/// size can be read.
pub open spec fn files_among(nodes: Seq<ScanNode>, count: nat) -> nat
    decreases nodes, count,
{
    if count == 0 || count > nodes.len() {
        0
    } else {
        files_among(nodes, (count - 1) as nat) + files_in(nodes[count - 1])
    }
}

/// The sum of the sizes of the regular files at or below a node whose size
/// can be read.
pub open spec fn bytes_in(node: ScanNode) -> nat
    decreases node, 0nat,
{
    match node {
        ScanNode::File { size, .. } => match size {
            Some(n) => n as nat,
            None => 0,
        },
        ScanNode::Dir { children, .. } => bytes_among(children, children.len()),
        ScanNode::Other { .. } => 0,
    }
}

/// The sum of the sizes of the regular files at or below the first `count`
/// nodes whose size can be read.
pub open spec fn bytes_among(nodes: Seq<ScanNode>, count: nat) -> nat
    decreases nodes, count,
{
    if count == 0 || count > nodes.len() {
        0
    } else {
        bytes_among(nodes, (count - 1) as nat) + bytes_in(nodes[count - 1])
    }
}

/// What the file system says, in the order in which the scan asks, while
/// the scan works through a node and all that lies below it.
pub open spec fn answers_for(node: ScanNode) -> Seq<ObservationView>
    decreases node, 0nat,
{
    match node {
        ScanNode::Dir { children, .. } => seq![node.observation()] + answers_among(
            children,
            children.len(),
        ),
        _ => seq![node.observation()],
    }
}

/// What the file system says while the scan works through the first
/// `count` nodes of a listing, the last of them first.
pub open spec fn answers_among(nodes: Seq<ScanNode>, count: nat) -> Seq<ObservationView>
    decreases nodes, count,
{
    if count == 0 || count > nodes.len() {
        Seq::empty()
    } else {
        answers_for(nodes[count - 1]) + answers_among(nodes, (count - 1) as nat)
    }
}

/// The scan after it has taken one path after the other and recorded the
/// given observations of them.
pub open spec fn scan_after(scan: SizeScanView, observations: Seq<ObservationView>) -> SizeScanView
    decreases observations.len(),
{
    if observations.len() == 0 {
        scan
    } else {
        scan_after(scan, observations.drop_last()).popped().recorded(observations.last())
    }
}

/// Observations recorded one after the other take the scan where the
/// first ones and then the others take it.
pub proof fn lemma_scan_concat(
    scan: SizeScanView,
    first: Seq<ObservationView>,
    second: Seq<ObservationView>,
)
    ensures
        scan_after(scan, first + second) == scan_after(scan_after(scan, first), second),
    decreases second.len(),
{
    if second.len() == 0 {
        assert(first + second =~= first);
    } else {
        lemma_scan_concat(scan, first, second.drop_last());
        assert((first + second).drop_last() =~= first + second.drop_last());
        assert((first + second).last() == second.last());
    }
}

/// One observation takes the scan one step.
pub proof fn lemma_scan_single(scan: SizeScanView, observation: ObservationView)
    ensures
        scan_after(scan, seq![observation]) == scan.popped().recorded(observation),
{
    let one = seq![observation];
    assert(one.drop_last() =~= Seq::<ObservationView>::empty());
    assert(scan_after(scan, one.drop_last()) == scan);
}

/// Working through the node on top of the stack removes it from the
/// stack, and adds its files and their sizes to the totals.
pub proof fn lemma_scan_node(scan: SizeScanView, rest: Seq<Seq<u8>>, node: ScanNode)
    requires
        scan.pending == rest.push(node.path()),
        scan.files <= u64::MAX,
        scan.bytes <= u64::MAX,
    ensures
        scan_after(scan, answers_for(node)) == (SizeScanView {
            pending: rest,
            files: capped(scan.files + files_in(node)),
            bytes: capped(scan.bytes + bytes_in(node)),
        }),
    decreases node, 0nat,
{
    lemma_scan_single(scan, node.observation());
    assert(scan.popped().pending =~= rest);
    match node {
        ScanNode::Dir { children, .. } => {
            let listed = scan.popped().recorded(node.observation());
            assert(paths_of(children.take(children.len() as int)) =~= paths_of(children));
            assert(listed.pending == rest + paths_of(children.take(children.len() as int)));
            lemma_scan_nodes(listed, rest, children, children.len());
            lemma_scan_concat(
                scan,
                seq![node.observation()],
                answers_among(children, children.len()),
            );
        },
        _ => {},
    }
}

/// Working through the first `count` nodes of a listing, which lie on top
/// of the stack, removes them from the stack, and adds their files and
/// the sizes of these to the totals.
pub proof fn lemma_scan_nodes(
    scan: SizeScanView,
    rest: Seq<Seq<u8>>,
    nodes: Seq<ScanNode>,
    count: nat,
)
    requires
        count <= nodes.len(),
        scan.pending == rest + paths_of(nodes.take(count as int)),
        scan.files <= u64::MAX,
        scan.bytes <= u64::MAX,
    ensures
        scan_after(scan, answers_among(nodes, count)) == (SizeScanView {
            pending: rest,
            files: capped(scan.files + files_among(nodes, count)),
            bytes: capped(scan.bytes + bytes_among(nodes, count)),
        }),
    decreases nodes, count,
{
    if count == 0 {
        assert(scan.pending =~= rest);
    } else {
        let shorter = (count - 1) as nat;
        let top = nodes[count - 1];
        let below = rest + paths_of(nodes.take(shorter as int));
        assert(scan.pending =~= below.push(top.path()));
        lemma_scan_node(scan, below, top);
        let next = scan_after(scan, answers_for(top));
        lemma_scan_nodes(next, rest, nodes, shorter);
        lemma_scan_concat(scan, answers_for(top), answers_among(nodes, shorter));
    }
}

/// The scan of a tree counts the files of the tree and adds up their
/// sizes. If the file system answers as the tree `root` says, the scan
/// that starts at the path of `root` ends with nothing left to look at
/// when the last answer is recorded, and its estimate is the number of
/// regular files in the tree whose size can be read and the sum of their
/// sizes, each held at the largest value a `u64` can take. A file whose
/// size cannot be read adds to neither.
pub proof fn lemma_scan_totals(root: ScanNode)
    ensures
        scan_after(SizeScanView::initial(root.path()), answers_for(root)) == (SizeScanView {
            pending: Seq::empty(),
            files: capped(files_in(root)),
            bytes: capped(bytes_in(root)),
        }),
{
    let scan = SizeScanView::initial(root.path());
    assert(scan.pending =~= Seq::<Seq<u8>>::empty().push(root.path()));
    lemma_scan_node(scan, Seq::empty(), root);
}

} // verus!
