//! The self-containment check of a tree copy and the bookkeeping of a
//! chunked file copy.

use crate::error::CopyError;
use crate::path::{
    contents, copy_bytes, is_absolute, is_dot, is_dot_dot, is_plain_name, join_path, joined,
    lemma_joined_child, lemma_normalized_child, lemma_not_inside_child, normalized, resolve, root,
    split_segments, starts_at_root, strictly_inside, NormalizedPath, SEPARATOR,
};
use vstd::prelude::*;

verus! {

/// Brings `path` into normal form, resolving `.` and `..` lexically: the
/// file system is not consulted, and `..` at the root or at the start of a
/// relative path is dropped.
pub fn normalize_path(path: &[u8]) -> (out: NormalizedPath)
    ensures
        out@ == normalized(path@),
{
    let segs = split_segments(path);
    let mut components: Vec<Vec<u8>> = Vec::new();
    let mut floor: usize = 0;
    if starts_at_root(path) {
        let mut root_bytes: Vec<u8> = Vec::new();
        root_bytes.push(SEPARATOR);
        assert(root_bytes@ =~= root());
        components.push(root_bytes);
        floor = 1;
    }
    let ghost prefix = contents(components@);
    assert(prefix =~= if is_absolute(path@) {
        seq![root()]
    } else {
        Seq::<Seq<u8>>::empty()
    });
    assert(contents(segs@).take(0) =~= Seq::<Seq<u8>>::empty());
    assert(contents(components@) =~= prefix + resolve(contents(segs@).take(0)));
    let mut i: usize = 0;
    while i < segs.len()
        invariant
            i <= segs.len(),
            floor <= 1,
            prefix.len() == floor,
            contents(components@) == prefix + resolve(contents(segs@).take(i as int)),
        decreases segs.len() - i,
    {
        let ghost before = resolve(contents(segs@).take(i as int));
        assert(contents(segs@).take(i + 1).drop_last() =~= contents(segs@).take(i as int));
        assert(contents(segs@).take(i + 1).last() == segs@[i as int]@);
        assert(contents(components@).len() == components@.len());
        assert(components@.len() == floor + before.len());
        let ghost held = contents(components@);
        if segs[i].len() == 0 || is_dot(segs[i].as_slice()) {
        } else if is_dot_dot(segs[i].as_slice()) {
            if components.len() > floor {
                components.pop();
                assert(contents(components@) =~= held.drop_last());
                assert(held.drop_last() =~= prefix + before.drop_last());
            }
        } else {
            components.push(copy_bytes(segs[i].as_slice()));
            assert(contents(components@) =~= held.push(segs@[i as int]@));
            assert(held.push(segs@[i as int]@) =~= prefix + before.push(segs@[i as int]@));
        }
        i = i + 1;
    }
    assert(contents(segs@).take(segs.len() as int) =~= contents(segs@));
    NormalizedPath { components }
}

/// Resolves `path` against the working directory `cwd` and brings the
/// result into normal form: an absolute `path` stands for itself, any other
/// is taken from `cwd`. Where `cwd` is absolute, so is the result.
pub fn resolve_path(cwd: &[u8], path: &[u8]) -> (out: NormalizedPath)
    ensures
        out@ == normalized(joined(cwd@, path@)),
        is_absolute(cwd@) ==> out@.len() >= 1 && out@[0] == root(),
{
    normalize_path(join_path(cwd, path).as_slice())
}

/// Whether copying the directory `from` to `to` would write below `from`
/// itself, both paths being taken relative to the working directory `cwd`.
pub open spec fn destination_inside_source(cwd: Seq<u8>, from: Seq<u8>, to: Seq<u8>) -> bool {
    strictly_inside(normalized(joined(cwd, to)), normalized(joined(cwd, from)))
}

/// Refuses a tree copy whose destination lies below its source; a
/// destination that is the source itself, beside it or elsewhere is accepted.
pub fn check_destination(cwd: &[u8], from: &[u8], to: &[u8]) -> (verdict: Result<(), CopyError>)
    ensures
        destination_inside_source(cwd@, from@, to@) ==> verdict == Err::<(), CopyError>(
            CopyError::DestinationInsideSource,
        ),
        !destination_inside_source(cwd@, from@, to@) ==> verdict is Ok,
{
    let source = resolve_path(cwd, from);
    let dest = resolve_path(cwd, to);
    if dest.is_strictly_inside(&source) {
        Err(CopyError::DestinationInsideSource)
    } else {
        Ok(())
    }
}

/// A tree copy is refused exactly when the normal form of its destination
/// is the normal form of its source followed by one or more components.
pub proof fn lemma_refused_means_extended(cwd: Seq<u8>, from: Seq<u8>, to: Seq<u8>)
    ensures
        destination_inside_source(cwd, from, to) <==> exists|extra: Seq<Seq<u8>>|
            extra.len() >= 1 && normalized(joined(cwd, to)) == #[trigger] (normalized(
                joined(cwd, from),
            ) + extra),
{
    let source = normalized(joined(cwd, from));
    let dest = normalized(joined(cwd, to));
    if destination_inside_source(cwd, from, to) {
        let extra = dest.skip(source.len() as int);
        assert(dest =~= dest.take(source.len() as int) + extra);
        assert(dest == source + extra);
    }
    if exists|extra: Seq<Seq<u8>>|
        extra.len() >= 1 && dest == #[trigger] (source + extra) {
        let extra = choose|extra: Seq<Seq<u8>>|
            extra.len() >= 1 && dest == #[trigger] (source + extra);
        assert(dest.take(source.len() as int) =~= source);
    }
}

/// A destination that passes the check passes it at every level below: if
/// `to` does not lie below `from`, then the entry `name` of `to` does not
/// lie below the entry `name` of `from`. The check made for a tree thus
/// holds for each of its subdirectories.
pub proof fn lemma_check_carries_down(
    cwd: Seq<u8>,
    from: Seq<u8>,
    to: Seq<u8>,
    name: Seq<u8>,
)
    requires
        is_plain_name(name),
        !destination_inside_source(cwd, from, to),
    ensures
        !destination_inside_source(cwd, joined(from, name), joined(to, name)),
{
    lemma_joined_child(cwd, from, name);
    lemma_joined_child(cwd, to, name);
    lemma_normalized_child(joined(cwd, from), name);
    lemma_normalized_child(joined(cwd, to), name);
    lemma_not_inside_child(normalized(joined(cwd, to)), normalized(joined(cwd, from)), name);
}

/// Size of the buffer through which a file is copied: no read returns
/// more than this.
pub const BUFFER_SIZE: usize = 8 * 1024 * 1024;

/// Number of written bytes after which the destination is synced to disk.
pub const SYNC_INTERVAL: usize = 64 * 1024 * 1024;

/// What to do with the bytes that a read returned.
#[derive(Debug, Clone, Copy, PartialEq, Eq)]
pub enum ChunkAction {
    /// Write the bytes to the destination, sync its data if `sync_data` is
    /// set, report the bytes to every progress sink, and read on.
    Write { sync_data: bool },
    /// The source is exhausted: flush and sync the destination, data and
    /// metadata, and return the total.
    Finish,
}

/// The mathematical content of a [`FileCopy`].
pub struct FileCopyView {
    /// Bytes copied so far.
    pub total: nat,
    /// Bytes written since the destination was last synced.
    pub unsynced: nat,
}

impl FileCopyView {
    /// A copy that has not read anything yet.
    pub open spec fn initial() -> FileCopyView {
        FileCopyView { total: 0, unsynced: 0 }
    }

    /// The unsynced bytes stay below the sync interval.
    pub open spec fn wf(self) -> bool {
        self.unsynced < SYNC_INTERVAL
    }

    /// What a read of `bytes_read` bytes asks for.
    pub open spec fn action(self, bytes_read: nat) -> ChunkAction {
        if bytes_read == 0 {
            ChunkAction::Finish
        } else {
            ChunkAction::Write { sync_data: self.unsynced + bytes_read >= SYNC_INTERVAL }
        }
    }

    /// The copy after a read of `bytes_read` bytes: they count towards the
    /// total, and towards the unsynced bytes unless they bring on a sync.
    pub open spec fn after(self, bytes_read: nat) -> FileCopyView {
        FileCopyView {
            total: self.total + bytes_read,
            unsynced: if self.unsynced + bytes_read >= SYNC_INTERVAL {
                0
            } else {
                self.unsynced + bytes_read
            },
        }
    }
}

/// The bookkeeping of one chunked file copy: how many bytes have been
/// copied, and when the destination is due for a sync.
pub struct FileCopy {
    total_bytes: u64,
    bytes_since_sync: usize,
}

impl View for FileCopy {
    type V = FileCopyView;

    closed spec fn view(&self) -> FileCopyView {
        FileCopyView { total: self.total_bytes as nat, unsynced: self.bytes_since_sync as nat }
    }
}

impl FileCopy {
    /// Starts the bookkeeping of a copy.
    pub fn new() -> (copy: FileCopy)
        ensures
            copy@ == FileCopyView::initial(),
            copy@.wf(),
    {
        FileCopy { total_bytes: 0, bytes_since_sync: 0 }
    }

    /// Takes note of a read that returned `bytes_read` bytes and says what
    /// to do with them.
    pub fn chunk_read(&mut self, bytes_read: usize) -> (action: ChunkAction)
        requires
            old(self)@.wf(),
            old(self)@.total + bytes_read <= u64::MAX,
        ensures
            action == old(self)@.action(bytes_read as nat),
            final(self)@ == old(self)@.after(bytes_read as nat),
            final(self)@.wf(),
    {
        if bytes_read == 0 {
            return ChunkAction::Finish;
        }
        let sync_data = bytes_read >= SYNC_INTERVAL - self.bytes_since_sync;
        if sync_data {
            self.bytes_since_sync = 0;
        } else {
            self.bytes_since_sync = self.bytes_since_sync + bytes_read;
        }
        self.total_bytes = self.total_bytes + bytes_read as u64;
        ChunkAction::Write { sync_data }
    }

    /// The number of bytes copied so far.
    pub fn total_bytes(&self) -> (total: u64)
        ensures
            total == self@.total,
    {
        self.total_bytes
    }

    /// The number of bytes written since the destination was last synced.
    pub fn bytes_since_sync(&self) -> (unsynced: usize)
        ensures
            unsynced == self@.unsynced,
    {
        self.bytes_since_sync
    }
}

/// The sum of the sizes of a sequence of reads.
pub open spec fn sum_of(chunks: Seq<nat>) -> nat
    decreases chunks.len(),
{
    if chunks.len() == 0 {
        0
    } else {
        sum_of(chunks.drop_last()) + chunks.last()
    }
}

/// The bookkeeping after a sequence of reads.
pub open spec fn after_chunks(chunks: Seq<nat>) -> FileCopyView
    decreases chunks.len(),
{
    if chunks.len() == 0 {
        FileCopyView::initial()
    } else {
        after_chunks(chunks.drop_last()).after(chunks.last())
    }
}

/// Whatever the reads of a copy return, the total is the sum of their
/// sizes, and fewer bytes than the sync interval are left unsynced after
/// each of them.
pub proof fn lemma_copy_accounts_for_every_byte(chunks: Seq<nat>)
    ensures
        after_chunks(chunks).total == sum_of(chunks),
        after_chunks(chunks).wf(),
    decreases chunks.len(),
{
    if chunks.len() > 0 {
        lemma_copy_accounts_for_every_byte(chunks.drop_last());
    }
}

/// The bytes of a sequence of reads, one read behind the other.
pub open spec fn concat_of(reads: Seq<Seq<u8>>) -> Seq<u8>
    decreases reads.len(),
{
    if reads.len() == 0 {
        Seq::empty()
    } else {
        concat_of(reads.drop_last()) + reads.last()
    }
}

/// The sizes of a sequence of reads.
pub open spec fn sizes_of(reads: Seq<Seq<u8>>) -> Seq<nat> {
    Seq::new(reads.len(), |i: int| reads[i].len())
}

/// What the destination holds once each of the given reads has been
/// handled as the bookkeeping asks: where it asks for a write, the bytes
/// of the read are written behind what was written before, and where it
/// says that the source is exhausted, nothing is written.
pub open spec fn written_after(reads: Seq<Seq<u8>>) -> Seq<u8>
    decreases reads.len(),
{
    if reads.len() == 0 {
        Seq::empty()
    } else {
        let before = written_after(reads.drop_last());
        match after_chunks(sizes_of(reads.drop_last())).action(reads.last().len()) {
            ChunkAction::Write { .. } => before + reads.last(),
            ChunkAction::Finish => before,
        }
    }
}

/// A copy keeps the bytes. Whatever pieces the reads of the source come
/// in, what is written to the destination is the bytes that were read, in
/// their order, nothing left out and nothing added, and the total counts
/// exactly these bytes. So where the reads give the content of the source
/// file from its start to its end, the destination file ends up with the
/// same content, byte for byte.
pub proof fn lemma_copy_keeps_bytes(reads: Seq<Seq<u8>>)
    ensures
        written_after(reads) == concat_of(reads),
        after_chunks(sizes_of(reads)).total == concat_of(reads).len(),
    decreases reads.len(),
{
    if reads.len() > 0 {
        lemma_copy_keeps_bytes(reads.drop_last());
        assert(sizes_of(reads).drop_last() =~= sizes_of(reads.drop_last()));
        assert(sizes_of(reads).last() == reads.last().len());
        if reads.last().len() == 0 {
            assert(concat_of(reads.drop_last()) + reads.last() =~= concat_of(reads.drop_last()));
        }
    }
}

/// Taking one read out of a sequence takes its size out of the sum.
pub proof fn lemma_sum_remove(chunks: Seq<nat>, index: int)
    requires
        0 <= index < chunks.len(),
    ensures
        sum_of(chunks) == sum_of(chunks.remove(index)) + chunks[index],
    decreases chunks.len(),
{
    if index == chunks.len() - 1 {
        assert(chunks.remove(index) =~= chunks.drop_last());
    } else {
        lemma_sum_remove(chunks.drop_last(), index);
        assert(chunks.remove(index).drop_last() =~= chunks.drop_last().remove(index));
        assert(chunks.remove(index).last() == chunks.last());
    }
}

/// The total that a progress sink shows does not depend on the order in
/// which the byte counts reach it: however the reports of concurrently
/// running copies interleave, the same reports add up to the same total.
pub proof fn lemma_sum_ignores_order(first: Seq<nat>, second: Seq<nat>)
    requires
        first.to_multiset() == second.to_multiset(),
    ensures
        sum_of(first) == sum_of(second),
    decreases first.len(),
{
    first.to_multiset_ensures();
    second.to_multiset_ensures();
    if first.len() > 0 {
        let last = first.last();
        let shorter = first.drop_last();
        shorter.to_multiset_ensures();
        assert(shorter.push(last) =~= first);
        assert(first.contains(last)) by {
            assert(first[first.len() - 1] == last);
        }
        assert(first.to_multiset().count(last) > 0);
        assert(second.to_multiset().count(last) > 0);
        assert(second.contains(last));
        let index = choose|i: int| 0 <= i < second.len() && second[i] == last;
        let others = second.remove(index);
        assert(shorter.to_multiset() =~= first.to_multiset().remove(last)) by {
            assert(first.remove(first.len() - 1) =~= shorter);
        }
        assert(others.to_multiset() =~= second.to_multiset().remove(last));
        lemma_sum_ignores_order(shorter, others);
        lemma_sum_remove(second, index);
    }
}

} // verus!
