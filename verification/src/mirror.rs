//! What the tree walk does to a whole tree: a model of a directory tree,
//! the requests that mirror it, the proof that the walk makes exactly
//! those requests, and what they do to the files of a file system.

use crate::copy::{destination_inside_source, lemma_check_carries_down};
use crate::path::{
    at_or_below, is_plain_name, joined, lemma_joined_child, lemma_normalized_child, normalized,
};
use crate::walk::{DirEntryView, FrameView, TreeWalkView, WalkActionView, WalkEventView};
use vstd::prelude::*;

verus! {

/// An entry of a directory as the file system holds it: a file, or a
/// directory with its own entries in the order in which they are listed.
pub enum Tree {
    File { name: Seq<u8> },
    Dir { name: Seq<u8>, entries: Seq<Tree> },
}

impl Tree {
    /// The name of the entry within its directory.
    pub open spec fn name(self) -> Seq<u8> {
        match self {
            Tree::File { name } => name,
            Tree::Dir { name, .. } => name,
        }
    }
}

/// Every entry of the tree, at every depth, has a plain name.
pub open spec fn well_named(entry: Tree) -> bool
    decreases entry,
{
    match entry {
        Tree::File { name } => is_plain_name(name),
        Tree::Dir { name, entries } => is_plain_name(name) && forall|i: int|
            0 <= i < entries.len() ==> well_named(#[trigger] entries[i]),
    }
}

/// The answers of the file system while the first `count` of `entries` are
/// mirrored without failure.
pub open spec fn answers_entries(entries: Seq<Tree>, count: nat) -> Seq<WalkEventView>
    decreases entries, count,
{
    if count == 0 || count > entries.len() {
        Seq::empty()
    } else {
        answers_entries(entries, (count - 1) as nat) + answers_entry(entries[count - 1])
    }
}

/// The answers of the file system while one entry is mirrored: the entry
/// itself, and then either the end of the file's copy or the answers for
/// the directory.
pub open spec fn answers_entry(entry: Tree) -> Seq<WalkEventView>
    decreases entry, 0nat,
{
    match entry {
        Tree::File { name } => seq![
            WalkEventView::Entry(DirEntryView { name, is_dir: false }),
            WalkEventView::Completed,
        ],
        Tree::Dir { name, entries } => seq![
            WalkEventView::Entry(DirEntryView { name, is_dir: true }),
            WalkEventView::Completed,
            WalkEventView::Completed,
        ] + answers_entries(entries, entries.len()) + seq![WalkEventView::EndOfDir],
    }
}

/// The answers of the file system while a directory with the given
/// entries is mirrored: it is created and opened, its entries are taken one
/// by one, and the listing ends.
pub open spec fn answers_dir(entries: Seq<Tree>) -> Seq<WalkEventView> {
    seq![WalkEventView::Completed, WalkEventView::Completed] + answers_entries(
        entries,
        entries.len(),
    ) + seq![WalkEventView::EndOfDir]
}

/// The requests that mirror the first `count` of the `entries` of the
/// directory `source` into `dest`.
pub open spec fn plan_entries(
    source: Seq<u8>,
    dest: Seq<u8>,
    entries: Seq<Tree>,
    count: nat,
) -> Seq<WalkActionView>
    decreases entries, count,
{
    if count == 0 || count > entries.len() {
        Seq::empty()
    } else {
        plan_entries(source, dest, entries, (count - 1) as nat) + plan_entry(
            source,
            dest,
            entries[count - 1],
        )
    }
}

/// The requests that mirror one entry of the directory `source` into
/// `dest`: the entry is read; a file is copied to the same name below
/// `dest`; a directory is created under the same name below `dest`, opened,
/// mirrored entry by entry, and read to its end.
pub open spec fn plan_entry(source: Seq<u8>, dest: Seq<u8>, entry: Tree) -> Seq<WalkActionView>
    decreases entry, 0nat,
{
    match entry {
        Tree::File { name } => seq![
            WalkActionView::NextEntry,
            WalkActionView::CopyFile { source: joined(source, name), dest: joined(dest, name) },
        ],
        Tree::Dir { name, entries } => seq![
            WalkActionView::NextEntry,
            WalkActionView::CreateDir { path: joined(dest, name) },
            WalkActionView::OpenDir { path: joined(source, name) },
        ] + plan_entries(joined(source, name), joined(dest, name), entries, entries.len())
            + seq![WalkActionView::NextEntry],
    }
}

/// The requests that mirror the directory `source`, with the given
/// entries, into `dest`.
pub open spec fn plan_dir(source: Seq<u8>, dest: Seq<u8>, entries: Seq<Tree>) -> Seq<
    WalkActionView,
> {
    seq![WalkActionView::CreateDir { path: dest }, WalkActionView::OpenDir { path: source }]
        + plan_entries(source, dest, entries, entries.len()) + seq![WalkActionView::NextEntry]
}

/// The walk after a sequence of answers.
pub open spec fn after(walk: TreeWalkView, events: Seq<WalkEventView>) -> TreeWalkView
    decreases events.len(),
{
    if events.len() == 0 {
        walk
    } else {
        after(walk, events.drop_last()).advanced(events.last())
    }
}

/// The requests that the walk makes while it is given a sequence of
/// answers: the request that each answer is given to.
pub open spec fn requests(walk: TreeWalkView, events: Seq<WalkEventView>) -> Seq<WalkActionView> {
    Seq::new(events.len(), |i: int| after(walk, events.take(i)).pending)
}

/// Answers given one after the other take the walk where the first ones
/// and then the others take it.
pub proof fn lemma_after_concat(
    walk: TreeWalkView,
    first: Seq<WalkEventView>,
    second: Seq<WalkEventView>,
)
    ensures
        after(walk, first + second) == after(after(walk, first), second),
    decreases second.len(),
{
    if second.len() == 0 {
        assert(first + second =~= first);
    } else {
        lemma_after_concat(walk, first, second.drop_last());
        assert((first + second).drop_last() =~= first + second.drop_last());
        assert((first + second).last() == second.last());
    }
}

/// The requests made during a sequence of answers are those made during
/// its first part, followed by those made from there during the rest.
pub proof fn lemma_requests_concat(
    walk: TreeWalkView,
    first: Seq<WalkEventView>,
    second: Seq<WalkEventView>,
)
    ensures
        requests(walk, first + second) == requests(walk, first) + requests(
            after(walk, first),
            second,
        ),
{
    let whole = first + second;
    let left = requests(walk, whole);
    let right = requests(walk, first) + requests(after(walk, first), second);
    assert(left.len() == right.len());
    assert forall|i: int| 0 <= i < left.len() implies left[i] == right[i] by {
        if i < first.len() {
            assert(whole.take(i) =~= first.take(i));
        } else {
            let j = i - first.len();
            assert(whole.take(i) =~= first + second.take(j));
            lemma_after_concat(walk, first, second.take(j));
        }
    }
    assert(left =~= right);
}

/// One answer takes the walk one step, and is given to the pending request.
pub proof fn lemma_single(walk: TreeWalkView, event: WalkEventView)
    ensures
        after(walk, seq![event]) == walk.advanced(event),
        requests(walk, seq![event]) == seq![walk.pending],
{
    let events = seq![event];
    assert(events.drop_last() =~= Seq::<WalkEventView>::empty());
    assert(after(walk, events.drop_last()) == walk);
    assert(events.take(0) =~= Seq::<WalkEventView>::empty());
    assert(requests(walk, events) =~= seq![walk.pending]);
}

/// One more answer takes the walk one more step, and is given to the
/// request that was pending then.
pub proof fn lemma_one_more(walk: TreeWalkView, events: Seq<WalkEventView>, event: WalkEventView)
    ensures
        after(walk, events.push(event)) == after(walk, events).advanced(event),
        requests(walk, events.push(event)) == requests(walk, events).push(
            after(walk, events).pending,
        ),
{
    lemma_single(after(walk, events), event);
    lemma_after_concat(walk, events, seq![event]);
    lemma_requests_concat(walk, events, seq![event]);
    assert(events + seq![event] =~= events.push(event));
    assert(requests(walk, events) + seq![after(walk, events).pending] =~= requests(
        walk,
        events,
    ).push(after(walk, events).pending));
}

/// The walk is listing the directory `source`, which it mirrors into
/// `dest`, and `dest` does not lie below `source`.
pub open spec fn listing(walk: TreeWalkView, source: Seq<u8>, dest: Seq<u8>) -> bool {
    &&& walk.pending is NextEntry
    &&& walk.frames.len() > 0
    &&& walk.frames.last() == FrameView { source, dest }
    &&& !destination_inside_source(walk.cwd, source, dest)
}

/// While the first `count` entries of a directory are mirrored, the walk
/// makes the requests planned for them and comes back to the listing of
/// the directory.
pub proof fn lemma_walk_entries(
    walk: TreeWalkView,
    source: Seq<u8>,
    dest: Seq<u8>,
    entries: Seq<Tree>,
    count: nat,
)
    requires
        listing(walk, source, dest),
        count <= entries.len(),
        forall|i: int| 0 <= i < entries.len() ==> well_named(#[trigger] entries[i]),
    ensures
        after(walk, answers_entries(entries, count)) == walk,
        requests(walk, answers_entries(entries, count)) == plan_entries(
            source,
            dest,
            entries,
            count,
        ),
    decreases entries, count,
{
    if count == 0 {
        assert(requests(walk, Seq::<WalkEventView>::empty()) =~= Seq::<WalkActionView>::empty());
    } else {
        let shorter = (count - 1) as nat;
        let entry = entries[count - 1];
        lemma_walk_entries(walk, source, dest, entries, shorter);
        lemma_walk_entry(walk, source, dest, entry);
        lemma_after_concat(walk, answers_entries(entries, shorter), answers_entry(entry));
        lemma_requests_concat(walk, answers_entries(entries, shorter), answers_entry(entry));
    }
}

/// While one entry of a directory is mirrored, the walk makes the requests
/// planned for it and comes back to the listing of the directory.
pub proof fn lemma_walk_entry(walk: TreeWalkView, source: Seq<u8>, dest: Seq<u8>, entry: Tree)
    requires
        listing(walk, source, dest),
        well_named(entry),
    ensures
        after(walk, answers_entry(entry)) == walk,
        requests(walk, answers_entry(entry)) == plan_entry(source, dest, entry),
    decreases entry, 0nat,
{
    let none = Seq::<WalkEventView>::empty();
    assert(requests(walk, none) =~= Seq::<WalkActionView>::empty());
    match entry {
        Tree::File { name } => {
            let read = WalkEventView::Entry(DirEntryView { name, is_dir: false });
            let first = none.push(read);
            let both = first.push(WalkEventView::Completed);
            lemma_one_more(walk, none, read);
            lemma_one_more(walk, first, WalkEventView::Completed);
            assert(answers_entry(entry) =~= both);
            assert(after(walk, both) == walk);
            assert(requests(walk, both) =~= plan_entry(source, dest, entry));
        },
        Tree::Dir { name, entries } => {
            let below_source = joined(source, name);
            let below_dest = joined(dest, name);
            lemma_check_carries_down(walk.cwd, source, dest, name);
            let read = WalkEventView::Entry(DirEntryView { name, is_dir: true });
            let first = none.push(read);
            let second = first.push(WalkEventView::Completed);
            let third = second.push(WalkEventView::Completed);
            lemma_one_more(walk, none, read);
            lemma_one_more(walk, first, WalkEventView::Completed);
            lemma_one_more(walk, second, WalkEventView::Completed);
            let inside = after(walk, third);
            assert(inside.frames == walk.frames.push(
                FrameView { source: below_source, dest: below_dest },
            ));
            assert(listing(inside, below_source, below_dest));
            let inner = answers_entries(entries, entries.len());
            lemma_walk_entries(inside, below_source, below_dest, entries, entries.len());
            lemma_after_concat(walk, third, inner);
            lemma_requests_concat(walk, third, inner);
            let fourth = third + inner;
            lemma_one_more(walk, fourth, WalkEventView::EndOfDir);
            let all = fourth.push(WalkEventView::EndOfDir);
            assert(answers_entry(entry) =~= all);
            assert(inside.frames.drop_last() =~= walk.frames);
            assert(after(walk, all) == walk);
            assert(requests(walk, all) =~= plan_entry(source, dest, entry));
        },
    }
}

/// The walk mirrors a tree. Let the destination not lie below the source,
/// let every entry of the source tree have a plain name, and let the file
/// system answer every request without failure. Then the walk makes exactly
/// the requests planned for the tree, in their order: it creates the
/// destination and under it one directory for each directory of the source,
/// and copies each file of the source to the same relative path below the
/// destination. After the last answer the walk is finished.
pub proof fn lemma_walk_mirrors_tree(
    cwd: Seq<u8>,
    from: Seq<u8>,
    to: Seq<u8>,
    entries: Seq<Tree>,
)
    requires
        !destination_inside_source(cwd, from, to),
        forall|i: int| 0 <= i < entries.len() ==> well_named(#[trigger] entries[i]),
    ensures
        requests(TreeWalkView::initial(cwd, from, to), answers_dir(entries)) == plan_dir(
            from,
            to,
            entries,
        ),
        after(TreeWalkView::initial(cwd, from, to), answers_dir(entries)).pending is Finished,
        after(TreeWalkView::initial(cwd, from, to), answers_dir(entries)).frames.len() == 0,
{
    let walk = TreeWalkView::initial(cwd, from, to);
    let none = Seq::<WalkEventView>::empty();
    assert(requests(walk, none) =~= Seq::<WalkActionView>::empty());
    let first = none.push(WalkEventView::Completed);
    let second = first.push(WalkEventView::Completed);
    lemma_one_more(walk, none, WalkEventView::Completed);
    lemma_one_more(walk, first, WalkEventView::Completed);
    let inside = after(walk, second);
    assert(listing(inside, from, to));
    let inner = answers_entries(entries, entries.len());
    lemma_walk_entries(inside, from, to, entries, entries.len());
    lemma_after_concat(walk, second, inner);
    lemma_requests_concat(walk, second, inner);
    let third = second + inner;
    lemma_one_more(walk, third, WalkEventView::EndOfDir);
    let all = third.push(WalkEventView::EndOfDir);
    assert(answers_dir(entries) =~= all);
    assert(requests(walk, all) =~= plan_dir(from, to, entries));
}

/// `path` lies at `relative` below `top`: its normal form is that of
/// `top` followed by the components of `relative`. Both are taken relative
/// to the working directory `cwd`.
pub open spec fn below_by(
    cwd: Seq<u8>,
    path: Seq<u8>,
    top: Seq<u8>,
    relative: Seq<Seq<u8>>,
) -> bool {
    normalized(joined(cwd, path)) == normalized(joined(cwd, top)) + relative
}

/// `path` is `top` or lies below it, both taken relative to `cwd`.
pub open spec fn lies_under(cwd: Seq<u8>, path: Seq<u8>, top: Seq<u8>) -> bool {
    at_or_below(normalized(joined(cwd, path)), normalized(joined(cwd, top)))
}

/// The components that lead from `top` to `path`.
pub open spec fn relative_to(cwd: Seq<u8>, path: Seq<u8>, top: Seq<u8>) -> Seq<Seq<u8>> {
    normalized(joined(cwd, path)).skip(normalized(joined(cwd, top)).len() as int)
}

/// The request keeps to the mirror image: what is read lies under `from`,
/// what is written lies under `to`, and a file is copied to the relative
/// path at which it was found.
pub open spec fn mirrors(cwd: Seq<u8>, from: Seq<u8>, to: Seq<u8>, request: WalkActionView) -> bool {
    match request {
        WalkActionView::CopyFile { source, dest } => {
            &&& lies_under(cwd, source, from)
            &&& lies_under(cwd, dest, to)
            &&& relative_to(cwd, source, from) == relative_to(cwd, dest, to)
        },
        WalkActionView::CreateDir { path } => lies_under(cwd, path, to),
        WalkActionView::OpenDir { path } => lies_under(cwd, path, from),
        _ => true,
    }
}

/// A path that lies at `relative` below `top` lies under `top`, and
/// `relative` leads to it.
pub proof fn lemma_below_by(cwd: Seq<u8>, path: Seq<u8>, top: Seq<u8>, relative: Seq<Seq<u8>>)
    requires
        below_by(cwd, path, top, relative),
    ensures
        lies_under(cwd, path, top),
        relative_to(cwd, path, top) == relative,
{
    let stem = normalized(joined(cwd, top));
    assert((stem + relative).take(stem.len() as int) =~= stem);
    assert((stem + relative).skip(stem.len() as int) =~= relative);
}

/// The entry `name` of a directory lies one component further below.
pub proof fn lemma_below_child(
    cwd: Seq<u8>,
    path: Seq<u8>,
    top: Seq<u8>,
    relative: Seq<Seq<u8>>,
    name: Seq<u8>,
)
    requires
        below_by(cwd, path, top, relative),
        is_plain_name(name),
    ensures
        below_by(cwd, joined(path, name), top, relative.push(name)),
{
    lemma_joined_child(cwd, path, name);
    lemma_normalized_child(joined(cwd, path), name);
    assert((normalized(joined(cwd, top)) + relative).push(name) =~= normalized(joined(cwd, top))
        + relative.push(name));
}

/// Every request planned for the first `count` entries of a directory keeps
/// to the mirror image.
pub proof fn lemma_plan_entries_mirror(
    cwd: Seq<u8>,
    from: Seq<u8>,
    to: Seq<u8>,
    source: Seq<u8>,
    dest: Seq<u8>,
    relative: Seq<Seq<u8>>,
    entries: Seq<Tree>,
    count: nat,
)
    requires
        below_by(cwd, source, from, relative),
        below_by(cwd, dest, to, relative),
        count <= entries.len(),
        forall|i: int| 0 <= i < entries.len() ==> well_named(#[trigger] entries[i]),
    ensures
        forall|k: int|
            0 <= k < plan_entries(source, dest, entries, count).len() ==> mirrors(
                cwd,
                from,
                to,
                #[trigger] plan_entries(source, dest, entries, count)[k],
            ),
    decreases entries, count,
{
    if count > 0 {
        let shorter = (count - 1) as nat;
        lemma_plan_entries_mirror(cwd, from, to, source, dest, relative, entries, shorter);
        lemma_plan_entry_mirror(cwd, from, to, source, dest, relative, entries[count - 1]);
        let head = plan_entries(source, dest, entries, shorter);
        let tail = plan_entry(source, dest, entries[count - 1]);
        let whole = plan_entries(source, dest, entries, count);
        assert(whole == head + tail);
        assert forall|k: int| 0 <= k < whole.len() implies mirrors(cwd, from, to, #[trigger] whole[k]) by {
            if k < head.len() {
                assert(whole[k] == head[k]);
            } else {
                assert(whole[k] == tail[k - head.len()]);
            }
        }
    }
}

/// Every request planned for one entry of a directory keeps to the mirror
/// image.
pub proof fn lemma_plan_entry_mirror(
    cwd: Seq<u8>,
    from: Seq<u8>,
    to: Seq<u8>,
    source: Seq<u8>,
    dest: Seq<u8>,
    relative: Seq<Seq<u8>>,
    entry: Tree,
)
    requires
        below_by(cwd, source, from, relative),
        below_by(cwd, dest, to, relative),
        well_named(entry),
    ensures
        forall|k: int|
            0 <= k < plan_entry(source, dest, entry).len() ==> mirrors(
                cwd,
                from,
                to,
                #[trigger] plan_entry(source, dest, entry)[k],
            ),
    decreases entry, 0nat,
{
    let name = entry.name();
    let deeper = relative.push(name);
    lemma_below_child(cwd, source, from, relative, name);
    lemma_below_child(cwd, dest, to, relative, name);
    lemma_below_by(cwd, joined(source, name), from, deeper);
    lemma_below_by(cwd, joined(dest, name), to, deeper);
    let plan = plan_entry(source, dest, entry);
    match entry {
        Tree::File { name } => {
            assert forall|k: int| 0 <= k < plan.len() implies mirrors(cwd, from, to, #[trigger] plan[k]) by {
                if k == 1 {
                    assert(plan[k] == WalkActionView::CopyFile {
                        source: joined(source, name),
                        dest: joined(dest, name),
                    });
                }
            }
        },
        Tree::Dir { name, entries } => {
            lemma_plan_entries_mirror(
                cwd,
                from,
                to,
                joined(source, name),
                joined(dest, name),
                deeper,
                entries,
                entries.len(),
            );
            let head = seq![
                WalkActionView::NextEntry,
                WalkActionView::CreateDir { path: joined(dest, name) },
                WalkActionView::OpenDir { path: joined(source, name) },
            ];
            let middle = plan_entries(joined(source, name), joined(dest, name), entries, entries.len());
            let tail = seq![WalkActionView::NextEntry];
            assert(plan == head + middle + tail);
            assert forall|k: int| 0 <= k < plan.len() implies mirrors(cwd, from, to, #[trigger] plan[k]) by {
                if k < 3 {
                    assert(plan[k] == head[k]);
                } else if k < 3 + middle.len() {
                    assert(plan[k] == middle[k - 3]);
                } else {
                    assert(plan[k] == tail[k - 3 - middle.len()]);
                }
            }
        },
    }
}

/// The plan of a tree copy keeps to the mirror image: nothing is read that
/// does not lie at or below the source, nothing is written that does not
/// lie at or below the destination, and every file is copied to the
/// relative path at which it was found.
pub proof fn lemma_plan_mirrors(cwd: Seq<u8>, from: Seq<u8>, to: Seq<u8>, entries: Seq<Tree>)
    requires
        forall|i: int| 0 <= i < entries.len() ==> well_named(#[trigger] entries[i]),
    ensures
        forall|k: int|
            0 <= k < plan_dir(from, to, entries).len() ==> mirrors(
                cwd,
                from,
                to,
                #[trigger] plan_dir(from, to, entries)[k],
            ),
{
    let here = Seq::<Seq<u8>>::empty();
    assert(normalized(joined(cwd, from)) + here =~= normalized(joined(cwd, from)));
    assert(normalized(joined(cwd, to)) + here =~= normalized(joined(cwd, to)));
    lemma_below_by(cwd, from, from, here);
    lemma_below_by(cwd, to, to, here);
    lemma_plan_entries_mirror(cwd, from, to, from, to, here, entries, entries.len());
    let plan = plan_dir(from, to, entries);
    let head = seq![WalkActionView::CreateDir { path: to }, WalkActionView::OpenDir { path: from }];
    let middle = plan_entries(from, to, entries, entries.len());
    let tail = seq![WalkActionView::NextEntry];
    assert(plan == head + middle + tail);
    assert forall|k: int| 0 <= k < plan.len() implies mirrors(cwd, from, to, #[trigger] plan[k]) by {
        if k < 2 {
            assert(plan[k] == head[k]);
        } else if k < 2 + middle.len() {
            assert(plan[k] == middle[k - 2]);
        } else {
            assert(plan[k] == tail[k - 2 - middle.len()]);
        }
    }
}

/// Whether the first `count` of the `entries` of a directory hold a
/// regular file at the relative path `relative`, given as the names that
/// lead to it.
pub open spec fn has_file(entries: Seq<Tree>, count: nat, relative: Seq<Seq<u8>>) -> bool
    decreases entries, count,
{
    if count == 0 || count > entries.len() {
        false
    } else {
        has_file(entries, (count - 1) as nat, relative) || entry_has_file(
            entries[count - 1],
            relative,
        )
    }
}

/// Whether the entry is, or holds, a regular file at the relative path
/// `relative`, which begins with the entry's own name.
pub open spec fn entry_has_file(entry: Tree, relative: Seq<Seq<u8>>) -> bool
    decreases entry, 0nat,
{
    relative.len() > 0 && relative[0] == entry.name() && match entry {
        Tree::File { .. } => relative.len() == 1,
        Tree::Dir { entries, .. } => has_file(entries, entries.len(), relative.skip(1)),
    }
}

/// The path reached from `base` by going down the given names.
pub open spec fn descend(base: Seq<u8>, names: Seq<Seq<u8>>) -> Seq<u8>
    decreases names.len(),
{
    if names.len() == 0 {
        base
    } else {
        descend(joined(base, names[0]), names.skip(1))
    }
}

/// Whether the plan asks for the file `source` to be copied to `dest`.
pub open spec fn copies(plan: Seq<WalkActionView>, source: Seq<u8>, dest: Seq<u8>) -> bool {
    exists|k: int| 0 <= k < plan.len() && #[trigger] plan[k] == (WalkActionView::CopyFile {
        source,
        dest,
    })
}

/// What a part of a plan asks for, the plan asks for.
pub proof fn lemma_copies_within(
    before: Seq<WalkActionView>,
    part: Seq<WalkActionView>,
    after: Seq<WalkActionView>,
    source: Seq<u8>,
    dest: Seq<u8>,
)
    requires
        copies(part, source, dest),
    ensures
        copies(before + part + after, source, dest),
{
    let whole = before + part + after;
    let k = choose|k: int| 0 <= k < part.len() && #[trigger] part[k] == (WalkActionView::CopyFile {
        source,
        dest,
    });
    assert(whole[before.len() + k] == part[k]);
}

/// A file among the first `count` entries of a directory is copied to the
/// same relative path below the destination.
pub proof fn lemma_entries_copied(
    source: Seq<u8>,
    dest: Seq<u8>,
    entries: Seq<Tree>,
    count: nat,
    relative: Seq<Seq<u8>>,
)
    requires
        has_file(entries, count, relative),
    ensures
        copies(
            plan_entries(source, dest, entries, count),
            descend(source, relative),
            descend(dest, relative),
        ),
    decreases entries, count,
{
    let none = Seq::<WalkActionView>::empty();
    let shorter = (count - 1) as nat;
    let head = plan_entries(source, dest, entries, shorter);
    let tail = plan_entry(source, dest, entries[count - 1]);
    if has_file(entries, shorter, relative) {
        lemma_entries_copied(source, dest, entries, shorter, relative);
        lemma_copies_within(none, head, tail, descend(source, relative), descend(dest, relative));
        assert(none + head + tail =~= head + tail);
    } else {
        lemma_entry_copied(source, dest, entries[count - 1], relative);
        lemma_copies_within(head, tail, none, descend(source, relative), descend(dest, relative));
        assert(head + tail + none =~= head + tail);
    }
}

/// A file that an entry is or holds is copied to the same relative path
/// below the destination.
pub proof fn lemma_entry_copied(
    source: Seq<u8>,
    dest: Seq<u8>,
    entry: Tree,
    relative: Seq<Seq<u8>>,
)
    requires
        entry_has_file(entry, relative),
    ensures
        copies(plan_entry(source, dest, entry), descend(source, relative), descend(dest, relative)),
    decreases entry, 0nat,
{
    let plan = plan_entry(source, dest, entry);
    let rest = relative.skip(1);
    match entry {
        Tree::File { name } => {
            assert(rest.len() == 0);
            assert(descend(joined(source, name), rest) == joined(source, name));
            assert(descend(joined(dest, name), rest) == joined(dest, name));
            assert(plan[1] == WalkActionView::CopyFile {
                source: joined(source, name),
                dest: joined(dest, name),
            });
        },
        Tree::Dir { name, entries } => {
            let below_source = joined(source, name);
            let below_dest = joined(dest, name);
            lemma_entries_copied(below_source, below_dest, entries, entries.len(), rest);
            let head = seq![
                WalkActionView::NextEntry,
                WalkActionView::CreateDir { path: below_dest },
                WalkActionView::OpenDir { path: below_source },
            ];
            let middle = plan_entries(below_source, below_dest, entries, entries.len());
            let tail = seq![WalkActionView::NextEntry];
            lemma_copies_within(
                head,
                middle,
                tail,
                descend(below_source, rest),
                descend(below_dest, rest),
            );
        },
    }
}

/// Nothing is left out: every regular file of the tree, at whatever depth,
/// is copied by the plan, from its relative path below the source to the
/// same relative path below the destination.
pub proof fn lemma_every_file_is_copied(
    from: Seq<u8>,
    to: Seq<u8>,
    entries: Seq<Tree>,
    relative: Seq<Seq<u8>>,
)
    requires
        has_file(entries, entries.len(), relative),
    ensures
        copies(plan_dir(from, to, entries), descend(from, relative), descend(to, relative)),
{
    lemma_entries_copied(from, to, entries, entries.len(), relative);
    lemma_copies_within(
        seq![WalkActionView::CreateDir { path: to }, WalkActionView::OpenDir { path: from }],
        plan_entries(from, to, entries, entries.len()),
        seq![WalkActionView::NextEntry],
        descend(from, relative),
        descend(to, relative),
    );
}

/// Going down plain names from a path leads to the normal form of the
/// path followed by these names.
pub proof fn lemma_descend_normalized(cwd: Seq<u8>, base: Seq<u8>, names: Seq<Seq<u8>>)
    requires
        forall|i: int| 0 <= i < names.len() ==> is_plain_name(#[trigger] names[i]),
    ensures
        normalized(joined(cwd, descend(base, names))) == normalized(joined(cwd, base)) + names,
    decreases names.len(),
{
    if names.len() == 0 {
        assert(normalized(joined(cwd, base)) + names =~= normalized(joined(cwd, base)));
    } else {
        let first = names[0];
        let rest = names.skip(1);
        assert forall|i: int| 0 <= i < rest.len() implies is_plain_name(#[trigger] rest[i]) by {
            assert(rest[i] == names[i + 1]);
        }
        lemma_descend_normalized(cwd, joined(base, first), rest);
        lemma_joined_child(cwd, base, first);
        lemma_normalized_child(joined(cwd, base), first);
        assert(normalized(joined(cwd, base)).push(first) + rest =~= normalized(joined(cwd, base))
            + names);
    }
}

/// Neither path is the other or lies below it.
pub open spec fn apart(first: Seq<Seq<u8>>, second: Seq<Seq<u8>>) -> bool {
    !at_or_below(first, second) && !at_or_below(second, first)
}

/// No path lies at or below both of two paths that are apart.
pub proof fn lemma_apart(first: Seq<Seq<u8>>, second: Seq<Seq<u8>>, path: Seq<Seq<u8>>)
    requires
        apart(first, second),
        at_or_below(path, first),
    ensures
        !at_or_below(path, second),
{
    if at_or_below(path, second) {
        if first.len() <= second.len() {
            assert(second.take(first.len() as int) =~= path.take(second.len() as int).take(
                first.len() as int,
            ));
            assert(path.take(second.len() as int).take(first.len() as int) =~= path.take(
                first.len() as int,
            ));
        } else {
            assert(first.take(second.len() as int) =~= path.take(first.len() as int).take(
                second.len() as int,
            ));
            assert(path.take(first.len() as int).take(second.len() as int) =~= path.take(
                second.len() as int,
            ));
        }
    }
}

/// A path at or below another is that other followed by what leads from
/// it to the path.
pub proof fn lemma_under_is_extension(path: Seq<Seq<u8>>, top: Seq<Seq<u8>>)
    requires
        at_or_below(path, top),
    ensures
        path == top + path.skip(top.len() as int),
{
    assert(path =~= path.take(top.len() as int) + path.skip(top.len() as int));
}

/// The files of a file system: for each normal form of a path at which a
/// regular file lies, the content of the file.
pub type Files = Map<Seq<Seq<u8>>, Seq<u8>>;

/// The files after a request of the walk has been carried out without
/// failure. A file copy puts the content of the source at the destination,
/// byte for byte; a copy of a file that is not there, and every other
/// request, leaves the files as they are.
pub open spec fn effect(files: Files, cwd: Seq<u8>, request: WalkActionView) -> Files {
    match request {
        WalkActionView::CopyFile { source, dest } => {
            let read = normalized(joined(cwd, source));
            let written = normalized(joined(cwd, dest));
            if files.dom().contains(read) {
                files.insert(written, files[read])
            } else {
                files
            }
        },
        _ => files,
    }
}

/// The files after the requests of a plan have been carried out, one
/// after the other.
pub open spec fn carried_out(files: Files, cwd: Seq<u8>, plan: Seq<WalkActionView>) -> Files
    decreases plan.len(),
{
    if plan.len() == 0 {
        files
    } else {
        effect(carried_out(files, cwd, plan.drop_last()), cwd, plan.last())
    }
}

/// What a copy of the file `source` to `dest` in `plan` has brought about
/// in `after`: if `source` was a file in `before`, `dest` is a file with
/// the same content.
pub open spec fn copied(
    before: Files,
    after: Files,
    cwd: Seq<u8>,
    request: WalkActionView,
) -> bool {
    match request {
        WalkActionView::CopyFile { source, dest } => before.dom().contains(
            normalized(joined(cwd, source)),
        ) ==> after.dom().contains(normalized(joined(cwd, dest))) && after[normalized(
            joined(cwd, dest),
        )] == before[normalized(joined(cwd, source))],
        _ => true,
    }
}

/// Carrying out a plan that keeps to the mirror image, where source and
/// destination are apart, leaves everything at or below the source as it
/// was, and leaves at each destination of a copy the content that the
/// source of that copy had at the start.
pub proof fn lemma_carried_out(
    files: Files,
    cwd: Seq<u8>,
    from: Seq<u8>,
    to: Seq<u8>,
    plan: Seq<WalkActionView>,
)
    requires
        apart(normalized(joined(cwd, from)), normalized(joined(cwd, to))),
        forall|k: int| 0 <= k < plan.len() ==> mirrors(cwd, from, to, #[trigger] plan[k]),
    ensures
        forall|path: Seq<Seq<u8>>|
            #![trigger at_or_below(path, normalized(joined(cwd, from)))]
            at_or_below(path, normalized(joined(cwd, from))) ==> (carried_out(
                files,
                cwd,
                plan,
            ).dom().contains(path) <==> files.dom().contains(path)) && carried_out(
                files,
                cwd,
                plan,
            )[path] == files[path],
        forall|k: int|
            0 <= k < plan.len() ==> copied(
                files,
                carried_out(files, cwd, plan),
                cwd,
                #[trigger] plan[k],
            ),
    decreases plan.len(),
{
    let top_from = normalized(joined(cwd, from));
    let top_to = normalized(joined(cwd, to));
    let end = carried_out(files, cwd, plan);
    if plan.len() > 0 {
        let shorter = plan.drop_last();
        let last = plan.last();
        assert forall|k: int| 0 <= k < shorter.len() implies mirrors(
            cwd,
            from,
            to,
            #[trigger] shorter[k],
        ) by {
            assert(shorter[k] == plan[k]);
        }
        lemma_carried_out(files, cwd, from, to, shorter);
        let before = carried_out(files, cwd, shorter);
        assert(mirrors(cwd, from, to, plan[plan.len() - 1]));
        match last {
            WalkActionView::CopyFile { source, dest } => {
                let read = normalized(joined(cwd, source));
                let written = normalized(joined(cwd, dest));
                assert(at_or_below(read, top_from));
                assert(at_or_below(written, top_to));
                lemma_under_is_extension(read, top_from);
                lemma_under_is_extension(written, top_to);
                assert forall|path: Seq<Seq<u8>>|
                    #![trigger at_or_below(path, top_from)]
                    at_or_below(path, top_from) implies (end.dom().contains(path)
                    <==> files.dom().contains(path)) && end[path] == files[path] by {
                    if path == written {
                        lemma_apart(top_from, top_to, path);
                    }
                }
                assert forall|k: int| 0 <= k < plan.len() implies copied(
                    files,
                    end,
                    cwd,
                    #[trigger] plan[k],
                ) by {
                    if k < shorter.len() {
                        assert(shorter[k] == plan[k]);
                        assert(copied(files, before, cwd, shorter[k]));
                        assert(mirrors(cwd, from, to, plan[k]));
                        match plan[k] {
                            WalkActionView::CopyFile { source: earlier_source, dest: earlier_dest } => {
                                let earlier_read = normalized(joined(cwd, earlier_source));
                                let earlier_written = normalized(joined(cwd, earlier_dest));
                                if earlier_written == written {
                                    lemma_under_is_extension(earlier_read, top_from);
                                    assert(earlier_read == read);
                                }
                            },
                            _ => {},
                        }
                    }
                }
            },
            _ => {
                assert forall|k: int| 0 <= k < plan.len() implies copied(
                    files,
                    end,
                    cwd,
                    #[trigger] plan[k],
                ) by {
                    if k < shorter.len() {
                        assert(shorter[k] == plan[k]);
                    }
                }
            },
        }
    }
}

/// The names that lead to a file of a well-named tree are plain names.
pub proof fn lemma_file_path_is_plain(entries: Seq<Tree>, count: nat, relative: Seq<Seq<u8>>)
    requires
        has_file(entries, count, relative),
        forall|i: int| 0 <= i < entries.len() ==> well_named(#[trigger] entries[i]),
    ensures
        forall|i: int| 0 <= i < relative.len() ==> is_plain_name(#[trigger] relative[i]),
    decreases entries, count,
{
    let shorter = (count - 1) as nat;
    if has_file(entries, shorter, relative) {
        lemma_file_path_is_plain(entries, shorter, relative);
    } else {
        let entry = entries[count - 1];
        assert(entry_has_file(entry, relative));
        assert(well_named(entry));
        assert(is_plain_name(relative[0]));
        match entry {
            Tree::File { .. } => {},
            Tree::Dir { name, entries: inner } => {
                let rest = relative.skip(1);
                assert(has_file(inner, inner.len(), rest));
                assert forall|i: int| 0 <= i < inner.len() implies well_named(#[trigger] inner[i]) by {}
                lemma_file_path_is_plain(inner, inner.len(), rest);
                assert forall|i: int| 0 <= i < relative.len() implies is_plain_name(
                    #[trigger] relative[i],
                ) by {
                    if i > 0 {
                        assert(relative[i] == rest[i - 1]);
                    }
                }
            },
        }
    }
}

/// A tree copy gives every file of the source tree a twin. Let source and
/// destination be apart, let every entry of the source tree have a plain
/// name, and let every request that the walk makes be carried out without
/// failure. Then each regular file that the tree holds, at whatever
/// relative path, lies after the copy at the same relative path below the
/// destination with the content that it has below the source, byte for
/// byte, and what lies at or below the source is as it was.
pub proof fn lemma_copy_mirrors_files(
    files: Files,
    cwd: Seq<u8>,
    from: Seq<u8>,
    to: Seq<u8>,
    entries: Seq<Tree>,
    relative: Seq<Seq<u8>>,
)
    requires
        apart(normalized(joined(cwd, from)), normalized(joined(cwd, to))),
        forall|i: int| 0 <= i < entries.len() ==> well_named(#[trigger] entries[i]),
        has_file(entries, entries.len(), relative),
        files.dom().contains(normalized(joined(cwd, from)) + relative),
    ensures
        ({
            let asked = requests(TreeWalkView::initial(cwd, from, to), answers_dir(entries));
            let after = carried_out(files, cwd, asked);
            let source = normalized(joined(cwd, from)) + relative;
            let twin = normalized(joined(cwd, to)) + relative;
            &&& after.dom().contains(twin)
            &&& after[twin] == files[source]
            &&& after.dom().contains(source)
            &&& after[source] == files[source]
        }),
{
    let plan = plan_dir(from, to, entries);
    let top_from = normalized(joined(cwd, from));
    lemma_walk_mirrors_tree(cwd, from, to, entries);
    lemma_plan_mirrors(cwd, from, to, entries);
    lemma_carried_out(files, cwd, from, to, plan);
    lemma_every_file_is_copied(from, to, entries, relative);
    lemma_file_path_is_plain(entries, entries.len(), relative);
    lemma_descend_normalized(cwd, from, relative);
    lemma_descend_normalized(cwd, to, relative);
    let k = choose|k: int| 0 <= k < plan.len() && #[trigger] plan[k] == (WalkActionView::CopyFile {
        source: descend(from, relative),
        dest: descend(to, relative),
    });
    assert(copied(files, carried_out(files, cwd, plan), cwd, plan[k]));
    assert((top_from + relative).take(top_from.len() as int) =~= top_from);
    assert(at_or_below(top_from + relative, top_from));
}

} // verus!
