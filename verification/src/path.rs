//! Lexical model of slash-separated paths. A path is a sequence of bytes,
//! as the file system holds it: how it falls into segments, and what
//! remains of them once `.` and `..` are resolved.

use vstd::prelude::*;

verus! {

/// The byte that separates the segments of a path: `/`.
pub const SEPARATOR: u8 = 47;

/// The byte of which the segments `.` and `..` are made.
pub const DOT: u8 = 46;

/// The segment that stands for the directory itself.
pub open spec fn dot() -> Seq<u8> {
    seq![DOT]
}

/// The segment that stands for the parent directory.
pub open spec fn dot_dot() -> Seq<u8> {
    seq![DOT, DOT]
}

/// The component that stands for the root directory.
pub open spec fn root() -> Seq<u8> {
    seq![SEPARATOR]
}

/// A path is absolute when it begins with the separator.
pub open spec fn is_absolute(path: Seq<u8>) -> bool {
    path.len() > 0 && path[0] == SEPARATOR
}

/// The pieces of `path` between its separators, empty pieces included:
/// a path with `n` separators has `n + 1` segments.
pub open spec fn segments(path: Seq<u8>) -> Seq<Seq<u8>>
    decreases path.len(),
{
    if path.len() == 0 {
        seq![Seq::<u8>::empty()]
    } else {
        let before = segments(path.drop_last());
        if path.last() == SEPARATOR {
            before.push(Seq::<u8>::empty())
        } else {
            before.drop_last().push(before.last().push(path.last()))
        }
    }
}

/// A segment that names an entry: not empty, not `.`, not `..`, and free of
/// separators.
pub open spec fn is_plain_name(name: Seq<u8>) -> bool {
    &&& name.len() > 0
    &&& name != dot()
    &&& name != dot_dot()
    &&& forall|i: int| 0 <= i < name.len() ==> name[i] != SEPARATOR
}

/// The effect of one segment on the names resolved so far: empty segments
/// and `.` change nothing, `..` drops the last name if there is one, any
/// other segment is added.
pub open spec fn apply_segment(names: Seq<Seq<u8>>, segment: Seq<u8>) -> Seq<Seq<u8>> {
    if segment.len() == 0 || segment == dot() {
        names
    } else if segment == dot_dot() {
        if names.len() > 0 {
            names.drop_last()
        } else {
            names
        }
    } else {
        names.push(segment)
    }
}

/// The names that remain when the segments are applied from left to right.
pub open spec fn resolve(segs: Seq<Seq<u8>>) -> Seq<Seq<u8>>
    decreases segs.len(),
{
    if segs.len() == 0 {
        Seq::<Seq<u8>>::empty()
    } else {
        apply_segment(resolve(segs.drop_last()), segs.last())
    }
}

/// The components of the normal form of `path`: the root, if the path is
/// absolute, followed by the names that survive `.` and `..`.
pub open spec fn normalized(path: Seq<u8>) -> Seq<Seq<u8>> {
    if is_absolute(path) {
        seq![root()] + resolve(segments(path))
    } else {
        resolve(segments(path))
    }
}

/// `base` extended by `path`: an absolute `path` replaces `base`; otherwise
/// the two are put together, with a separator between them unless `base` is
/// empty or already ends in one.
pub open spec fn joined(base: Seq<u8>, path: Seq<u8>) -> Seq<u8> {
    if is_absolute(path) {
        path
    } else if base.len() > 0 && base.last() != SEPARATOR {
        base.push(SEPARATOR) + path
    } else {
        base + path
    }
}

/// The last segment that is neither empty nor `.`, if there is one.
pub open spec fn last_meaningful(segs: Seq<Seq<u8>>) -> Option<Seq<u8>>
    decreases segs.len(),
{
    if segs.len() == 0 {
        None
    } else if segs.last().len() > 0 && segs.last() != dot() {
        Some(segs.last())
    } else {
        last_meaningful(segs.drop_last())
    }
}

/// The final name of `path`: its last meaningful segment, unless that is
/// `..` or the path has none.
pub open spec fn file_name_of(path: Seq<u8>) -> Option<Seq<u8>> {
    match last_meaningful(segments(path)) {
        Some(name) => if name == dot_dot() {
            None
        } else {
            Some(name)
        },
        None => None,
    }
}

/// The byte sequences held by a vector of paths or names.
pub open spec fn contents(v: Seq<Vec<u8>>) -> Seq<Seq<u8>> {
    Seq::new(v.len(), |i: int| v[i]@)
}

/// The given bytes in a vector of their own.
pub fn copy_bytes(bytes: &[u8]) -> (out: Vec<u8>)
    ensures
        out@ == bytes@,
{
    let mut out: Vec<u8> = Vec::new();
    let mut i: usize = 0;
    while i < bytes.len()
        invariant
            i <= bytes.len(),
            out@ == bytes@.take(i as int),
        decreases bytes.len() - i,
    {
        out.push(bytes[i]);
        assert(out@ =~= bytes@.take(i + 1));
        i = i + 1;
    }
    assert(bytes@.take(bytes.len() as int) =~= bytes@);
    out
}

/// Puts `more` behind what `out` holds.
pub fn append_bytes(out: &mut Vec<u8>, more: &[u8])
    ensures
        final(out)@ == old(out)@ + more@,
{
    let mut i: usize = 0;
    assert(out@ =~= old(out)@ + more@.take(0));
    while i < more.len()
        invariant
            i <= more.len(),
            out@ == old(out)@ + more@.take(i as int),
        decreases more.len() - i,
    {
        out.push(more[i]);
        assert(out@ =~= old(out)@ + more@.take(i + 1));
        i = i + 1;
    }
    assert(more@.take(more.len() as int) =~= more@);
}

/// Whether two byte strings are the same.
pub fn same_bytes(first: &[u8], second: &[u8]) -> (same: bool)
    ensures
        same == (first@ == second@),
{
    if first.len() != second.len() {
        return false;
    }
    let mut i: usize = 0;
    while i < first.len()
        invariant
            i <= first.len(),
            first.len() == second.len(),
            forall|j: int| 0 <= j < i ==> first@[j] == second@[j],
        decreases first.len() - i,
    {
        if first[i] != second[i] {
            return false;
        }
        i = i + 1;
    }
    assert(first@ =~= second@);
    true
}

/// Whether a segment is `.`.
pub fn is_dot(segment: &[u8]) -> (yes: bool)
    ensures
        yes == (segment@ == dot()),
{
    let yes = segment.len() == 1 && segment[0] == DOT;
    assert(yes ==> segment@ =~= dot());
    assert(segment@ == dot() ==> segment@.len() == 1 && segment@[0] == DOT);
    yes
}

/// Whether a segment is `..`.
pub fn is_dot_dot(segment: &[u8]) -> (yes: bool)
    ensures
        yes == (segment@ == dot_dot()),
{
    let yes = segment.len() == 2 && segment[0] == DOT && segment[1] == DOT;
    assert(yes ==> segment@ =~= dot_dot());
    assert(segment@ == dot_dot() ==> segment@.len() == 2 && segment@[0] == DOT && segment@[1]
        == DOT);
    yes
}

/// Splits `path` at its separators.
pub fn split_segments(path: &[u8]) -> (segs: Vec<Vec<u8>>)
    ensures
        contents(segs@) == segments(path@),
{
    let mut segs: Vec<Vec<u8>> = Vec::new();
    let mut current: Vec<u8> = Vec::new();
    let mut pos: usize = 0;
    assert(path@.take(0) =~= Seq::<u8>::empty());
    assert(contents(segs@).push(current@) =~= segments(path@.take(0)));
    while pos < path.len()
        invariant
            pos <= path.len(),
            contents(segs@).push(current@) == segments(path@.take(pos as int)),
        decreases path.len() - pos,
    {
        let ghost before = segments(path@.take(pos as int));
        let ghost held = contents(segs@);
        let c = path[pos];
        assert(path@.take(pos + 1).drop_last() =~= path@.take(pos as int));
        assert(path@.take(pos + 1).last() == c);
        if c == SEPARATOR {
            segs.push(current);
            current = Vec::new();
            assert(contents(segs@) =~= before);
        } else {
            current.push(c);
            assert(before.drop_last() =~= held);
        }
        pos = pos + 1;
    }
    assert(path@.take(path.len() as int) =~= path@);
    let ghost done = contents(segs@).push(current@);
    segs.push(current);
    assert(contents(segs@) =~= done);
    segs
}

/// Whether `path` begins with the separator.
pub fn starts_at_root(path: &[u8]) -> (absolute: bool)
    ensures
        absolute == is_absolute(path@),
{
    path.len() > 0 && path[0] == SEPARATOR
}

/// Extends `base` by `path`, as a directory is extended by the name of an
/// entry: an absolute `path` stands alone.
pub fn join_path(base: &[u8], path: &[u8]) -> (out: Vec<u8>)
    ensures
        out@ == joined(base@, path@),
{
    if starts_at_root(path) {
        return copy_bytes(path);
    }
    let mut out = copy_bytes(base);
    if base.len() > 0 && base[base.len() - 1] != SEPARATOR {
        out.push(SEPARATOR);
    }
    append_bytes(&mut out, path);
    out
}

/// A path in normal form: the root, if any, and then plain names. Two paths
/// name the same place, lexically, exactly when their normal forms are equal.
#[derive(Debug, PartialEq, Eq)]
pub struct NormalizedPath {
    pub components: Vec<Vec<u8>>,
}

impl View for NormalizedPath {
    type V = Seq<Seq<u8>>;

    open spec fn view(&self) -> Seq<Seq<u8>> {
        contents(self.components@)
    }
}

/// `inner` lies below `outer`: it is `outer` followed by at least one more
/// component.
pub open spec fn strictly_inside(inner: Seq<Seq<u8>>, outer: Seq<Seq<u8>>) -> bool {
    outer.len() < inner.len() && inner.take(outer.len() as int) == outer
}

impl NormalizedPath {
    /// Whether this path lies below `outer`, component by component.
    pub fn is_strictly_inside(&self, outer: &NormalizedPath) -> (inside: bool)
        ensures
            inside == strictly_inside(self@, outer@),
    {
        let n = outer.components.len();
        if self.components.len() <= n {
            return false;
        }
        let mut i: usize = 0;
        while i < n
            invariant
                i <= n,
                n == outer.components@.len(),
                n < self.components@.len(),
                forall|j: int| 0 <= j < i ==> self.components@[j]@ == outer.components@[j]@,
            decreases n - i,
        {
            if !same_bytes(self.components[i].as_slice(), outer.components[i].as_slice()) {
                assert(self@.take(n as int)[i as int] != outer@[i as int]);
                return false;
            }
            i = i + 1;
        }
        assert(self@.take(n as int) =~= outer@);
        true
    }
}

/// The final name of `path`, if it has one.
pub fn file_name(path: &[u8]) -> (name: Option<Vec<u8>>)
    ensures
        match name {
            Some(bytes) => file_name_of(path@) == Some(bytes@),
            None => file_name_of(path@) is None,
        },
{
    let segs = split_segments(path);
    let mut found: Option<usize> = None;
    let mut i: usize = 0;
    while i < segs.len()
        invariant
            i <= segs.len(),
            match found {
                Some(k) => k < i && last_meaningful(contents(segs@).take(i as int)) == Some(
                    segs@[k as int]@,
                ),
                None => last_meaningful(contents(segs@).take(i as int)) is None,
            },
        decreases segs.len() - i,
    {
        assert(contents(segs@).take(i + 1).drop_last() =~= contents(segs@).take(i as int));
        assert(contents(segs@).take(i + 1).last() == segs@[i as int]@);
        if segs[i].len() > 0 && !is_dot(segs[i].as_slice()) {
            found = Some(i);
        }
        i = i + 1;
    }
    assert(contents(segs@).take(segs.len() as int) =~= contents(segs@));
    match found {
        Some(k) => {
            if is_dot_dot(segs[k].as_slice()) {
                None
            } else {
                Some(copy_bytes(segs[k].as_slice()))
            }
        },
        None => None,
    }
}

/// Every path has at least one segment, and no segment holds a separator.
pub proof fn lemma_segments_shape(path: Seq<u8>)
    ensures
        segments(path).len() >= 1,
        forall|k: int, i: int|
            0 <= k < segments(path).len() && 0 <= i < segments(path)[k].len() ==> segments(
                path,
            )[k][i] != SEPARATOR,
    decreases path.len(),
{
    if path.len() > 0 {
        lemma_segments_shape(path.drop_last());
    }
}

/// Bytes that are not separators lengthen the last segment and leave
/// the others alone.
pub proof fn lemma_segments_extend(path: Seq<u8>, tail: Seq<u8>)
    requires
        forall|i: int| 0 <= i < tail.len() ==> tail[i] != SEPARATOR,
    ensures
        segments(path + tail) == segments(path).drop_last().push(segments(path).last() + tail),
    decreases tail.len(),
{
    lemma_segments_shape(path);
    let segs = segments(path);
    if tail.len() == 0 {
        assert(path + tail =~= path);
        assert(segs.last() + tail =~= segs.last());
        assert(segs.drop_last().push(segs.last()) =~= segs);
    } else {
        let shorter = tail.drop_last();
        lemma_segments_extend(path, shorter);
        assert((path + tail).drop_last() =~= path + shorter);
        assert((path + tail).last() == tail.last());
        let before = segments(path + shorter);
        assert(before.drop_last() =~= segs.drop_last());
        assert(before.last().push(tail.last()) =~= segs.last() + tail);
    }
}

/// A plain name put behind a directory adds one component to the
/// directory's normal form, and changes nothing else of it.
pub proof fn lemma_normalized_child(base: Seq<u8>, name: Seq<u8>)
    requires
        is_plain_name(name),
    ensures
        normalized(joined(base, name)) == normalized(base).push(name),
{
    let whole = joined(base, name);
    let empty = Seq::<u8>::empty();
    assert(!is_absolute(name));
    lemma_segments_shape(base);
    if base.len() == 0 {
        assert(whole =~= name);
        assert(empty + name =~= name);
        lemma_segments_extend(empty, name);
        assert(segments(empty) =~= seq![empty]);
        assert(segments(name) =~= seq![name]);
        assert(segments(name).drop_last() =~= Seq::<Seq<u8>>::empty());
        assert(segments(empty).drop_last() =~= Seq::<Seq<u8>>::empty());
        assert(base =~= empty);
        assert(normalized(whole) =~= normalized(base).push(name));
    } else if base.last() != SEPARATOR {
        let stem = base.push(SEPARATOR);
        assert(stem.drop_last() =~= base);
        assert(segments(stem) == segments(base).push(empty));
        lemma_segments_extend(stem, name);
        assert(segments(stem).drop_last() =~= segments(base));
        assert(empty + name =~= name);
        assert(segments(whole) == segments(base).push(name));
        assert(segments(whole).drop_last() =~= segments(base));
        assert(whole[0] == base[0]);
        assert(normalized(whole) =~= normalized(base).push(name));
    } else {
        let segs = segments(base);
        assert(segs == segments(base.drop_last()).push(empty));
        lemma_segments_extend(base, name);
        assert(segs.last() + name =~= name);
        assert(segments(whole) == segs.drop_last().push(name));
        assert(segments(whole).drop_last() =~= segs.drop_last());
        assert(resolve(segs) == resolve(segs.drop_last()));
        assert(whole[0] == base[0]);
        assert(normalized(whole) =~= normalized(base).push(name));
    }
}

/// Joining is associative where the last part is a plain name: the child
/// of a directory is found from any working directory as the directory is.
pub proof fn lemma_joined_child(cwd: Seq<u8>, base: Seq<u8>, name: Seq<u8>)
    requires
        is_plain_name(name),
    ensures
        joined(cwd, joined(base, name)) == joined(joined(cwd, base), name),
{
    assert(!is_absolute(name));
    let inner = joined(base, name);
    let outer = joined(cwd, base);
    if is_absolute(base) {
        assert(inner[0] == base[0]);
    } else if base.len() == 0 {
        assert(inner =~= name);
        if cwd.len() > 0 && cwd.last() != SEPARATOR {
            assert(outer =~= cwd.push(SEPARATOR));
            assert(joined(outer, name) =~= joined(cwd, inner));
        } else {
            assert(outer =~= cwd);
        }
    } else {
        assert(inner[0] == base[0]);
        assert(outer.len() > 0 && outer.last() == base.last());
        assert(joined(outer, name) =~= joined(cwd, inner));
    }
}

/// If one path does not lie below another, then neither does its child lie
/// below the other's child of the same name.
pub proof fn lemma_not_inside_child(inner: Seq<Seq<u8>>, outer: Seq<Seq<u8>>, name: Seq<u8>)
    requires
        !strictly_inside(inner, outer),
    ensures
        !strictly_inside(inner.push(name), outer.push(name)),
{
    if strictly_inside(inner.push(name), outer.push(name)) {
        let n = outer.len() as int;
        assert(inner.push(name).take(n + 1) == outer.push(name));
        assert forall|i: int| 0 <= i < n implies inner.take(n)[i] == outer[i] by {
            assert(inner.push(name).take(n + 1)[i] == outer.push(name)[i]);
        }
        assert(inner.take(n) =~= outer);
    }
}

/// The last meaningful segment, where there is one, is one of the
/// segments, and is neither empty nor `.`.
pub proof fn lemma_last_meaningful(segs: Seq<Seq<u8>>)
    ensures
        match last_meaningful(segs) {
            Some(name) => name.len() > 0 && name != dot() && exists|k: int|
                0 <= k < segs.len() && segs[k] == name,
            None => true,
        },
    decreases segs.len(),
{
    if segs.len() > 0 {
        if segs.last().len() > 0 && segs.last() != dot() {
            assert(segs[segs.len() - 1] == segs.last());
        } else {
            lemma_last_meaningful(segs.drop_last());
            match last_meaningful(segs.drop_last()) {
                Some(name) => {
                    let k = choose|k: int|
                        0 <= k < segs.drop_last().len() && segs.drop_last()[k] == name;
                    assert(segs[k] == name);
                },
                None => {},
            }
        }
    }
}

/// The final name of a path is a plain name.
pub proof fn lemma_file_name_is_plain(path: Seq<u8>)
    ensures
        match file_name_of(path) {
            Some(name) => is_plain_name(name),
            None => true,
        },
{
    lemma_last_meaningful(segments(path));
    lemma_segments_shape(path);
}

/// `path` is `top` or lies below it.
pub open spec fn at_or_below(path: Seq<Seq<u8>>, top: Seq<Seq<u8>>) -> bool {
    top.len() <= path.len() && path.take(top.len() as int) == top
}

/// Two entries of one directory with different names head disjoint
/// subtrees: no path is at or below both.
pub proof fn lemma_siblings_apart(base: Seq<u8>, first: Seq<u8>, second: Seq<u8>)
    requires
        is_plain_name(first),
        is_plain_name(second),
        first != second,
    ensures
        forall|path: Seq<Seq<u8>>|
            #![trigger at_or_below(path, normalized(joined(base, first)))]
            !(at_or_below(path, normalized(joined(base, first))) && at_or_below(
                path,
                normalized(joined(base, second)),
            )),
{
    lemma_normalized_child(base, first);
    lemma_normalized_child(base, second);
    let stem = normalized(base);
    let a = stem.push(first);
    let b = stem.push(second);
    assert forall|path: Seq<Seq<u8>>| !(at_or_below(path, a) && at_or_below(path, b)) by {
        if at_or_below(path, a) && at_or_below(path, b) {
            assert(path.take(a.len() as int)[stem.len() as int] == first);
            assert(path.take(b.len() as int)[stem.len() as int] == second);
        }
    }
}

} // verus!
