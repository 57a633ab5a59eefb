//! File names and extensions, read from the bytes of a path whose parts are
//! separated by `/`.

use vstd::prelude::*;

verus! {

/// The byte that separates the parts of a path.
pub const SEPARATOR: u8 = 47;

/// The byte that begins an extension, and of which `.` and `..` are made.
pub const DOT: u8 = 46;

/// Where the last part of `path` begins: behind its last separator, or at 0.
pub open spec fn segment_start(path: Seq<u8>) -> int
    decreases path.len(),
{
    if path.len() == 0 || path.last() == SEPARATOR {
        path.len() as int
    } else {
        segment_start(path.drop_last())
    }
}

/// The file name of `path`: its last part, separators at the end and parts `.`
/// before them left aside. It is empty where the path has no name: where it is
/// empty, is made of separators and `.` alone, or ends in `..`.
pub open spec fn file_name(path: Seq<u8>) -> Seq<u8>
    decreases path.len(),
{
    if path.len() == 0 {
        Seq::empty()
    } else if path.last() == SEPARATOR {
        file_name(path.drop_last())
    } else {
        let start = segment_start(path);
        let segment = path.skip(start);
        if segment == seq![DOT] {
            if 0 < start < path.len() {
                file_name(path.take(start))
            } else {
                Seq::empty()
            }
        } else if segment == seq![DOT, DOT] {
            Seq::empty()
        } else {
            segment
        }
    }
}

/// The index of the last dot of `name`, or -1 where it has none.
pub open spec fn last_dot(name: Seq<u8>) -> int
    decreases name.len(),
{
    if name.len() == 0 {
        -1
    } else if name.last() == DOT {
        name.len() - 1
    } else {
        last_dot(name.drop_last())
    }
}

/// The extension of `path`: what follows the last dot of its file name. There
/// is none where the name has no dot, or only the one it begins with.
pub open spec fn extension(path: Seq<u8>) -> Option<Seq<u8>> {
    let name = file_name(path);
    let dot = last_dot(name);
    if dot <= 0 {
        None
    } else {
        Some(name.skip(dot + 1))
    }
}

/// Finds the file name of `path`: the indices between which it stands.
pub fn file_name_bounds(path: &[u8]) -> (bounds: (usize, usize))
    ensures
        bounds.0 <= bounds.1 <= path@.len(),
        path@.subrange(bounds.0 as int, bounds.1 as int) == file_name(path@),
{
    let mut end: usize = path.len();
    assert(path@.take(end as int) =~= path@);
    while end > 0
        invariant
            end <= path@.len(),
            file_name(path@.take(end as int)) == file_name(path@),
        decreases end,
    {
        let ghost front = path@.take(end as int);
        if path[end - 1] == SEPARATOR {
            assert(front.drop_last() =~= path@.take(end - 1));
            end -= 1;
        } else {
            let mut start: usize = end;
            while start > 0 && path[start - 1] != SEPARATOR
                invariant
                    start <= end <= path@.len(),
                    front == path@.take(end as int),
                    segment_start(front) == segment_start(path@.take(start as int)),
                decreases start,
            {
                assert(path@.take(start as int).drop_last() =~= path@.take(start - 1));
                start -= 1;
            }
            assert(segment_start(front) == start);
            let ghost segment = front.skip(start as int);
            assert(segment =~= path@.subrange(start as int, end as int));
            if end - start == 1 && path[start] == DOT {
                assert(segment =~= seq![DOT]);
                if start == 0 {
                    assert(path@.subrange(0, 0) =~= Seq::<u8>::empty());
                    return (0, 0);
                }
                assert(front.take(start as int) =~= path@.take(start as int));
                end = start;
            } else if end - start == 2 && path[start] == DOT && path[start + 1] == DOT {
                assert(segment =~= seq![DOT, DOT]);
                assert(path@.subrange(0, 0) =~= Seq::<u8>::empty());
                return (0, 0);
            } else {
                assert(segment != seq![DOT]) by {
                    if segment == seq![DOT] {
                        assert(segment.len() == 1);
                        assert(segment[0] == DOT);
                    }
                }
                assert(segment != seq![DOT, DOT]) by {
                    if segment == seq![DOT, DOT] {
                        assert(segment.len() == 2);
                        assert(segment[0] == DOT);
                        assert(segment[1] == DOT);
                    }
                }
                return (start, end);
            }
        }
    }
    assert(path@.subrange(0, 0) =~= Seq::<u8>::empty());
    (0, 0)
}

/// Finds the extension of `path`: the indices between which it stands, if it has one.
pub fn extension_bounds(path: &[u8]) -> (bounds: Option<(usize, usize)>)
    ensures
        match bounds {
            Some((from, to)) => from <= to <= path@.len() && extension(path@) == Some(
                path@.subrange(from as int, to as int),
            ),
            None => extension(path@) is None,
        },
{
    let (from, to) = file_name_bounds(path);
    let ghost name = path@.subrange(from as int, to as int);
    let mut i: usize = to;
    assert(name.take((i - from) as int) =~= name);
    while i > from && path[i - 1] != DOT
        invariant
            from <= i <= to <= path@.len(),
            name == path@.subrange(from as int, to as int),
            last_dot(name) == last_dot(name.take((i - from) as int)),
        decreases i,
    {
        assert(name.take((i - from) as int).drop_last() =~= name.take((i - 1 - from) as int));
        i -= 1;
    }
    if i == from {
        None
    } else if i - 1 == from {
        None
    } else {
        assert(name.skip((i - from) as int) =~= path@.subrange(i as int, to as int));
        Some((i, to))
    }
}

} // verus!
