//! Paths as the bytes that the system knows them by.

use crate::text::decode_strict;
use vstd::prelude::*;
use vstd::slice::slice_subrange;
use vstd::utf8::{encode_utf8, valid_utf8};

verus! {

/// The byte between the parts of a path.
pub const SEPARATOR: u8 = 47;

/// The byte that a part naming its own directory is made of.
pub const DOT: u8 = 46;

/// The parts of a path between its separators, empty ones included.
pub open spec fn split_path(path: Seq<u8>) -> Seq<Seq<u8>>
    decreases path.len(),
{
    if path.len() == 0 {
        seq![seq![]]
    } else {
        let rest = split_path(path.drop_last());
        if path.last() == SEPARATOR {
            rest.push(seq![])
        } else {
            rest.drop_last().push(rest.last().push(path.last()))
        }
    }
}

/// The parts that count: not those that are empty, and not a single dot but at the
/// start.
pub open spec fn kept_parts(parts: Seq<Seq<u8>>) -> Seq<Seq<u8>>
    decreases parts.len(),
{
    if parts.len() == 0 {
        seq![]
    } else {
        let rest = kept_parts(parts.drop_last());
        let part = parts.last();
        if part.len() == 0 || (part == seq![DOT] && parts.len() > 1) {
            rest
        } else {
            rest.push(part)
        }
    }
}

/// The path starts at the root.
pub open spec fn is_rooted(path: Seq<u8>) -> bool {
    path.len() > 0 && path[0] == SEPARATOR
}

/// The components of a path.
pub open spec fn components(path: Seq<u8>) -> Seq<Seq<u8>> {
    kept_parts(split_path(path))
}

/// The two paths have the same components, from the same start.
pub open spec fn same_components(a: Seq<u8>, b: Seq<u8>) -> bool {
    is_rooted(a) == is_rooted(b) && components(a) == components(b)
}

/// The last component of a path, unless it is a dot or two.
pub open spec fn name_part(path: Seq<u8>) -> Option<Seq<u8>> {
    let parts = components(path);
    if parts.len() == 0 || parts.last() == seq![DOT] || parts.last() == seq![DOT, DOT] {
        None
    } else {
        Some(parts.last())
    }
}

/// The bytes of each part.
pub open spec fn part_views(parts: Seq<Vec<u8>>) -> Seq<Seq<u8>> {
    parts.map_values(|p: Vec<u8>| p@)
}

/// The two byte sequences are the same.
pub fn same_bytes(a: &[u8], b: &[u8]) -> (r: bool)
    ensures
        r == (a@ == b@),
{
    if a.len() != b.len() {
        return false;
    }
    for i in 0..a.len()
        invariant
            a@.len() == b@.len(),
            forall|j: int| 0 <= j < i ==> a@[j] == b@[j],
    {
        if a[i] != b[i] {
            return false;
        }
    }
    assert(a@ =~= b@);
    true
}

/// The parts of a path between its separators.
fn split_parts(path: &[u8]) -> (r: Vec<Vec<u8>>)
    ensures
        part_views(r@) == split_path(path@),
{
    let mut done: Vec<Vec<u8>> = Vec::new();
    let mut part: Vec<u8> = Vec::new();
    assert(part_views(done@).push(part@) =~= split_path(path@.take(0)));
    for i in 0..path.len()
        invariant
            part_views(done@).push(part@) == split_path(path@.take(i as int)),
    {
        let ghost before = part_views(done@);
        let ghost was = part@;
        assert(path@.take(i + 1).drop_last() =~= path@.take(i as int));
        assert(before.push(was).drop_last() =~= before);
        if path[i] == SEPARATOR {
            done.push(part);
            part = Vec::new();
            assert(part_views(done@) =~= before.push(was));
            assert(part_views(done@).push(part@) =~= split_path(path@.take(i + 1)));
        } else {
            part.push(path[i]);
            assert(part_views(done@).push(part@) =~= split_path(path@.take(i + 1)));
        }
    }
    assert(path@.take(path@.len() as int) =~= path@);
    let ghost before = part_views(done@);
    let ghost last = part@;
    done.push(part);
    assert(part_views(done@) =~= before.push(last));
    done
}

/// The components of a path.
fn path_components(path: &[u8]) -> (r: Vec<Vec<u8>>)
    ensures
        part_views(r@) == components(path@),
{
    let parts = split_parts(path);
    let ghost all = part_views(parts@);
    let mut r: Vec<Vec<u8>> = Vec::new();
    assert(part_views(r@) =~= kept_parts(all.take(0)));
    for i in 0..parts.len()
        invariant
            all == part_views(parts@),
            part_views(r@) == kept_parts(all.take(i as int)),
    {
        let ghost before = part_views(r@);
        assert(all.take(i + 1).drop_last() =~= all.take(i as int));
        let dot: [u8; 1] = [DOT];
        assert(dot@ =~= seq![DOT]);
        if parts[i].len() > 0 && !(same_bytes(parts[i].as_slice(), dot.as_slice()) && i > 0) {
            let part = copy_bytes(parts[i].as_slice());
            let ghost view = part@;
            r.push(part);
            assert(part_views(r@) =~= before.push(view));
        }
    }
    assert(all.take(parts@.len() as int) =~= all);
    r
}

/// A copy of `bytes`.
pub fn copy_bytes(bytes: &[u8]) -> (r: Vec<u8>)
    ensures
        r@ == bytes@,
{
    let mut r: Vec<u8> = Vec::new();
    for i in 0..bytes.len()
        invariant
            r@ == bytes@.take(i as int),
    {
        r.push(bytes[i]);
        assert(r@ =~= bytes@.take(i + 1));
    }
    assert(bytes@.take(bytes@.len() as int) =~= bytes@);
    r
}

/// The two paths have the same components, from the same start.
pub fn same_path(a: &[u8], b: &[u8]) -> (r: bool)
    ensures
        r == same_components(a@, b@),
{
    let rooted_a = a.len() > 0 && a[0] == SEPARATOR;
    let rooted_b = b.len() > 0 && b[0] == SEPARATOR;
    if rooted_a != rooted_b {
        return false;
    }
    let x = path_components(a);
    let y = path_components(b);
    assert(part_views(x@).len() == x@.len());
    assert(part_views(y@).len() == y@.len());
    if x.len() != y.len() {
        return false;
    }
    for i in 0..x.len()
        invariant
            x@.len() == y@.len(),
            part_views(x@) == components(a@),
            part_views(y@) == components(b@),
            forall|j: int| 0 <= j < i ==> part_views(x@)[j] == part_views(y@)[j],
    {
        if !same_bytes(x[i].as_slice(), y[i].as_slice()) {
            assert(part_views(x@)[i as int] != part_views(y@)[i as int]);
            return false;
        }
    }
    assert(part_views(x@) =~= part_views(y@));
    true
}

/// The name of the file that a path leads to: its last component, unless that is a
/// dot or two.
pub fn file_name(path: &[u8]) -> (r: Option<Vec<u8>>)
    ensures
        r is Some <==> name_part(path@) is Some,
        r is Some ==> r->0@ == name_part(path@)->0,
{
    let mut parts = path_components(path);
    assert(part_views(parts@).len() == parts@.len());
    let ghost all = part_views(parts@);
    match parts.pop() {
        Some(last) => {
            assert(last@ == all.last());
            let dot: [u8; 1] = [DOT];
            let dots: [u8; 2] = [DOT, DOT];
            assert(dot@ =~= seq![DOT]);
            assert(dots@ =~= seq![DOT, DOT]);
            if same_bytes(last.as_slice(), dot.as_slice()) || same_bytes(
                last.as_slice(),
                dots.as_slice(),
            ) {
                None
            } else {
                Some(last)
            }
        },
        None => None,
    }
}

/// What the system puts behind the path of a file that is gone.
pub open spec fn deleted_mark() -> Seq<u8> {
    encode_utf8(" (deleted)"@)
}

/// `path` without the mark of a file that is gone. A path that is not UTF-8 is left as
/// it is.
pub open spec fn without_deleted(path: Seq<u8>) -> Seq<u8> {
    if valid_utf8(path) && deleted_mark().is_suffix_of(path) {
        path.take(path.len() - deleted_mark().len())
    } else {
        path
    }
}

/// Strips the mark that a path carries when its file was replaced, so that the file
/// can be found.
pub fn strip_deleted(path: &[u8]) -> (r: Vec<u8>)
    ensures
        r@ == without_deleted(path@),
{
    let mark = " (deleted)".as_bytes();
    if mark.len() <= path.len() && decode_strict(path).is_some() {
        let start: usize = path.len() - mark.len();
        let tail = slice_subrange(path, start, path.len());
        if same_bytes(tail, mark) {
            assert(path@.subrange(0, start as int) =~= path@.take(start as int));
            return copy_bytes(slice_subrange(path, 0, start));
        }
        assert(path@.subrange(start as int, path@.len() as int) != mark@);
    }
    copy_bytes(path)
}

proof fn path_has_a_part(path: Seq<u8>)
    ensures
        split_path(path).len() > 0,
    decreases path.len(),
{
    if path.len() > 0 {
        path_has_a_part(path.drop_last());
    }
}

proof fn part_is_not_split(part: Seq<u8>)
    requires
        forall|i: int| 0 <= i < part.len() ==> part[i] != SEPARATOR,
    ensures
        split_path(part) == seq![part],
    decreases part.len(),
{
    if part.len() > 0 {
        part_is_not_split(part.drop_last());
        assert(part =~= part.drop_last().push(part.last()));
        assert(split_path(part) =~= seq![part]);
    } else {
        assert(part =~= seq![]);
    }
}

proof fn path_is_split_at_a_separator(path: Seq<u8>, part: Seq<u8>)
    requires
        forall|i: int| 0 <= i < part.len() ==> part[i] != SEPARATOR,
    ensures
        split_path(path + seq![SEPARATOR] + part) == split_path(path).push(part),
    decreases part.len(),
{
    let whole = path + seq![SEPARATOR] + part;
    if part.len() > 0 {
        path_is_split_at_a_separator(path, part.drop_last());
        assert(whole.drop_last() =~= path + seq![SEPARATOR] + part.drop_last());
        assert(part =~= part.drop_last().push(part.last()));
        assert(split_path(whole) =~= split_path(path).push(part));
    } else {
        assert(whole.drop_last() =~= path);
        assert(part =~= seq![]);
    }
}

/// The components of a path grow part by part. What stands behind a separator is one more
/// component, unless it is empty or a single dot; at the start of a path, a dot is one too.
pub proof fn components_grow_part_by_part(path: Seq<u8>, part: Seq<u8>)
    requires
        !part.contains(47),
    ensures
        components(path + seq![47u8] + part) == if part.len() == 0 || part == seq![46u8] {
            components(path)
        } else {
            components(path).push(part)
        },
        components(part) == if part.len() == 0 {
            Seq::<Seq<u8>>::empty()
        } else {
            seq![part]
        },
{
    assert forall|i: int| 0 <= i < part.len() implies part[i] != SEPARATOR by {
        assert(part.contains(part[i]));
    }
    path_has_a_part(path);
    path_is_split_at_a_separator(path, part);
    part_is_not_split(part);
    let parts = split_path(path);
    assert(parts.push(part).drop_last() =~= parts);
    reveal_with_fuel(kept_parts, 2);
    let alone = seq![part];
    assert(alone.drop_last() =~= Seq::<Seq<u8>>::empty());
    assert(components(part) =~= if part.len() == 0 {
        Seq::<Seq<u8>>::empty()
    } else {
        seq![part]
    });
}

/// The name in a path is what stands behind its last separator. Separators and single dots
/// behind it change nothing; a path that ends in two dots has none.
pub proof fn name_stands_behind_the_last_separator(path: Seq<u8>, name: Seq<u8>)
    requires
        !name.contains(47),
    ensures
        name.len() > 0 && name != seq![46u8] && name != seq![46u8, 46u8] ==> name_part(
            path + seq![47u8] + name,
        ) == Some(name) && name_part(name) == Some(name),
        name == seq![46u8, 46u8] ==> name_part(path + seq![47u8] + name) is None,
        name.len() == 0 || name == seq![46u8] ==> name_part(path + seq![47u8] + name) == name_part(
            path,
        ),
        name.len() == 0 || name == seq![46u8] || name == seq![46u8, 46u8] ==> name_part(
            name,
        ) is None,
{
    components_grow_part_by_part(path, name);
}

/// Two paths are the same if they have the same components and both start at the root, or
/// neither does. So separators too many and single dots make no difference.
pub proof fn paths_are_the_same_by_their_components(a: Seq<u8>, b: Seq<u8>)
    ensures
        same_components(a, b) <==> components(a) == components(b) && ((a.len() > 0 && a[0] == 47)
            <==> (b.len() > 0 && b[0] == 47)),
        a.len() > 0 ==> same_components(a, a + seq![47u8]) && same_components(a, a + seq![47u8, 46u8]),
{
    let none: Seq<u8> = seq![];
    let dot = seq![46u8];
    assert forall|i: int| 0 <= i < dot.len() implies dot[i] != 47 by {}
    components_grow_part_by_part(a, none);
    components_grow_part_by_part(a, dot);
    assert(a + seq![47u8] + none =~= a + seq![47u8]);
    assert(a + seq![47u8] + dot =~= a + seq![47u8, 46u8]);
}

/// The mark of a file that is gone is taken off the end of its path, once; a path without
/// the mark stays, and so does one that is not UTF-8.
pub proof fn mark_of_a_gone_file_is_taken_off(path: Seq<u8>)
    ensures
        valid_utf8(path + encode_utf8(" (deleted)"@)) ==> without_deleted(
            path + encode_utf8(" (deleted)"@),
        ) == path,
        !encode_utf8(" (deleted)"@).is_suffix_of(path) ==> without_deleted(path) == path,
        !valid_utf8(path) ==> without_deleted(path) == path,
{
    let mark = encode_utf8(" (deleted)"@);
    let whole = path + mark;
    assert(whole.subrange(whole.len() - mark.len(), whole.len() as int) =~= mark);
    assert(whole.take(whole.len() - mark.len()) =~= path);
}

} // verus!
