//! The order of the entries of a listing.
//!
//! A criterion decides between two entries that both have metadata; where it
//! does not decide, and wherever an entry has no metadata, their names do.

use crate::entry::{FileMetadata, RSEntry};
use crate::options::RSSort;
use crate::path::{extension, extension_bounds};
use crate::text::{
    compare_bytes, lemma_lex_le_antisymmetric, lemma_lex_le_reflexive, lemma_lex_le_total,
    lemma_lex_le_transitive, lemma_utf8_injective, lex_le, Order,
};
use vstd::prelude::*;
use vstd::slice::slice_subrange;
use vstd::utf8::encode_utf8;

verus! {

/// The bytes of an entry's name, by which names are ordered.
pub open spec fn name_key(entry: RSEntry) -> Seq<u8> {
    encode_utf8(entry.name@)
}

/// The extension by which an entry is ordered: that of its path, if it has one
/// that is not empty.
pub open spec fn extension_key(entry: RSEntry) -> Option<Seq<u8>> {
    match extension(encode_utf8(entry.path@)) {
        Some(found) => if found.len() > 0 {
            Some(found)
        } else {
            None
        },
        None => None,
    }
}

/// Whether the name of `a` comes no later than that of `b`.
pub open spec fn name_in_order(a: RSEntry, b: RSEntry) -> bool {
    lex_le(name_key(a), name_key(b))
}

/// Whether one extension comes before another: one that is there before one that is
/// missing, and of two that are there the one that comes first as text.
pub open spec fn extension_before(first: Option<Seq<u8>>, second: Option<Seq<u8>>) -> bool {
    match (first, second) {
        (Some(one), Some(other)) => lex_le(one, other) && one != other,
        (Some(_), None) => true,
        (None, _) => false,
    }
}

/// Whether the criterion by itself puts `a`, with metadata `of_a`, before `b`,
/// with metadata `of_b`: directories before the rest, the newer before the
/// older, the larger before the smaller, an extension before none and the
/// earlier extension before the later. By name nothing is decided here.
pub open spec fn key_before(
    kind: RSSort,
    a: RSEntry,
    of_a: FileMetadata,
    b: RSEntry,
    of_b: FileMetadata,
) -> bool {
    match kind {
        RSSort::Directory => of_a.is_directory && !of_b.is_directory,
        RSSort::Time => of_a.modified_time > of_b.modified_time,
        RSSort::AccessTime => of_a.accessed_time > of_b.accessed_time,
        RSSort::Size => of_a.size_bytes > of_b.size_bytes,
        RSSort::Extension => extension_before(extension_key(a), extension_key(b)),
        RSSort::Default => false,
    }
}

/// Whether `a` may stand before `b` in a listing ordered by `kind`: the
/// criterion puts it first, or it does not decide and the names are in order.
/// Where either has no metadata, the names alone decide.
pub open spec fn in_order(kind: RSSort, a: RSEntry, b: RSEntry) -> bool {
    match (a.metadata, b.metadata) {
        (Some(of_a), Some(of_b)) => key_before(kind, a, of_a, b, of_b) || (!key_before(
            kind,
            b,
            of_b,
            a,
            of_a,
        ) && name_in_order(a, b)),
        _ => name_in_order(a, b),
    }
}

/// Whether the entries can be ordered by `kind` throughout: all have metadata,
/// or none has, or the order is that of the names.
pub open spec fn comparable(entries: Seq<RSEntry>, kind: RSSort) -> bool {
    ||| kind is Default
    ||| forall|i: int| 0 <= i < entries.len() ==> (#[trigger] entries[i]).metadata is Some
    ||| forall|i: int| 0 <= i < entries.len() ==> (#[trigger] entries[i]).metadata is None
}

/// Whether each entry may stand before the one that follows it.
pub open spec fn ordered_stepwise(entries: Seq<RSEntry>, kind: RSSort) -> bool {
    forall|i: int|
        0 <= i < entries.len() - 1 ==> in_order(kind, entries[i], #[trigger] entries[i + 1])
}

/// Whether each entry may stand before every entry behind it.
pub open spec fn ordered(entries: Seq<RSEntry>, kind: RSSort) -> bool {
    forall|i: int, j: int|
        0 <= i < j < entries.len() ==> in_order(kind, #[trigger] entries[i], #[trigger] entries[j])
}

/// Of two entries one may stand before the other, whatever the criterion.
pub proof fn lemma_in_order_total(kind: RSSort, a: RSEntry, b: RSEntry)
    ensures
        in_order(kind, a, b) || in_order(kind, b, a),
{
    lemma_lex_le_total(name_key(a), name_key(b));
}

/// An entry may stand before itself.
pub proof fn lemma_in_order_reflexive(kind: RSSort, a: RSEntry)
    ensures
        in_order(kind, a, a),
{
    lemma_lex_le_reflexive(name_key(a));
}

/// Two entries that may each stand before the other have the same name: where
/// the criterion does not part two entries, their names do.
pub proof fn lemma_in_order_antisymmetric(kind: RSSort, a: RSEntry, b: RSEntry)
    requires
        in_order(kind, a, b),
        in_order(kind, b, a),
    ensures
        a.name@ == b.name@,
{
    if a.metadata is Some && b.metadata is Some {
        if kind is Extension {
            let one = extension_key(a);
            let other = extension_key(b);
            if one is Some && other is Some && lex_le(one->0, other->0) && lex_le(
                other->0,
                one->0,
            ) {
                lemma_lex_le_antisymmetric(one->0, other->0);
            }
        }
    }
    lemma_lex_le_antisymmetric(name_key(a), name_key(b));
    lemma_utf8_injective(a.name@, b.name@);
}

/// Among entries that all have metadata, or that all have none, or by name: what
/// may stand before an entry that may stand before a third may stand before
/// the third.
pub proof fn lemma_in_order_transitive(kind: RSSort, a: RSEntry, b: RSEntry, c: RSEntry)
    requires
        in_order(kind, a, b),
        in_order(kind, b, c),
        kind is Default || (a.metadata is Some <==> b.metadata is Some),
        kind is Default || (b.metadata is Some <==> c.metadata is Some),
    ensures
        in_order(kind, a, c),
{
    lemma_lex_le_total(name_key(a), name_key(b));
    lemma_lex_le_total(name_key(b), name_key(c));
    if lex_le(name_key(a), name_key(b)) && lex_le(name_key(b), name_key(c)) {
        lemma_lex_le_transitive(name_key(a), name_key(b), name_key(c));
    }
    if kind is Extension && a.metadata is Some && b.metadata is Some && c.metadata is Some {
        let x = extension_key(a);
        let y = extension_key(b);
        let z = extension_key(c);
        if x is Some && y is Some && z is Some {
            lemma_lex_le_total(x->0, y->0);
            lemma_lex_le_total(y->0, z->0);
            lemma_lex_le_total(x->0, z->0);
            if lex_le(x->0, y->0) && lex_le(y->0, z->0) {
                lemma_lex_le_transitive(x->0, y->0, z->0);
            }
            if lex_le(z->0, x->0) && lex_le(x->0, y->0) {
                lemma_lex_le_transitive(z->0, x->0, y->0);
            }
            if lex_le(y->0, z->0) && lex_le(z->0, x->0) {
                lemma_lex_le_transitive(y->0, z->0, x->0);
            }
            if lex_le(x->0, y->0) && lex_le(y->0, x->0) {
                lemma_lex_le_antisymmetric(x->0, y->0);
            }
            if lex_le(y->0, z->0) && lex_le(z->0, y->0) {
                lemma_lex_le_antisymmetric(y->0, z->0);
            }
            if lex_le(x->0, z->0) && lex_le(z->0, x->0) {
                lemma_lex_le_antisymmetric(x->0, z->0);
            }
        }
    }
}

/// Entries that can be ordered throughout, and of which each may stand before
/// the next, are in order: each may stand before all that follow.
pub proof fn lemma_stepwise_is_ordered(entries: Seq<RSEntry>, kind: RSSort)
    requires
        ordered_stepwise(entries, kind),
        comparable(entries, kind),
    ensures
        ordered(entries, kind),
{
    assert forall|i: int, j: int| 0 <= i < j < entries.len() implies in_order(
        kind,
        #[trigger] entries[i],
        #[trigger] entries[j],
    ) by {
        lemma_reaches(entries, kind, i, j);
    }
}

proof fn lemma_reaches(entries: Seq<RSEntry>, kind: RSSort, i: int, j: int)
    requires
        ordered_stepwise(entries, kind),
        comparable(entries, kind),
        0 <= i < j < entries.len(),
    ensures
        in_order(kind, entries[i], entries[j]),
    decreases j - i,
{
    if j == i + 1 {
    } else {
        lemma_reaches(entries, kind, i, j - 1);
        assert(in_order(kind, entries[j - 1], entries[j - 1 + 1]));
        lemma_in_order_transitive(kind, entries[i], entries[j - 1], entries[j]);
    }
}

/// Compares the names of two entries.
pub fn compare_names(a: &RSEntry, b: &RSEntry) -> (order: Order)
    ensures
        order == Order::Less <==> name_in_order(*a, *b) && name_key(*a) != name_key(*b),
        order == Order::Equal <==> name_key(*a) == name_key(*b),
        order == Order::Greater <==> !name_in_order(*a, *b),
{
    compare_bytes(a.name.as_str().as_bytes(), b.name.as_str().as_bytes())
}

/// Tells whether the extension of `a` comes before that of `b`.
fn extension_precedes(a: &RSEntry, b: &RSEntry) -> (before: bool)
    ensures
        before == extension_before(extension_key(*a), extension_key(*b)),
{
    let path_a = a.path.as_str().as_bytes();
    let path_b = b.path.as_str().as_bytes();
    match extension_bounds(path_a) {
        Some((from_a, to_a)) => {
            if from_a == to_a {
                return false;
            }
            match extension_bounds(path_b) {
                Some((from_b, to_b)) => {
                    if from_b == to_b {
                        return true;
                    }
                    let one = slice_subrange(path_a, from_a, to_a);
                    let other = slice_subrange(path_b, from_b, to_b);
                    match compare_bytes(one, other) {
                        Order::Less => true,
                        _ => false,
                    }
                },
                None => true,
            }
        },
        None => false,
    }
}

/// Tells whether `a` may stand before `b` in a listing ordered by `kind`.
pub fn precedes(kind: RSSort, a: &RSEntry, b: &RSEntry) -> (first: bool)
    ensures
        first == in_order(kind, *a, *b),
{
    let by_name = match compare_names(a, b) {
        Order::Greater => false,
        _ => true,
    };
    match (&a.metadata, &b.metadata) {
        (Some(meta_a), Some(meta_b)) => {
            match kind {
                RSSort::Directory => {
                    if meta_a.is_directory != meta_b.is_directory {
                        meta_a.is_directory
                    } else {
                        by_name
                    }
                },
                RSSort::Time => {
                    if meta_a.modified_time != meta_b.modified_time {
                        meta_a.modified_time > meta_b.modified_time
                    } else {
                        by_name
                    }
                },
                RSSort::AccessTime => {
                    if meta_a.accessed_time != meta_b.accessed_time {
                        meta_a.accessed_time > meta_b.accessed_time
                    } else {
                        by_name
                    }
                },
                RSSort::Size => {
                    if meta_a.size_bytes != meta_b.size_bytes {
                        meta_a.size_bytes > meta_b.size_bytes
                    } else {
                        by_name
                    }
                },
                RSSort::Extension => {
                    if extension_precedes(a, b) {
                        true
                    } else if extension_precedes(b, a) {
                        false
                    } else {
                        by_name
                    }
                },
                RSSort::Default => by_name,
            }
        },
        _ => by_name,
    }
}

} // verus!
