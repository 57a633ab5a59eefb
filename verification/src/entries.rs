//! The entries of one listing: their total of blocks, their order, their rows.

use crate::entry::{row_of, Environment, FileMetadata, RSEntry};
use crate::options::{Options, RSSort};
use crate::order::{
    comparable, in_order, lemma_in_order_total, lemma_stepwise_is_ordered, ordered,
    ordered_stepwise, precedes,
};
use vstd::prelude::*;
use vstd::seq_lib::*;

verus! {

/// The number of blocks that make one unit of the total.
pub const MB_BYTES: u64 = 1024;

/// The entries of a listing and the total that stands above its long form.
#[derive(Debug)]
pub struct RSEntries {
    /// The entries, in the order in which they are shown.
    pub entries: Vec<RSEntry>,
    /// The total of the entries' blocks, in units of `MB_BYTES` blocks.
    pub block_size: u128,
}

/// What was found under one name of a directory.
#[derive(Debug)]
pub struct Found {
    /// The name.
    pub name: String,
    /// Where the entry lies.
    pub path: String,
    /// What the file system told of it, or why it told nothing.
    pub metadata: Result<FileMetadata, String>,
}

/// The entry that is listed for what was found: without metadata where the
/// file system told nothing.
pub open spec fn entry_of(found: Found) -> RSEntry {
    RSEntry {
        name: found.name,
        path: found.path,
        metadata: match found.metadata {
            Ok(metadata) => Some(metadata),
            Err(_) => None,
        },
    }
}

/// The entries that are listed for what was found, in the same order.
pub open spec fn entries_of(found: Seq<Found>) -> Seq<RSEntry> {
    Seq::new(found.len(), |i: int| entry_of(found[i]))
}

/// The reasons for which the file system told nothing of an entry, in the
/// order of the entries.
pub open spec fn failures_of(found: Seq<Found>) -> Seq<Seq<char>>
    decreases found.len(),
{
    if found.len() == 0 {
        Seq::empty()
    } else {
        match found.last().metadata {
            Ok(_) => failures_of(found.drop_last()),
            Err(reason) => failures_of(found.drop_last()).push(reason@),
        }
    }
}

/// What an entry adds to the total: its blocks in whole units, and nothing
/// where it has no metadata.
pub open spec fn block_units(entry: RSEntry) -> nat {
    match entry.metadata {
        Some(metadata) => (metadata.block_count / MB_BYTES) as nat,
        None => 0,
    }
}

/// The total of the entries' blocks, each entry counted in whole units.
pub open spec fn total_blocks(entries: Seq<RSEntry>) -> nat
    decreases entries.len(),
{
    if entries.len() == 0 {
        0
    } else {
        total_blocks(entries.drop_last()) + block_units(entries.last())
    }
}

/// The rows of the entries, one for each, in their order.
pub open spec fn rows_of(entries: Seq<RSEntry>, options: Options, env: Environment) -> Seq<
    Seq<Seq<char>>,
> {
    Seq::new(entries.len(), |i: int| row_of(entries[i], options, env))
}

/// Whether each entry may stand behind the one that follows it.
pub open spec fn ordered_backwards(entries: Seq<RSEntry>, kind: RSSort) -> bool {
    forall|i: int|
        0 <= i < entries.len() - 1 ==> in_order(kind, #[trigger] entries[i + 1], entries[i])
}

/// Entries with the same members can be ordered throughout if the others can.
proof fn lemma_comparable_members(before: Seq<RSEntry>, after: Seq<RSEntry>, kind: RSSort)
    requires
        before.to_multiset() == after.to_multiset(),
        comparable(before, kind),
    ensures
        comparable(after, kind),
{
    broadcast use group_to_multiset_ensures;

    assert forall|i: int| 0 <= i < after.len() implies before.contains(#[trigger] after[i]) by {
        assert(after.to_multiset().count(after[i]) > 0);
    }
}

/// Turns a list of entries round.
fn turned(entries: Vec<RSEntry>) -> (back: Vec<RSEntry>)
    ensures
        back@ == entries@.reverse(),
{
    let ghost whole = entries@;
    let mut rest = entries;
    let mut back: Vec<RSEntry> = Vec::new();
    while rest.len() > 0
        invariant
            rest@ == whole.take(rest@.len() as int),
            back@.len() + rest@.len() == whole.len(),
            forall|k: int| 0 <= k < back@.len() ==> back@[k] == whole[whole.len() - 1 - k],
        decreases rest@.len(),
    {
        match rest.pop() {
            Some(entry) => {
                back.push(entry);
            },
            None => {},
        }
    }
    back
}

/// Puts two ordered lists together into one. The greatest entry is taken
/// first, from the end of one of the two lists; of two that may each stand
/// before the other, the one from `right`. The entries taken are turned round
/// at the end.
fn merge(left: Vec<RSEntry>, right: Vec<RSEntry>, kind: RSSort) -> (merged: Vec<RSEntry>)
    requires
        ordered_stepwise(left@, kind),
        ordered_stepwise(right@, kind),
    ensures
        merged@.to_multiset() == left@.to_multiset().add(right@.to_multiset()),
        ordered_stepwise(merged@, kind),
{
    broadcast use {group_to_multiset_ensures, vstd::multiset::group_multiset_axioms};

    let ghost all = left@.to_multiset().add(right@.to_multiset());
    let mut left = left;
    let mut right = right;
    let mut backwards: Vec<RSEntry> = Vec::new();
    while left.len() > 0 || right.len() > 0
        invariant
            ordered_stepwise(left@, kind),
            ordered_stepwise(right@, kind),
            ordered_backwards(backwards@, kind),
            backwards@.to_multiset().add(left@.to_multiset()).add(right@.to_multiset()) == all,
            backwards@.len() > 0 && left@.len() > 0 ==> in_order(
                kind,
                left@.last(),
                backwards@.last(),
            ),
            backwards@.len() > 0 && right@.len() > 0 ==> in_order(
                kind,
                right@.last(),
                backwards@.last(),
            ),
        decreases left@.len() + right@.len(),
    {
        let ghost old_left = left@;
        let ghost old_right = right@;
        let ghost old_backwards = backwards@;
        let from_right = if left.len() == 0 {
            true
        } else if right.len() == 0 {
            false
        } else {
            precedes(kind, &left[left.len() - 1], &right[right.len() - 1])
        };
        if from_right {
            let ghost n = old_right.len() as int;
            match right.pop() {
                Some(entry) => {
                    backwards.push(entry);
                    proof {
                        assert(old_right =~= right@.push(entry));
                        to_multiset_build(right@, entry);
                        to_multiset_build(old_backwards, entry);
                        if right@.len() > 0 {
                            assert(in_order(kind, old_right[n - 2], old_right[(n - 2) + 1]));
                        }
                    }
                },
                None => {},
            }
        } else {
            let ghost n = old_left.len() as int;
            proof {
                if right@.len() > 0 {
                    lemma_in_order_total(kind, left@.last(), right@.last());
                }
            }
            match left.pop() {
                Some(entry) => {
                    backwards.push(entry);
                    proof {
                        assert(old_left =~= left@.push(entry));
                        to_multiset_build(left@, entry);
                        to_multiset_build(old_backwards, entry);
                        if left@.len() > 0 {
                            assert(in_order(kind, old_left[n - 2], old_left[(n - 2) + 1]));
                        }
                    }
                },
                None => {},
            }
        }
        proof {
            assert(backwards@.to_multiset().add(left@.to_multiset()).add(right@.to_multiset())
                =~= old_backwards.to_multiset().add(old_left.to_multiset()).add(
                old_right.to_multiset(),
            ));
        }
    }
    let merged = turned(backwards);
    proof {
        backwards@.lemma_reverse_to_multiset();
        assert forall|i: int| 0 <= i < merged@.len() - 1 implies in_order(
            kind,
            merged@[i],
            #[trigger] merged@[i + 1],
        ) by {
            let n = backwards@.len();
            assert(in_order(kind, backwards@[(n - 2 - i) + 1], backwards@[n - 2 - i]));
        }
    }
    merged
}

/// Orders a list of entries: halves it, orders each half, and puts the two together.
fn merge_sort(entries: Vec<RSEntry>, kind: RSSort) -> (sorted: Vec<RSEntry>)
    ensures
        sorted@.to_multiset() == entries@.to_multiset(),
        ordered_stepwise(sorted@, kind),
    decreases entries@.len(),
{
    if entries.len() <= 1 {
        return entries;
    }
    let ghost whole = entries@;
    let mut left = entries;
    let middle = left.len() / 2;
    let right = left.split_off(middle);
    proof {
        assert(whole =~= left@ + right@);
        lemma_multiset_commutative(left@, right@);
    }
    let left_sorted = merge_sort(left, kind);
    let right_sorted = merge_sort(right, kind);
    merge(left_sorted, right_sorted, kind)
}

/// Gathers the entries of a listing and adds up their blocks. An entry of
/// which the file system told nothing is listed without metadata, and the
/// reason is handed back beside the entries.
pub fn get_entries(dir_entries: Vec<Found>) -> (gathered: (RSEntries, Vec<String>))
    ensures
        gathered.0.entries@ == entries_of(dir_entries@),
        gathered.0.block_size == total_blocks(entries_of(dir_entries@)),
        gathered.1.deep_view() == failures_of(dir_entries@),
{
    let ghost all = entries_of(dir_entries@);
    let mut block_size: u128 = 0;
    let mut rs_entries: Vec<RSEntry> = Vec::new();
    let mut failures: Vec<String> = Vec::new();
    let mut i: usize = 0;
    while i < dir_entries.len()
        invariant
            i <= dir_entries@.len(),
            all == entries_of(dir_entries@),
            rs_entries@ == all.take(i as int),
            failures.deep_view() == failures_of(dir_entries@.take(i as int)),
            block_size == total_blocks(all.take(i as int)),
            block_size <= i * 0x40_0000_0000_0000,
        decreases dir_entries@.len() - i,
    {
        let dir_entry = &dir_entries[i];
        assert(all.take(i + 1).drop_last() =~= all.take(i as int));
        assert(dir_entries@.take(i + 1).drop_last() =~= dir_entries@.take(i as int));
        let metadata = match &dir_entry.metadata {
            Ok(meta) => {
                block_size = block_size + (meta.block_count / MB_BYTES) as u128;
                Some(*meta)
            },
            Err(err) => {
                failures.push(err.clone());
                None
            },
        };
        rs_entries.push(
            RSEntry { name: dir_entry.name.clone(), path: dir_entry.path.clone(), metadata },
        );
        i += 1;
    }
    assert(all.take(i as int) =~= all);
    assert(dir_entries@.take(i as int) =~= dir_entries@);
    (RSEntries { entries: rs_entries, block_size }, failures)
}

impl RSEntries {
    /// Puts the entries in the order of `kind`. The same entries are there
    /// afterwards, and each may stand before the one that follows it. Where
    /// the entries can be ordered throughout, each may stand before all that
    /// follow it.
    pub fn sort_by(&mut self, kind: RSSort)
        ensures
            final(self).entries@.to_multiset() == old(self).entries@.to_multiset(),
            final(self).block_size == old(self).block_size,
            ordered_stepwise(final(self).entries@, kind),
            comparable(old(self).entries@, kind) ==> ordered(final(self).entries@, kind),
    {
        let mut taken: Vec<RSEntry> = Vec::new();
        std::mem::swap(&mut self.entries, &mut taken);
        self.entries = merge_sort(taken, kind);
        proof {
            if comparable(old(self).entries@, kind) {
                lemma_comparable_members(old(self).entries@, self.entries@, kind);
                lemma_stepwise_is_ordered(self.entries@, kind);
            }
        }
    }

    /// Turns the order of the entries round.
    pub fn reverse(&mut self)
        ensures
            final(self).entries@ == old(self).entries@.reverse(),
            final(self).block_size == old(self).block_size,
    {
        let mut taken: Vec<RSEntry> = Vec::new();
        std::mem::swap(&mut self.entries, &mut taken);
        self.entries = turned(taken);
    }

    /// The rows of the entries, one for each, in their order.
    pub fn to_tabular(&self, options: &Options, env: &Environment) -> (output: Vec<Vec<String>>)
        ensures
            output.deep_view() == rows_of(self.entries@, *options, *env),
    {
        let mut output: Vec<Vec<String>> = Vec::new();
        let mut i: usize = 0;
        while i < self.entries.len()
            invariant
                i <= self.entries@.len(),
                output@.len() == i,
                forall|k: int|
                    0 <= k < i ==> (#[trigger] output@[k]).deep_view() == row_of(
                        self.entries@[k],
                        *options,
                        *env,
                    ),
            decreases self.entries@.len() - i,
        {
            let row = self.entries[i].get_table_row(options, env);
            output.push(row);
            i += 1;
        }
        output
    }
}

/// Turning a list round twice gives the list itself.
pub proof fn lemma_reverse_twice(entries: Seq<RSEntry>)
    ensures
        entries.reverse().reverse() == entries,
{
}

} // verus!
