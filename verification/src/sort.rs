//! Ordering a listing by modification time, newest first.

use crate::file_info::{
    is_newest_first_order_of, lemma_groups_fix_records, modified_at, newest_first, views, FileInfo,
    FileInfoView,
};
use vstd::prelude::*;

verus! {

/// No record stands before one that was modified earlier.
spec fn oldest_first(files: Seq<FileInfoView>) -> bool {
    forall|i: int, j: int|
        0 <= i < j < files.len() ==> files[i].modified_ms <= files[j].modified_ms
}

/// Every group of equally old records of `merged` is the group of `left`
/// followed by the group of `right`.
spec fn groups_joined(
    merged: Seq<FileInfoView>,
    left: Seq<FileInfoView>,
    right: Seq<FileInfoView>,
) -> bool {
    forall|ms: int| #[trigger]
        modified_at(merged, ms) == modified_at(left, ms) + modified_at(right, ms)
}

/// A record put in front of a listing leads its own group and changes no
/// other.
proof fn lemma_group_of_prepended(first: FileInfoView, files: Seq<FileInfoView>, ms: int)
    ensures
        modified_at(seq![first] + files, ms) == if first.modified_ms == ms {
            seq![first] + modified_at(files, ms)
        } else {
            modified_at(files, ms)
        },
{
    files.lemma_filter_prepend(first, |f: FileInfoView| f.modified_ms == ms);
}

/// Taking the next record from the left keeps the groups joined.
proof fn lemma_take_left(
    tail: Seq<FileInfoView>,
    left: Seq<FileInfoView>,
    right: Seq<FileInfoView>,
    taken: FileInfoView,
)
    requires
        groups_joined(tail, left, right),
    ensures
        groups_joined(seq![taken] + tail, seq![taken] + left, right),
{
    assert forall|ms: int| #[trigger]
        modified_at(seq![taken] + tail, ms) == modified_at(seq![taken] + left, ms) + modified_at(
            right,
            ms,
        ) by {
        lemma_group_of_prepended(taken, tail, ms);
        lemma_group_of_prepended(taken, left, ms);
    }
}

/// Taking the next record from the right keeps the groups joined, as long
/// as every record already taken from the left is older than it.
proof fn lemma_take_right(
    tail: Seq<FileInfoView>,
    left: Seq<FileInfoView>,
    right: Seq<FileInfoView>,
    taken: FileInfoView,
)
    requires
        groups_joined(tail, left, right),
        forall|k: int| 0 <= k < left.len() ==> left[k].modified_ms < taken.modified_ms,
    ensures
        groups_joined(seq![taken] + tail, left, seq![taken] + right),
{
    assert forall|ms: int| #[trigger]
        modified_at(seq![taken] + tail, ms) == modified_at(left, ms) + modified_at(
            seq![taken] + right,
            ms,
        ) by {
        lemma_group_of_prepended(taken, tail, ms);
        lemma_group_of_prepended(taken, right, ms);
        if taken.modified_ms == ms {
            let same = |f: FileInfoView| f.modified_ms == ms;
            left.lemma_all_neg_filter_empty(same);
        }
    }
}

/// Turns a listing round.
fn reversed(files: Vec<FileInfo>) -> (turned: Vec<FileInfo>)
    ensures
        views(turned@) == views(files@).reverse(),
{
    let mut files = files;
    let ghost all = files@;
    let mut turned: Vec<FileInfo> = Vec::new();
    while files.len() > 0
        invariant
            files@ == all.take(files.len() as int),
            turned.len() + files.len() == all.len(),
            forall|i: int| 0 <= i < turned.len() ==> turned@[i] == all[all.len() - 1 - i],
        decreases files.len(),
    {
        let file = files.pop().unwrap();
        turned.push(file);
    }
    turned
}

/// Merges two ordered listings into one. Among records of one modification
/// time those of `left` come first.
fn merge(left: Vec<FileInfo>, right: Vec<FileInfo>) -> (merged: Vec<FileInfo>)
    requires
        newest_first(views(left@)),
        newest_first(views(right@)),
    ensures
        newest_first(views(merged@)),
        groups_joined(views(merged@), views(left@), views(right@)),
{
    let mut left = left;
    let mut right = right;
    let ghost from_left = views(left@);
    let ghost from_right = views(right@);
    // The merged listing is built from its oldest record on, so `back` holds
    // its end turned round.
    let mut back: Vec<FileInfo> = Vec::new();
    let ghost tail = Seq::<FileInfoView>::empty();
    proof {
        assert(from_left.skip(from_left.len() as int) == Seq::<FileInfoView>::empty());
        assert(from_right.skip(from_right.len() as int) == Seq::<FileInfoView>::empty());
        assert(from_left.take(from_left.len() as int) == from_left);
        assert(from_right.take(from_right.len() as int) == from_right);
        assert(views(back@).reverse() == tail);
        assert forall|ms: int| #[trigger]
            modified_at(tail, ms) == modified_at(Seq::<FileInfoView>::empty(), ms) + modified_at(
                Seq::<FileInfoView>::empty(),
                ms,
            ) by {
            tail.lemma_filter_len(|f: FileInfoView| f.modified_ms == ms);
        }
    }
    while left.len() > 0 || right.len() > 0
        invariant
            newest_first(from_left),
            newest_first(from_right),
            left.len() <= from_left.len(),
            right.len() <= from_right.len(),
            views(left@) == from_left.take(left.len() as int),
            views(right@) == from_right.take(right.len() as int),
            tail == views(back@).reverse(),
            oldest_first(views(back@)),
            back.len() > 0 && left.len() > 0 ==> from_left[left.len() - 1].modified_ms >= views(
                back@,
            ).last().modified_ms,
            back.len() > 0 && right.len() > 0 ==> from_right[right.len() - 1].modified_ms >= views(
                back@,
            ).last().modified_ms,
            right.len() > 0 && left.len() < from_left.len() ==> from_left[left.len() as int].modified_ms
                < from_right[right.len() - 1].modified_ms,
            groups_joined(
                tail,
                from_left.skip(left.len() as int),
                from_right.skip(right.len() as int),
            ),
        decreases left.len() + right.len(),
    {
        let ghost l = left.len() as int;
        let ghost r = right.len() as int;
        let ghost done = views(back@);
        proof {
            // The last record of each side, as the comparison below reads it.
            if l > 0 {
                assert(views(left@)[l - 1] == from_left[l - 1]);
                assert(left@[l - 1].modified_ms == from_left[l - 1].modified_ms);
            }
            if r > 0 {
                assert(views(right@)[r - 1] == from_right[r - 1]);
                assert(right@[r - 1].modified_ms == from_right[r - 1].modified_ms);
            }
        }
        let take_right = left.len() == 0 || (right.len() > 0 && right[right.len() - 1].modified_ms
            <= left[left.len() - 1].modified_ms);
        let file = if take_right {
            proof {
                let taken = from_right[r - 1];
                assert(right@[r - 1]@ == taken);
                // Every record taken from the left so far is older than this one.
                assert forall|k: int| 0 <= k < from_left.skip(l).len() implies from_left.skip(
                    l,
                )[k].modified_ms < taken.modified_ms by {
                    assert(from_left.skip(l)[k] == from_left[l + k]);
                    assert(from_left[l].modified_ms >= from_left[l + k].modified_ms);
                }
                lemma_take_right(tail, from_left.skip(l), from_right.skip(r), taken);
                assert(from_right.skip(r - 1) == seq![taken] + from_right.skip(r));
                assert(from_right.take(r).subrange(0, r - 1) == from_right.take(r - 1));
                // What stays on either side is at least as new as the record taken.
                if r > 1 {
                    assert(from_right[r - 2].modified_ms >= taken.modified_ms);
                }
                if l > 0 {
                    assert(from_left[l - 1].modified_ms >= taken.modified_ms);
                }
            }
            right.pop().unwrap()
        } else {
            proof {
                let taken = from_left[l - 1];
                assert(left@[l - 1]@ == taken);
                lemma_take_left(tail, from_left.skip(l), from_right.skip(r), taken);
                assert(from_left.skip(l - 1) == seq![taken] + from_left.skip(l));
                assert(from_left.take(l).subrange(0, l - 1) == from_left.take(l - 1));
                // What stays on the left is at least as new as the record
                // taken, and what stays on the right is newer.
                if l > 1 {
                    assert(from_left[l - 2].modified_ms >= taken.modified_ms);
                }
                if r > 0 {
                    assert(from_right[r - 1].modified_ms > taken.modified_ms);
                }
            }
            left.pop().unwrap()
        };
        proof {
            let grown = done.push(file@);
            tail = seq![file@] + tail;
            assert(views(back@.push(file)) == grown);
            assert(grown.last() == file@);
            assert(grown.reverse() == seq![file@] + done.reverse());
            assert(oldest_first(grown)) by {
                assert forall|i: int, j: int| 0 <= i < j < grown.len() implies #[trigger] grown[i].modified_ms
                    <= #[trigger] grown[j].modified_ms by {
                    if j == done.len() {
                        assert(done[i].modified_ms <= done.last().modified_ms);
                        assert(done.last().modified_ms <= file@.modified_ms);
                    } else {
                        assert(done[i].modified_ms <= done[j].modified_ms);
                    }
                }
            }
            assert(views(left@) == from_left.take(left.len() as int));
            assert(views(right@) == from_right.take(right.len() as int));
        }
        back.push(file);
    }
    proof {
        assert(from_left.skip(0) == from_left);
        assert(from_right.skip(0) == from_right);
        let turned = views(back@).reverse();
        assert(turned == tail);
        assert forall|i: int, j: int| 0 <= i < j < turned.len() implies #[trigger] turned[i].modified_ms
            >= #[trigger] turned[j].modified_ms by {
            assert(turned[i] == views(back@)[turned.len() - 1 - i]);
            assert(turned[j] == views(back@)[turned.len() - 1 - j]);
        }
    }
    reversed(back)
}

/// The listing ordered newest first, with every group of equally old
/// records as it was.
fn sorted(files: Vec<FileInfo>) -> (ordered: Vec<FileInfo>)
    ensures
        newest_first(views(ordered@)),
        forall|ms: int| #[trigger]
            modified_at(views(ordered@), ms) == modified_at(views(files@), ms),
    decreases files.len(),
{
    let n = files.len();
    if n <= 1 {
        files
    } else {
        let mut left = files;
        let right = left.split_off(n / 2);
        let ghost unordered_left = views(left@);
        let ghost unordered_right = views(right@);
        assert(views(files@) == unordered_left + unordered_right);
        let left = sorted(left);
        let right = sorted(right);
        let ordered = merge(left, right);
        assert forall|ms: int| #[trigger]
            modified_at(views(ordered@), ms) == modified_at(views(files@), ms) by {
            Seq::filter_distributes_over_add(
                unordered_left,
                unordered_right,
                |f: FileInfoView| f.modified_ms == ms,
            );
        }
        ordered
    }
}

/// Orders a listing by modification time, newest first. Files that were
/// modified at the same millisecond keep the order in which they stood.
pub fn sort_newest_first(files: &mut Vec<FileInfo>)
    ensures
        is_newest_first_order_of(views(final(files)@), views(old(files)@)),
{
    let mut unordered: Vec<FileInfo> = Vec::new();
    core::mem::swap(files, &mut unordered);
    let ordered = sorted(unordered);
    proof {
        lemma_groups_fix_records(views(ordered@), views(old(files)@));
    }
    *files = ordered;
}

} // verus!
