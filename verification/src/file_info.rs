//! The record that a listing holds for each file, and what it means for a
//! sequence of records to be ordered newest first.

use vstd::prelude::*;

verus! {

/// One listed file.
#[derive(Debug, PartialEq, Eq)]
pub struct FileInfo {
    /// Full path of the file, as text.
    pub path: String,
    /// Last component of the path; empty where it is no valid text.
    pub name: String,
    /// Last modification, in milliseconds since the Unix epoch.
    pub modified_ms: i64,
}

/// A `FileInfo` as a mathematical value.
pub struct FileInfoView {
    pub path: Seq<char>,
    pub name: Seq<char>,
    pub modified_ms: int,
}

impl View for FileInfo {
    type V = FileInfoView;

    open spec fn view(&self) -> FileInfoView {
        FileInfoView { path: self.path@, name: self.name@, modified_ms: self.modified_ms as int }
    }
}

impl Clone for FileInfo {
    fn clone(&self) -> (copy: FileInfo)
        ensures
            copy@ == self@,
    {
        FileInfo {
            path: self.path.clone(),
            name: self.name.clone(),
            modified_ms: self.modified_ms,
        }
    }
}

/// The records of `files`, each as a mathematical value.
pub open spec fn views(files: Seq<FileInfo>) -> Seq<FileInfoView> {
    files.map_values(|f: FileInfo| f@)
}

/// No record stands before one that was modified later.
pub open spec fn newest_first(files: Seq<FileInfoView>) -> bool {
    forall|i: int, j: int|
        0 <= i < j < files.len() ==> files[i].modified_ms >= files[j].modified_ms
}

/// The records of `files` that were modified at `ms`, in their order.
pub open spec fn modified_at(files: Seq<FileInfoView>, ms: int) -> Seq<FileInfoView> {
    files.filter(|f: FileInfoView| f.modified_ms == ms)
}

/// `sorted` holds the records of `given`, each as often as `given`
/// does, newest first; records with one modification time stand in the order
/// that they have in `given`.
pub open spec fn is_newest_first_order_of(
    sorted: Seq<FileInfoView>,
    given: Seq<FileInfoView>,
) -> bool {
    &&& newest_first(sorted)
    &&& sorted.to_multiset() == given.to_multiset()
    &&& forall|ms: int| #[trigger] modified_at(sorted, ms) == modified_at(given, ms)
}

/// In a listing that is ordered newest first, a record that was modified
/// later than another stands before it.
pub proof fn lemma_newer_stands_first(files: Seq<FileInfoView>, newer: int, older: int)
    requires
        newest_first(files),
        0 <= newer < files.len(),
        0 <= older < files.len(),
        files[newer].modified_ms > files[older].modified_ms,
    ensures
        newer < older,
{
}

/// A group of equally old records that is not empty has a member in the
/// listing.
proof fn lemma_group_member(files: Seq<FileInfoView>, ms: int) -> (at: int)
    requires
        modified_at(files, ms).len() > 0,
    ensures
        0 <= at < files.len(),
        files[at].modified_ms == ms,
{
    let same = |f: FileInfoView| f.modified_ms == ms;
    let member = files.filter(same)[0];
    files.lemma_filter_pred(same, 0);
    files.lemma_filter_contains_rev(same, member);
    choose|at: int| 0 <= at < files.len() && files[at] == member
}

/// Two listings that are ordered newest first and agree on every group of
/// equally old records are one and the same.
proof fn lemma_groups_fix_order(a: Seq<FileInfoView>, b: Seq<FileInfoView>)
    requires
        newest_first(a),
        newest_first(b),
        a.len() == b.len(),
        forall|ms: int| #[trigger] modified_at(a, ms) == modified_at(b, ms),
    ensures
        a == b,
    decreases a.len(),
{
    if a.len() > 0 {
        let x = a.last();
        let y = b.last();
        let front_a = a.drop_last();
        let front_b = b.drop_last();
        assert(a == front_a.push(x));
        assert(b == front_b.push(y));
        let same_x = |f: FileInfoView| f.modified_ms == x.modified_ms;
        let same_y = |f: FileInfoView| f.modified_ms == y.modified_ms;
        front_a.lemma_filter_push(x, same_x);
        front_b.lemma_filter_push(y, same_y);
        assert(modified_at(a, x.modified_ms) == modified_at(b, x.modified_ms));
        let in_b = lemma_group_member(b, x.modified_ms);
        let in_a = lemma_group_member(a, y.modified_ms);
        assert forall|ms: int| #[trigger]
            modified_at(front_a, ms) == modified_at(front_b, ms) by {
            let same = |f: FileInfoView| f.modified_ms == ms;
            front_a.lemma_filter_push(x, same);
            front_b.lemma_filter_push(y, same);
            assert(modified_at(a, ms) == modified_at(b, ms));
            if ms == x.modified_ms {
                assert(front_b.filter(same) == front_b.filter(same).push(y).drop_last());
            }
        }
        assert(x == y) by {
            front_a.lemma_filter_push(x, same_x);
            front_b.lemma_filter_push(y, same_x);
            assert(front_b.filter(same_x).push(y).last() == y);
        }
        lemma_groups_fix_order(front_a, front_b);
    }
}

/// The order that `is_newest_first_order_of` asks for is unique: it leaves
/// no choice, not even among records of one modification time.
pub proof fn lemma_order_unique(
    a: Seq<FileInfoView>,
    b: Seq<FileInfoView>,
    given: Seq<FileInfoView>,
)
    requires
        is_newest_first_order_of(a, given),
        is_newest_first_order_of(b, given),
    ensures
        a == b,
{
    vstd::seq_lib::to_multiset_len(a);
    vstd::seq_lib::to_multiset_len(b);
    assert forall|ms: int| #[trigger] modified_at(a, ms) == modified_at(b, ms) by {}
    lemma_groups_fix_order(a, b);
}

/// A record is as often in its group of equally old records as it is in the
/// listing.
proof fn lemma_group_count(files: Seq<FileInfoView>, ms: int, f: FileInfoView)
    ensures
        modified_at(files, ms).to_multiset().count(f) == if f.modified_ms == ms {
            files.to_multiset().count(f)
        } else {
            0
        },
    decreases files.len(),
{
    broadcast use vstd::multiset::group_multiset_axioms;

    let same = |g: FileInfoView| g.modified_ms == ms;
    if files.len() == 0 {
        files.lemma_filter_len(same);
        files.to_multiset_ensures();
        assert(files.filter(same) == files);
        vstd::seq_lib::to_multiset_len(files);
    } else {
        let front = files.drop_last();
        let last = files.last();
        assert(files == front.push(last));
        lemma_group_count(front, ms, f);
        front.lemma_filter_push(last, same);
        vstd::seq_lib::to_multiset_build(front, last);
        vstd::seq_lib::to_multiset_build(front.filter(same), last);
    }
}

/// Two listings that agree on every group of equally old records hold the
/// same records, each as often as the other.
pub proof fn lemma_groups_fix_records(a: Seq<FileInfoView>, b: Seq<FileInfoView>)
    requires
        forall|ms: int| #[trigger] modified_at(a, ms) == modified_at(b, ms),
    ensures
        a.to_multiset() == b.to_multiset(),
{
    assert forall|f: FileInfoView| a.to_multiset().count(f) == b.to_multiset().count(f) by {
        lemma_group_count(a, f.modified_ms, f);
        lemma_group_count(b, f.modified_ms, f);
    }
}

/// An ordered listing holds the very records of the given one: it is as long,
/// and each record of either is a record of the other.
pub proof fn lemma_order_keeps_records(sorted: Seq<FileInfoView>, given: Seq<FileInfoView>)
    requires
        is_newest_first_order_of(sorted, given),
    ensures
        sorted.len() == given.len(),
        forall|f: FileInfoView| sorted.contains(f) <==> given.contains(f),
{
    vstd::seq_lib::to_multiset_len(sorted);
    vstd::seq_lib::to_multiset_len(given);
    assert forall|f: FileInfoView| sorted.contains(f) <==> given.contains(f) by {
        vstd::seq_lib::to_multiset_contains(sorted, f);
        vstd::seq_lib::to_multiset_contains(given, f);
    }
}

} // verus!
