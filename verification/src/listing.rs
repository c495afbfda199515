//! Building the listing of a directory from what a scan of it found.

use crate::extension::{has_text_extension, is_text_extension};
use crate::file_info::{
    is_newest_first_order_of, lemma_order_keeps_records, views, FileInfo, FileInfoView,
};
use crate::modified::{modified_millis, modified_ms_of};
use crate::sort::sort_newest_first;
use vstd::prelude::*;

verus! {

/// What a scan found out about one entry of a directory.
#[derive(Debug, PartialEq, Eq)]
pub struct ScannedEntry {
    /// Full path of the entry as text, with U+FFFD in place of whatever in
    /// it is no valid text.
    pub path: String,
    /// Last component of the path, converted in the same way.
    pub name: String,
    /// Whether the conversion had to replace anything in `name`.
    pub name_lossy: bool,
    /// Whether the path leads to a regular file.
    pub is_file: bool,
    /// The modification time from the metadata of the entry, in whole
    /// milliseconds since the Unix epoch; `Ok(None)` where the metadata
    /// holds no time, or one before the epoch; `Err` with the reason where
    /// the metadata could not be read.
    pub modified: Result<Option<u128>, String>,
}

impl ScannedEntry {
    /// The entry is a regular file whose name marks it as text.
    pub open spec fn qualifies(self) -> bool {
        self.is_file && has_text_extension(self.name@)
    }

    /// The name under which the entry is listed: its name, or nothing where
    /// the name is no valid text.
    pub open spec fn listed_name(self) -> Seq<char> {
        if self.name_lossy {
            Seq::empty()
        } else {
            self.name@
        }
    }
}

/// The failure that a scan result stands for, if any: an entry that could
/// not be read, or a text file whose metadata could not be read.
pub open spec fn failure(scan: Result<ScannedEntry, String>) -> Option<Seq<char>> {
    match scan {
        Err(message) => Some(message@),
        Ok(entry) => match entry.modified {
            Err(message) => if entry.qualifies() {
                Some(message@)
            } else {
                None
            },
            Ok(_) => None,
        },
    }
}

/// The record that a scan result adds to the listing, if any.
pub open spec fn record(scan: Result<ScannedEntry, String>) -> Option<FileInfoView> {
    match scan {
        Err(_) => None,
        Ok(entry) => match entry.modified {
            Ok(since_epoch) => if entry.qualifies() {
                Some(
                    FileInfoView {
                        path: entry.path@,
                        name: entry.listed_name(),
                        modified_ms: modified_ms_of(since_epoch),
                    },
                )
            } else {
                None
            },
            Err(_) => None,
        },
    }
}

/// The records of the text files among `scans`, in the order of the scan.
pub open spec fn listed(scans: Seq<Result<ScannedEntry, String>>) -> Seq<FileInfoView> {
    scans.filter_map(|scan: Result<ScannedEntry, String>| record(scan))
}

/// No scan result in `scans` stands for a failure.
pub open spec fn all_readable(scans: Seq<Result<ScannedEntry, String>>) -> bool {
    forall|i: int| 0 <= i < scans.len() ==> failure(#[trigger] scans[i]) is None
}

/// `scans[at]` is the first scan result that stands for a failure.
pub open spec fn is_first_failure(scans: Seq<Result<ScannedEntry, String>>, at: int) -> bool {
    &&& 0 <= at < scans.len()
    &&& failure(scans[at]) is Some
    &&& forall|i: int| 0 <= i < at ==> failure(#[trigger] scans[i]) is None
}

/// Lists the text files of a directory, newest first.
///
/// `entries` holds what a scan of the directory found, entry by entry in the
/// order of the scan, with `Err` and the reason for an entry that could not
/// be read. A regular file whose name has a text extension is listed; any
/// other entry is passed over, a directory too. The listing fails as a
/// whole, with the reason of the first failure, where an entry could not be
/// read or the metadata of a text file could not be read.
pub fn list_text_files(entries: Vec<Result<ScannedEntry, String>>) -> (result: Result<
    Vec<FileInfo>,
    String,
>)
    ensures
        result is Ok <==> all_readable(entries@),
        match result {
            Ok(files) => is_newest_first_order_of(views(files@), listed(entries@)),
            Err(message) => exists|at: int|
                is_first_failure(entries@, at) && failure(entries@[at]) == Some(message@),
        },
{
    let ghost scans = entries@;
    let mut files: Vec<FileInfo> = Vec::new();
    for scan in it: entries
        invariant
            it.seq() == scans,
            forall|i: int| 0 <= i < it.index() ==> failure(#[trigger] scans[i]) is None,
            views(files@) == listed(scans.take(it.index())),
    {
        let ghost at = it.index();
        proof {
            scans.lemma_filter_map_take_succ(|scan: Result<ScannedEntry, String>| record(scan), at);
        }
        match scan {
            Err(message) => {
                assert(is_first_failure(scans, at));
                return Err(message);
            },
            Ok(entry) => {
                let ScannedEntry { path, name, name_lossy, is_file, modified } = entry;
                if is_file && is_text_extension(name.as_str()) {
                    match modified {
                        Err(message) => {
                            assert(is_first_failure(scans, at));
                            return Err(message);
                        },
                        Ok(since_epoch) => {
                            let name = if name_lossy {
                                String::new()
                            } else {
                                name
                            };
                            let file = FileInfo {
                                path,
                                name,
                                modified_ms: modified_millis(since_epoch),
                            };
                            files.push(file);
                        },
                    }
                }
            },
        }
    }
    assert(scans.take(scans.len() as int) == scans);
    sort_newest_first(&mut files);
    Ok(files)
}

/// Every file of a listing is a regular file of the directory that was
/// scanned, and its name has a text extension: the listing holds no
/// directory, no file of another kind, and nothing from below the directory.
pub proof fn lemma_listing_holds_text_files(
    scans: Seq<Result<ScannedEntry, String>>,
    files: Seq<FileInfoView>,
    k: int,
) -> (at: int)
    requires
        is_newest_first_order_of(files, listed(scans)),
        0 <= k < files.len(),
    ensures
        0 <= at < scans.len(),
        record(scans[at]) == Some(files[k]),
        scans[at] matches Ok(entry) && entry.is_file && has_text_extension(entry.name@)
            && files[k].path == entry.path@,
{
    lemma_order_keeps_records(files, listed(scans));
    let to_record = |scan: Result<ScannedEntry, String>| record(scan);
    scans.lemma_filter_map_contains(to_record, files[k]);
    let scan = choose|scan: Result<ScannedEntry, String>| #[trigger]
        scans.contains(scan) && to_record(scan) == Some(files[k]);
    choose|at: int| 0 <= at < scans.len() && scans[at] == scan
}

/// Every text file that the scan found is in the listing.
pub proof fn lemma_listing_holds_every_text_file(
    scans: Seq<Result<ScannedEntry, String>>,
    files: Seq<FileInfoView>,
    at: int,
)
    requires
        is_newest_first_order_of(files, listed(scans)),
        0 <= at < scans.len(),
        record(scans[at]) is Some,
    ensures
        files.contains(record(scans[at])->0),
{
    lemma_order_keeps_records(files, listed(scans));
    lemma_listed_contains(scans, at);
}

proof fn lemma_listed_contains(scans: Seq<Result<ScannedEntry, String>>, at: int)
    requires
        0 <= at < scans.len(),
        record(scans[at]) is Some,
    ensures
        listed(scans).contains(record(scans[at])->0),
    decreases scans.len(),
{
    let front = scans.drop_last();
    let found = record(scans[at])->0;
    if at == scans.len() - 1 {
        let all = listed(front) + seq![found];
        assert(all[all.len() - 1] == found);
    } else {
        lemma_listed_contains(front, at);
        let k = choose|k: int| 0 <= k < listed(front).len() && listed(front)[k] == found;
        assert(listed(scans)[k] == found);
    }
}

/// A directory without a text file has an empty listing: where every entry
/// could be read and none of them is a regular file with a text extension,
/// no scan result stands for a failure and nothing is listed.
pub proof fn lemma_no_text_files(scans: Seq<Result<ScannedEntry, String>>, files: Seq<FileInfoView>)
    requires
        forall|i: int|
            0 <= i < scans.len() ==> (#[trigger] scans[i] matches Ok(entry) && !entry.qualifies()),
        is_newest_first_order_of(files, listed(scans)),
    ensures
        all_readable(scans),
        files.len() == 0,
{
    lemma_order_keeps_records(files, listed(scans));
    if files.len() > 0 {
        let at = lemma_listing_holds_text_files(scans, files, 0);
    }
}

} // verus!
