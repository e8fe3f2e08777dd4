//! The decisions of an incremental copy: which entries of a source folder are
//! descended into, counted or copied, when a file counts as unchanged, and the
//! running totals of files and bytes.
use vstd::prelude::*;

verus! {

/// Files and bytes: to copy (in a dry run) or copied.
#[derive(Clone, Copy, Debug, PartialEq, Eq, Structural)]
pub struct Tally {
    pub files: u64,
    pub bytes: u64,
}

impl Tally {
    /// No files, no bytes.
    pub fn new() -> (t: Tally)
        ensures
            t.files == 0,
            t.bytes == 0,
    {
        Tally { files: 0, bytes: 0 }
    }

    /// One more file of `bytes` bytes.
    pub fn add_file(&mut self, bytes: u64)
        requires
            old(self).files < u64::MAX,
            old(self).bytes + bytes <= u64::MAX,
        ensures
            final(self).files == old(self).files + 1,
            final(self).bytes == old(self).bytes + bytes,
    {
        self.files = self.files + 1;
        self.bytes = self.bytes + bytes;
    }

    /// A progress report: `bytes` more bytes written and, when `file_done`,
    /// one more file finished.
    pub fn record_progress(&mut self, bytes: u64, file_done: bool)
        requires
            old(self).bytes + bytes <= u64::MAX,
            file_done ==> old(self).files < u64::MAX,
        ensures
            final(self).bytes == old(self).bytes + bytes,
            final(self).files == old(self).files + if file_done {
                1int
            } else {
                0int
            },
    {
        self.bytes = self.bytes + bytes;
        if file_done {
            self.files = self.files + 1;
        }
    }
}

impl Default for Tally {
    fn default() -> (t: Tally)
        ensures
            t.files == 0,
            t.bytes == 0,
    {
        Tally::new()
    }
}

/// What the file system tells of a file: its size and, when known, its
/// last-modified time in nanoseconds from the Unix epoch (negative before it).
#[derive(Clone, Copy, Debug, PartialEq, Eq, Structural)]
pub struct FileStamp {
    pub len: u64,
    pub modified: Option<i128>,
}

/// Two seconds in nanoseconds: FAT32 and exFAT store times that coarsely.
pub const TIME_SLACK_NANOS: i128 = 2_000_000_000i128;

pub open spec fn abs_diff(a: int, b: int) -> int {
    if a >= b {
        a - b
    } else {
        b - a
    }
}

/// Both files were read, both times are known, the sizes are equal and the
/// times differ by at most two seconds.
pub open spec fn is_unchanged(src: Option<FileStamp>, dst: Option<FileStamp>) -> bool {
    match (src, dst) {
        (Some(a), Some(b)) => match (a.modified, b.modified) {
            (Some(ta), Some(tb)) => a.len == b.len && abs_diff(ta as int, tb as int)
                <= TIME_SLACK_NANOS,
            _ => false,
        },
        _ => false,
    }
}

fn within_slack(ta: i128, tb: i128) -> (b: bool)
    ensures
        b == (abs_diff(ta as int, tb as int) <= TIME_SLACK_NANOS),
{
    if ta >= tb {
        ta < i128::MIN + TIME_SLACK_NANOS || ta - TIME_SLACK_NANOS <= tb
    } else {
        tb < i128::MIN + TIME_SLACK_NANOS || tb - TIME_SLACK_NANOS <= ta
    }
}

/// A file needs no copy when its backup copy has the same size and a
/// last-modified time within two seconds of it. A file whose size or time
/// could not be read counts as changed.
pub fn unchanged(src: Option<FileStamp>, dst: Option<FileStamp>) -> (b: bool)
    ensures
        b == is_unchanged(src, dst),
{
    match (src, dst) {
        (Some(a), Some(b)) => match (a.modified, b.modified) {
            (Some(ta), Some(tb)) => a.len == b.len && within_slack(ta, tb),
            _ => false,
        },
        _ => false,
    }
}

/// What an entry of a source folder is.
#[derive(Clone, Copy, Debug, PartialEq, Eq, Structural)]
pub enum EntryKind {
    Dir,
    File,
    Other,
}

/// What the copy does with an entry.
#[derive(Clone, Copy, Debug, PartialEq, Eq, Structural)]
pub enum SyncAction {
    /// Mirror the folder, recursively.
    Descend,
    /// Leave the entry alone.
    Skip,
    /// Dry run: count the file as one to copy.
    Count,
    /// Copy the file.
    Copy,
}

pub open spec fn sync_action(kind: EntryKind, dry: bool, unchanged: bool) -> SyncAction {
    match kind {
        EntryKind::Dir => SyncAction::Descend,
        EntryKind::File => if unchanged {
            SyncAction::Skip
        } else if dry {
            SyncAction::Count
        } else {
            SyncAction::Copy
        },
        EntryKind::Other => SyncAction::Skip,
    }
}

/// The step for one entry: folders are descended into; a file that is not
/// `unchanged` is counted in a dry run and copied otherwise; everything else
/// is skipped. Nothing is ever deleted. `unchanged` is only looked at for files.
pub fn sync_step(kind: EntryKind, dry: bool, unchanged: bool) -> (a: SyncAction)
    ensures
        a == sync_action(kind, dry, unchanged),
{
    match kind {
        EntryKind::Dir => SyncAction::Descend,
        EntryKind::File => {
            if unchanged {
                SyncAction::Skip
            } else if dry {
                SyncAction::Count
            } else {
                SyncAction::Copy
            }
        },
        EntryKind::Other => SyncAction::Skip,
    }
}

/// A dry run counts exactly the files that a real run copies, and both descend
/// into the same folders.
pub proof fn lemma_dry_run_matches(kind: EntryKind, unchanged: bool)
    ensures
        sync_action(kind, true, unchanged) == SyncAction::Count <==> sync_action(kind, false, unchanged)
            == SyncAction::Copy,
        sync_action(kind, true, unchanged) == SyncAction::Descend <==> sync_action(
            kind,
            false,
            unchanged,
        ) == SyncAction::Descend,
{
}

/// A file is unchanged against its copy exactly when the copy is unchanged
/// against the file.
pub proof fn lemma_unchanged_symmetric(a: Option<FileStamp>, b: Option<FileStamp>)
    ensures
        is_unchanged(a, b) == is_unchanged(b, a),
{
}

} // verus!
