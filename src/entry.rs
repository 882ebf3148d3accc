//! Entry records: the metadata read for one entry and the row shown for it.
use vstd::prelude::*;
use crate::format::bytes_text;
use crate::format::format_bytes;
use crate::format::format_mode_str;
use crate::format::format_octal;
use crate::format::mode_text;
use crate::format::octal_text;

verus! {

/// Whether an entry is a directory or anything else. A symbolic link is
/// classified by its target where the metadata follows links (see
/// `RawMeta`).
#[derive(Debug, Clone, Copy, PartialEq, Eq, Structural)]
pub enum EntryType {
    File,
    Dir,
}

/// A modification time as seconds and nanoseconds since the Unix epoch
/// (seconds are negative before it; nanoseconds are below 10^9).
#[derive(Debug, Clone, Copy, PartialEq, Eq, Structural)]
pub struct ModTime {
    pub secs: i64,
    pub nanos: u32,
}

/// The metadata of one entry, as read from the filesystem. `mode` is `None`
/// where the platform has no permission model; `modified` is `None` where the
/// modification time could not be read. A listing reads metadata that follows
/// symbolic links, so there `is_dir` is the target's and `is_symlink` is
/// false. Where a caller passes `is_symlink` true (metadata of the link
/// itself), the permission string starts with 'l' and, unless `is_dir` is
/// set, the entry sorts as a file.
#[derive(Debug, Clone, Copy, PartialEq, Eq, Structural)]
pub struct RawMeta {
    pub is_dir: bool,
    pub is_symlink: bool,
    pub len: u64,
    pub mode: Option<u32>,
    pub modified: Option<ModTime>,
}

/// One row of the listing. `no` is the 1-based position after sorting.
/// A directory shows its raw metadata size, like a file.
#[derive(Debug)]
pub struct FileEntry {
    pub no: usize,
    pub name: String,
    pub e_type: EntryType,
    pub len_bytes: String,
    pub mode: String,
    pub octal: String,
    pub modified: String,
}

/// The kind of an entry with metadata `m`.
pub open spec fn kind_of(m: RawMeta) -> EntryType {
    if m.is_dir {
        EntryType::Dir
    } else {
        EntryType::File
    }
}

/// The placeholder shown for permissions that the platform does not have.
pub open spec fn unavailable_text() -> Seq<char> {
    "unavailable"@
}

/// The permission string shown for metadata `m`.
pub open spec fn mode_field(m: RawMeta) -> Seq<char> {
    match m.mode {
        Some(md) => mode_text(md, m.is_dir, m.is_symlink),
        None => unavailable_text(),
    }
}

/// The octal mode shown for metadata `m`.
pub open spec fn octal_field(m: RawMeta) -> Seq<char> {
    match m.mode {
        Some(md) => octal_text(md),
        None => unavailable_text(),
    }
}

/// The modification times that chrono can represent: nanoseconds below one
/// second and seconds within about 250,000 years of the epoch.
pub open spec fn time_in_range(t: ModTime) -> bool {
    t.nanos < 1_000_000_000 && -8_000_000_000_000 <= t.secs <= 8_000_000_000_000
}

/// Row `e` describes an entry named `name` with metadata `m` (its number
/// aside). The text of a modification time depends on the local time zone:
/// its absence gives an empty field, and a representable time gives at least
/// the 19 characters of `YYYY-MM-DD HH:MM:SS`.
pub open spec fn describes(e: FileEntry, name: Seq<char>, m: RawMeta) -> bool {
    &&& e.name@ == name
    &&& e.e_type == kind_of(m)
    &&& e.len_bytes@ == bytes_text(m.len as nat)
    &&& e.mode@ == mode_field(m)
    &&& e.octal@ == octal_field(m)
    &&& (m.modified is None ==> e.modified@ == Seq::<char>::empty())
    &&& (m.modified matches Some(t) && time_in_range(t) ==> e.modified@.len() >= 19)
}

/// Relies on chrono's `DateTime::from_timestamp`, `DateTime::with_timezone`
/// with `Local`, and `DateTime::format`: the local date and time of a Unix
/// timestamp as `YYYY-MM-DD HH:MM:SS`, or `None` where chrono cannot represent
/// the timestamp (its years run to about 262,000 either side of year 0). The
/// year has at least four characters and the other fields two digits each;
/// which date and time they show depends on the machine's time zone.
#[verifier::external_body]
fn local_time_text(secs: i64, nanos: u32) -> (r: Option<String>)
    ensures
        nanos < 1_000_000_000 && -8_000_000_000_000 <= secs <= 8_000_000_000_000 ==> r is Some,
        r matches Some(text) ==> text@.len() >= 19,
{
    match chrono::DateTime::from_timestamp(secs, nanos) {
        Some(t) => Some(t.with_timezone(&chrono::Local).format("%Y-%m-%d %H:%M:%S").to_string()),
        None => None,
    }
}

/// The text of a modification time in local time, `YYYY-MM-DD HH:MM:SS`;
/// empty where it is absent or cannot be represented.
pub fn format_modified(t: Option<ModTime>) -> (r: String)
    ensures
        t is None ==> r@ == Seq::<char>::empty(),
        t matches Some(mt) && time_in_range(mt) ==> r@.len() >= 19,
{
    match t {
        Some(mt) => match local_time_text(mt.secs, mt.nanos) {
            Some(s) => s,
            None => String::new(),
        },
        None => String::new(),
    }
}

/// Builds the row for an entry named `file_name` and appends it to `data`;
/// an entry whose metadata could not be read adds nothing.
pub fn map_data(file_name: String, meta: Option<RawMeta>, data: &mut Vec<FileEntry>)
    ensures
        meta is None ==> final(data)@ == old(data)@,
        meta is Some ==> {
            &&& final(data)@.len() == old(data)@.len() + 1
            &&& final(data)@.drop_last() == old(data)@
            &&& describes(final(data)@.last(), file_name@, meta.unwrap())
            &&& final(data)@.last().no == 0
        },
{
    if let Some(m) = meta {
        let size_str = format_bytes(m.len);
        let mod_time = format_modified(m.modified);
        let (mode_str, octal_str) = match m.mode {
            Some(md) => (format_mode_str(md, m.is_dir, m.is_symlink), format_octal(md)),
            None => (String::from_str("unavailable"), String::from_str("unavailable")),
        };
        data.push(
            FileEntry {
                no: 0,
                name: file_name,
                e_type: if m.is_dir {
                    EntryType::Dir
                } else {
                    EntryType::File
                },
                len_bytes: size_str,
                mode: mode_str,
                octal: octal_str,
                modified: mod_time,
            },
        );
        assert(data@.drop_last() =~= old(data)@);
    }
}

} // verus!
