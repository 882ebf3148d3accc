//! The listing of a directory's entries, or of a single file.
use vstd::prelude::*;
use crate::entry::describes;
use crate::entry::kind_of;
use crate::entry::map_data;
use crate::entry::EntryType;
use crate::entry::FileEntry;
use crate::entry::RawMeta;
use crate::order::chars_of;
use crate::order::item_keys;
use crate::order::key_lt;
use crate::order::lemma_key_order;
use crate::order::lemma_lex_irreflexive;
use crate::order::lemma_lex_transitive;
use crate::order::lex_lt;
use crate::order::lower_of;
use crate::order::lowercase;
use crate::order::order_rows;
use crate::order::same_row;
use crate::order::stably_sorted;
use crate::order::SortKey;
use crate::resolve::resolve_target;
use crate::resolve::ListError;

verus! {

/// One entry as enumerated: its name, `None` where the platform could not
/// decode it, and its metadata, `None` where it could not be read.
pub struct RawEntry {
    pub name: Option<String>,
    pub meta: Option<RawMeta>,
}

/// The name shown for an entry: its own, or a fixed placeholder.
pub open spec fn name_text(name: Option<String>) -> Seq<char> {
    match name {
        Some(s) => s@,
        None => "unknown name"@,
    }
}

/// The entries whose metadata could be read, in enumeration order, each as
/// the name shown and its metadata.
pub open spec fn readable(s: Seq<RawEntry>) -> Seq<(Seq<char>, RawMeta)>
    decreases s.len(),
{
    if s.len() == 0 {
        Seq::empty()
    } else {
        let pre = readable(s.drop_last());
        match s.last().meta {
            Some(m) => pre.push((name_text(s.last().name), m)),
            None => pre,
        }
    }
}

/// The sort keys of the readable entries of `s`.
pub open spec fn readable_keys(s: Seq<RawEntry>) -> Seq<SortKey> {
    readable(s).map_values(|e: (Seq<char>, RawMeta)| (kind_of(e.1), lower_of(e.0)))
}

/// `rows` is the listing of the entries `s`: one row for each readable
/// entry, directories first, then by case-insensitive name, ties in
/// enumeration order, numbered from 1.
pub open spec fn listing_of(s: Seq<RawEntry>, rows: Seq<FileEntry>) -> bool {
    &&& rows.len() == readable(s).len()
    &&& exists|p: Seq<int>|
        #[trigger] stably_sorted(readable_keys(s), p) && forall|i: int|
            0 <= i < rows.len() ==> describes(rows[i], readable(s)[p[i]].0, readable(s)[p[i]].1)
                && rows[i].no == i + 1
}

/// The name shown for an entry whose name may not have been decoded.
pub fn entry_name(name: Option<String>) -> (r: String)
    ensures
        r@ == name_text(name),
{
    match name {
        Some(s) => s,
        None => String::from_str("unknown name"),
    }
}

/// Lists the entries: skips those whose metadata could not be read, builds a
/// row for each of the others, sorts the rows and numbers them.
pub fn get_files(entries: Vec<RawEntry>) -> (r: Vec<FileEntry>)
    ensures
        listing_of(entries@, r@),
{
    let ghost orig = entries@;
    let n = entries.len();
    let mut entries = entries;
    let mut data: Vec<FileEntry> = Vec::new();
    let mut i: usize = 0;
    assert(entries@ =~= orig.subrange(0, n as int));
    assert(orig.take(0) =~= Seq::<RawEntry>::empty());
    while i < n
        invariant
            n == orig.len(),
            i <= n,
            entries@ == orig.subrange(i as int, n as int),
            data@.len() == readable(orig.take(i as int)).len(),
            forall|k: int|
                0 <= k < data@.len() ==> describes(
                    #[trigger] data@[k],
                    readable(orig.take(i as int))[k].0,
                    readable(orig.take(i as int))[k].1,
                ),
        decreases n - i,
    {
        let raw = entries.remove(0);
        assert(raw == orig[i as int]);
        assert(entries@ =~= orig.subrange(i + 1, n as int));
        assert(orig.take(i + 1).drop_last() =~= orig.take(i as int));
        let ghost old_data = data@;
        let ghost t0 = orig.take(i as int);
        let ghost t1 = orig.take(i + 1);
        assert(t1.last() == raw);
        let RawEntry { name, meta } = raw;
        let file_name = entry_name(name);
        map_data(file_name, meta, &mut data);
        proof {
            assert forall|k: int| 0 <= k < data@.len() implies describes(
                #[trigger] data@[k],
                readable(t1)[k].0,
                readable(t1)[k].1,
            ) by {
                if k < old_data.len() && data@.len() > old_data.len() {
                    assert(data@[k] == data@.drop_last()[k]);
                }
            }
        }
        i = i + 1;
    }
    assert(orig.take(n as int) =~= orig);
    let ghost rd = readable(orig);
    let ghost rows = data@;
    let m = data.len();
    let mut items: Vec<(FileEntry, Vec<char>)> = Vec::new();
    let mut j: usize = 0;
    assert(data@ =~= rows.subrange(0, m as int));
    while j < m
        invariant
            m == rows.len(),
            j <= m,
            data@ == rows.subrange(j as int, m as int),
            items@.len() == j,
            forall|k: int|
                0 <= k < j ==> (#[trigger] items@[k]).0 == rows[k] && items@[k].1@ == lower_of(
                    rows[k].name@,
                ),
        decreases m - j,
    {
        let e = data.remove(0);
        assert(data@ =~= rows.subrange(j + 1, m as int));
        let folded = chars_of(lowercase(e.name.as_str()).as_str());
        items.push((e, folded));
        j = j + 1;
    }
    assert(item_keys(items@) =~= readable_keys(orig));
    let r = order_rows(items);
    proof {
        let p = choose|p: Seq<int>|
            #[trigger] stably_sorted(item_keys(items@), p) && forall|i: int|
                0 <= i < r@.len() ==> same_row(r@[i], items@[p[i]].0) && r@[i].no == i + 1;
        assert(stably_sorted(readable_keys(orig), p));
        assert forall|i: int| 0 <= i < r@.len() implies describes(
            r@[i],
            readable(orig)[p[i]].0,
            readable(orig)[p[i]].1,
        ) && r@[i].no == i + 1 by {
            assert(items@[p[i]].0 == rows[p[i]]);
        }
    }
    r
}

/// Lists a path from the outcome of its existence check (`None` where the
/// check could not be made), whether it is a regular file, and the entries
/// gathered for it (the file itself, or the directory's children). A path
/// that does not exist, or whose existence could not be determined, gives
/// its error and no rows, whatever entries were passed.
pub fn list_path(exists: Option<bool>, is_file: bool, entries: Vec<RawEntry>) -> (r: Result<
    Vec<FileEntry>,
    ListError,
>)
    ensures
        exists is None ==> r == Err::<Vec<FileEntry>, ListError>(ListError::PathCheckFailed),
        exists == Some(false) ==> r == Err::<Vec<FileEntry>, ListError>(ListError::PathNotFound),
        exists == Some(true) ==> (r matches Ok(rows) && listing_of(entries@, rows@)),
{
    match resolve_target(exists, is_file) {
        Ok(_) => Ok(get_files(entries)),
        Err(e) => Err(e),
    }
}

/// Whether the metadata of an enumerated entry could be read.
pub open spec fn is_readable(e: RawEntry) -> bool {
    e.meta is Some
}

proof fn lemma_readable_len(s: Seq<RawEntry>)
    ensures
        readable(s).len() == s.filter(|e: RawEntry| is_readable(e)).len(),
    decreases s.len(),
{
    reveal(Seq::filter);
    if s.len() > 0 {
        lemma_readable_len(s.drop_last());
    }
}

/// A listing has one row for each entry whose metadata could be read.
pub proof fn lemma_row_count(s: Seq<RawEntry>, rows: Seq<FileEntry>)
    requires
        listing_of(s, rows),
    ensures
        rows.len() == s.filter(|e: RawEntry| is_readable(e)).len(),
{
    lemma_readable_len(s);
}

/// In a listing, no file comes before a directory.
pub proof fn lemma_directories_first(s: Seq<RawEntry>, rows: Seq<FileEntry>, i: int, j: int)
    requires
        listing_of(s, rows),
        0 <= i < j < rows.len(),
        rows[j].e_type == EntryType::Dir,
    ensures
        rows[i].e_type == EntryType::Dir,
{
    let p = choose|p: Seq<int>|
        #[trigger] stably_sorted(readable_keys(s), p) && forall|k: int|
            0 <= k < rows.len() ==> describes(rows[k], readable(s)[p[k]].0, readable(s)[p[k]].1)
                && rows[k].no == k + 1;
    let keys = readable_keys(s);
    assert(key_lt(keys[p[i]], keys[p[j]]) || keys[p[i]] == keys[p[j]]);
}

/// In a listing, of two rows of the same kind the earlier one's case-folded
/// name is not greater than the later one's; where the two are equal, the
/// earlier row describes an entry enumerated earlier.
pub proof fn lemma_names_in_order(s: Seq<RawEntry>, rows: Seq<FileEntry>, i: int, j: int)
    requires
        listing_of(s, rows),
        0 <= i < j < rows.len(),
        rows[i].e_type == rows[j].e_type,
    ensures
        !lex_lt(lower_of(rows[j].name@), lower_of(rows[i].name@)),
        lower_of(rows[i].name@) == lower_of(rows[j].name@) ==> exists|a: int, b: int|
            0 <= a < b < readable(s).len() && describes(rows[i], readable(s)[a].0, readable(s)[a].1)
                && describes(rows[j], readable(s)[b].0, readable(s)[b].1),
{
    let p = choose|p: Seq<int>|
        #[trigger] stably_sorted(readable_keys(s), p) && forall|k: int|
            0 <= k < rows.len() ==> describes(rows[k], readable(s)[p[k]].0, readable(s)[p[k]].1)
                && rows[k].no == k + 1;
    let keys = readable_keys(s);
    let fi = lower_of(rows[i].name@);
    let fj = lower_of(rows[j].name@);
    assert(keys[p[i]] == (rows[i].e_type, fi));
    assert(keys[p[j]] == (rows[j].e_type, fj));
    assert(key_lt(keys[p[i]], keys[p[j]]) || (keys[p[i]] == keys[p[j]] && p[i] < p[j]));
    lemma_lex_irreflexive(fi);
    lemma_lex_irreflexive(fj);
    if lex_lt(fi, fj) && lex_lt(fj, fi) {
        lemma_lex_transitive(fi, fj, fi);
    }
    if fi == fj {
        assert(0 <= p[i] < p[j] < readable(s).len());
    }
}

/// The numbers of a listing's rows run from 1 to the count of rows, in
/// order, without gaps or repeats.
pub proof fn lemma_numbering(s: Seq<RawEntry>, rows: Seq<FileEntry>)
    requires
        listing_of(s, rows),
    ensures
        forall|i: int| 0 <= i < rows.len() ==> #[trigger] rows[i].no == i + 1,
        forall|i: int, j: int|
            0 <= i < j < rows.len() ==> #[trigger] rows[i].no < #[trigger] rows[j].no,
        forall|i: int| 0 <= i < rows.len() ==> 1 <= #[trigger] rows[i].no <= rows.len(),
{
}

/// The listing of a single entry whose metadata can be read is one row that
/// describes it.
pub proof fn lemma_single_entry(e: RawEntry, rows: Seq<FileEntry>)
    requires
        listing_of(seq![e], rows),
        e.meta is Some,
    ensures
        rows.len() == 1,
        describes(rows[0], name_text(e.name), e.meta.unwrap()),
        rows[0].no == 1,
{
    let s = seq![e];
    assert(s.drop_last() =~= Seq::<RawEntry>::empty());
    assert(readable(s.drop_last()) =~= Seq::empty());
    assert(s.last() == e);
    assert(readable(s) =~= seq![(name_text(e.name), e.meta.unwrap())]);
    let p = choose|p: Seq<int>|
        #[trigger] stably_sorted(readable_keys(s), p) && forall|k: int|
            0 <= k < rows.len() ==> describes(rows[k], readable(s)[p[k]].0, readable(s)[p[k]].1)
                && rows[k].no == k + 1;
    assert(p[0] == 0);
}

} // verus!
