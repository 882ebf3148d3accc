//! The order of the listing: directories first, then by case-insensitive
//! name, ties in enumeration order.
use vstd::prelude::*;
use vstd::utf8::char_u32_cast;
use crate::entry::EntryType;
use crate::entry::FileEntry;

verus! {

/// What `str::to_lowercase` returns for the characters `s`.
pub uninterp spec fn lower_of(s: Seq<char>) -> Seq<char>;

/// The sort key of a row: its kind and its case-folded name.
pub type SortKey = (EntryType, Seq<char>);

/// Directories come before everything else.
pub open spec fn rank(k: EntryType) -> int {
    match k {
        EntryType::Dir => 0,
        EntryType::File => 1,
    }
}

/// Lexicographic order of character sequences by code point, a proper
/// prefix first.
pub open spec fn lex_lt(a: Seq<char>, b: Seq<char>) -> bool
    decreases a.len(),
{
    if b.len() == 0 {
        false
    } else if a.len() == 0 {
        true
    } else if a[0] != b[0] {
        (a[0] as u32) < (b[0] as u32)
    } else {
        lex_lt(a.drop_first(), b.drop_first())
    }
}

/// Key `a` sorts strictly before key `b`.
pub open spec fn key_lt(a: SortKey, b: SortKey) -> bool {
    rank(a.0) < rank(b.0) || (a.0 == b.0 && lex_lt(a.1, b.1))
}

/// `p` is a permutation of `0..n`.
pub open spec fn is_permutation(p: Seq<int>, n: int) -> bool {
    &&& p.len() == n
    &&& forall|i: int| 0 <= i < n ==> 0 <= #[trigger] p[i] < n
    &&& forall|i: int, j: int| 0 <= i < j < n ==> p[i] != p[j]
}

/// Placing the items with keys `keys` at positions `p` (position `i` takes
/// item `p[i]`) sorts them by key, and items with equal keys keep their
/// relative order.
pub open spec fn stably_sorted(keys: Seq<SortKey>, p: Seq<int>) -> bool {
    &&& is_permutation(p, keys.len() as int)
    &&& forall|i: int, j: int|
        0 <= i < j < p.len() ==> key_lt(#[trigger] keys[p[i]], #[trigger] keys[p[j]]) || (
        keys[p[i]] == keys[p[j]] && p[i] < p[j])
}

/// The sort keys of rows paired with their case-folded names.
pub open spec fn item_keys(items: Seq<(FileEntry, Vec<char>)>) -> Seq<SortKey> {
    items.map_values(|it: (FileEntry, Vec<char>)| (it.0.e_type, it.1@))
}

/// Rows `a` and `b` agree in every field but their number.
pub open spec fn same_row(a: FileEntry, b: FileEntry) -> bool {
    &&& a.name == b.name
    &&& a.e_type == b.e_type
    &&& a.len_bytes == b.len_bytes
    &&& a.mode == b.mode
    &&& a.octal == b.octal
    &&& a.modified == b.modified
}

/// No sequence sorts before itself.
pub proof fn lemma_lex_irreflexive(a: Seq<char>)
    ensures
        !lex_lt(a, a),
    decreases a.len(),
{
    if a.len() > 0 {
        lemma_lex_irreflexive(a.drop_first());
    }
}

/// The order on sequences is transitive.
pub proof fn lemma_lex_transitive(a: Seq<char>, b: Seq<char>, c: Seq<char>)
    requires
        lex_lt(a, b),
        lex_lt(b, c),
    ensures
        lex_lt(a, c),
    decreases a.len(),
{
    if a.len() > 0 && b.len() > 0 && c.len() > 0 && a[0] == b[0] && b[0] == c[0] {
        lemma_lex_transitive(a.drop_first(), b.drop_first(), c.drop_first());
    }
}

/// Of two different sequences, one sorts before the other.
pub proof fn lemma_lex_total(a: Seq<char>, b: Seq<char>)
    requires
        a != b,
    ensures
        lex_lt(a, b) || lex_lt(b, a),
    decreases a.len(),
{
    if a.len() > 0 && b.len() > 0 && a[0] == b[0] {
        if a.drop_first() == b.drop_first() {
            assert(a =~= b) by {
                assert(a.drop_first().len() == b.drop_first().len());
                assert forall|i: int| 0 <= i < a.len() implies a[i] == b[i] by {
                    if i > 0 {
                        assert(a[i] == a.drop_first()[i - 1]);
                        assert(b[i] == b.drop_first()[i - 1]);
                    }
                }
            }
        } else {
            lemma_lex_total(a.drop_first(), b.drop_first());
        }
    } else if a.len() == 0 && b.len() == 0 {
        assert(a =~= b);
    } else if a.len() > 0 && b.len() > 0 {
        char_u32_cast(a[0], a[0] as u32);
        char_u32_cast(b[0], b[0] as u32);
    }
}

/// The order on keys is a strict total order.
pub proof fn lemma_key_order(a: SortKey, b: SortKey, c: SortKey)
    ensures
        !key_lt(a, a),
        key_lt(a, b) && key_lt(b, c) ==> key_lt(a, c),
        a != b ==> key_lt(a, b) || key_lt(b, a),
{
    lemma_lex_irreflexive(a.1);
    if key_lt(a, b) && key_lt(b, c) && a.0 == b.0 && b.0 == c.0 {
        lemma_lex_transitive(a.1, b.1, c.1);
    }
    if a != b && a.0 == b.0 {
        lemma_lex_total(a.1, b.1);
    }
}

/// Relies on `str::to_lowercase`: the result depends on the characters
/// alone.
#[verifier::external_body]
pub(crate) fn lowercase(s: &str) -> (r: String)
    ensures
        r@ == lower_of(s@),
{
    s.to_lowercase()
}

/// The characters of `s`.
pub fn chars_of(s: &str) -> (r: Vec<char>)
    ensures
        r@ == s@,
{
    let n = s.unicode_len();
    let mut v: Vec<char> = Vec::new();
    let mut i: usize = 0;
    while i < n
        invariant
            n == s@.len(),
            i <= n,
            v@ == s@.subrange(0, i as int),
        decreases n - i,
    {
        v.push(s.get_char(i));
        i = i + 1;
        assert(v@ =~= s@.subrange(0, i as int));
    }
    assert(v@ =~= s@);
    v
}

/// Whether the row of kind `ka` with case-folded name `fa` sorts strictly
/// before the row of kind `kb` with case-folded name `fb`.
pub fn precedes(ka: EntryType, fa: &Vec<char>, kb: EntryType, fb: &Vec<char>) -> (r: bool)
    ensures
        r == key_lt((ka, fa@), (kb, fb@)),
{
    match (ka, kb) {
        (EntryType::Dir, EntryType::File) => {
            return true;
        },
        (EntryType::File, EntryType::Dir) => {
            return false;
        },
        _ => {},
    }
    let mut i: usize = 0;
    assert(fa@.skip(0) =~= fa@);
    assert(fb@.skip(0) =~= fb@);
    while i < fa.len() && i < fb.len() && fa[i] == fb[i]
        invariant
            ka == kb,
            i <= fa@.len(),
            i <= fb@.len(),
            lex_lt(fa@, fb@) == lex_lt(fa@.skip(i as int), fb@.skip(i as int)),
        decreases fa@.len() - i,
    {
        assert(fa@.skip(i as int).drop_first() =~= fa@.skip(i + 1));
        assert(fb@.skip(i as int).drop_first() =~= fb@.skip(i + 1));
        i = i + 1;
    }
    if i == fb.len() {
        false
    } else if i == fa.len() {
        true
    } else {
        (fa[i] as u32) < (fb[i] as u32)
    }
}

/// Sorts rows that come paired with their case-folded names (directories
/// first, then by folded name, ties in the given order) and numbers them from
/// 1 in that order.
pub fn order_rows(items: Vec<(FileEntry, Vec<char>)>) -> (r: Vec<FileEntry>)
    ensures
        r@.len() == items@.len(),
        exists|p: Seq<int>|
            #[trigger] stably_sorted(item_keys(items@), p) && forall|i: int|
                0 <= i < r@.len() ==> same_row(r@[i], items@[p[i]].0) && r@[i].no == i + 1,
{
    let ghost orig = items@;
    let ghost keys = item_keys(orig);
    let n = items.len();
    let mut items = items;
    let mut sorted: Vec<(FileEntry, Vec<char>)> = Vec::new();
    let ghost mut p: Seq<int> = Seq::empty();
    let mut i: usize = 0;
    assert(items@ =~= orig.subrange(0, n as int));
    while i < n
        invariant
            n == orig.len(),
            keys == item_keys(orig),
            i <= n,
            items@ == orig.subrange(i as int, n as int),
            sorted@.len() == i,
            p.len() == i,
            forall|a: int| 0 <= a < i ==> 0 <= #[trigger] p[a] < i,
            forall|a: int, b: int| 0 <= a < b < i ==> p[a] != p[b],
            forall|a: int| 0 <= a < i ==> #[trigger] sorted@[a] == orig[p[a]],
            forall|a: int, b: int|
                0 <= a < b < i ==> key_lt(#[trigger] keys[p[a]], #[trigger] keys[p[b]]) || (
                keys[p[a]] == keys[p[b]] && p[a] < p[b]),
        decreases n - i,
    {
        let x = items.remove(0);
        assert(x == orig[i as int]);
        assert(items@ =~= orig.subrange(i + 1, n as int));
        let mut pos: usize = 0;
        while pos < sorted.len() && !precedes(x.0.e_type, &x.1, sorted[pos].0.e_type, &sorted[pos].1)
            invariant
                keys == item_keys(orig),
                x == orig[i as int],
                i < n,
                n == orig.len(),
                sorted@.len() == i,
                p.len() == i,
                pos <= i,
                forall|a: int| 0 <= a < i ==> 0 <= #[trigger] p[a] < i,
                forall|a: int| 0 <= a < i ==> #[trigger] sorted@[a] == orig[p[a]],
                forall|a: int| 0 <= a < pos ==> !key_lt(keys[i as int], #[trigger] keys[p[a]]),
            decreases i - pos,
        {
            pos = pos + 1;
        }
        proof {
            let kx = keys[i as int];
            assert(kx == (x.0.e_type, x.1@));
            if pos < i {
                assert(keys[p[pos as int]] == (sorted@[pos as int].0.e_type, sorted@[pos as int].1@));
                assert(key_lt(kx, keys[p[pos as int]]));
            }
            // every row from `pos` on sorts strictly after the new one
            assert forall|c: int| pos <= c < i implies key_lt(kx, #[trigger] keys[p[c]]) by {
                if c > pos {
                    lemma_key_order(kx, keys[p[pos as int]], keys[p[c]]);
                }
            }
            // every row before `pos` sorts before it or ties with an earlier index
            assert forall|a: int| 0 <= a < pos implies key_lt(#[trigger] keys[p[a]], kx) || (
            keys[p[a]] == kx && p[a] < i) by {
                lemma_key_order(keys[p[a]], kx, kx);
            }
        }
        sorted.insert(pos, x);
        proof {
            let old_p = p;
            p = old_p.insert(pos as int, i as int);
            let kx = keys[i as int];
            assert forall|a: int, b: int| 0 <= a < b < i + 1 implies key_lt(
                #[trigger] keys[p[a]],
                #[trigger] keys[p[b]],
            ) || (keys[p[a]] == keys[p[b]] && p[a] < p[b]) by {
                let oa = if a < pos { a } else { a - 1 };
                let ob = if b <= pos { b } else { b - 1 };
                if a != pos && b != pos {
                    assert(p[a] == old_p[oa] && p[b] == old_p[ob]);
                } else if b == pos {
                    assert(p[a] == old_p[a]);
                } else {
                    assert(p[b] == old_p[b - 1]);
                }
            }
            assert forall|a: int| 0 <= a < i + 1 implies 0 <= #[trigger] p[a] < i + 1 by {
                if a != pos {
                    let oa = if a < pos { a } else { a - 1 };
                    assert(p[a] == old_p[oa]);
                }
            }
            assert forall|a: int, b: int| 0 <= a < b < i + 1 implies p[a] != p[b] by {
                let oa = if a < pos { a } else { a - 1 };
                let ob = if b <= pos { b } else { b - 1 };
                if a != pos && b != pos {
                    assert(p[a] == old_p[oa] && p[b] == old_p[ob]);
                } else if b == pos {
                    assert(p[a] == old_p[a]);
                } else {
                    assert(p[b] == old_p[b - 1]);
                }
            }
            assert forall|a: int| 0 <= a < i + 1 implies #[trigger] sorted@[a] == orig[p[a]] by {
                if a != pos {
                    let oa = if a < pos { a } else { a - 1 };
                    assert(p[a] == old_p[oa]);
                }
            }
        }
        i = i + 1;
    }
    let ghost final_sorted = sorted@;
    let mut r: Vec<FileEntry> = Vec::new();
    let mut j: usize = 0;
    assert(sorted@ =~= final_sorted.subrange(0, n as int));
    while j < n
        invariant
            n == final_sorted.len(),
            j <= n,
            sorted@ == final_sorted.subrange(j as int, n as int),
            r@.len() == j,
            forall|a: int|
                0 <= a < j ==> same_row(#[trigger] r@[a], final_sorted[a].0) && r@[a].no == a + 1,
        decreases n - j,
    {
        let (e, _folded) = sorted.remove(0);
        assert(sorted@ =~= final_sorted.subrange(j + 1, n as int));
        let mut e = e;
        e.no = j + 1;
        r.push(e);
        j = j + 1;
    }
    assert(stably_sorted(item_keys(orig), p));
    r
}

} // verus!
