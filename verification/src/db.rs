//! What the file index stores and how its answers are read: the row written
//! for a scanned file, whether a file changed since it was indexed, and the
//! statistics of the index. The SQLite database itself is driven by the
//! caller.
use vstd::prelude::*;
use crate::cli::DupMode;
use crate::duplicate::{FileView, GroupView};
use crate::identity::kind_tag;
use crate::scanner::FileEntry;
use crate::search::{
    IndexedFile, IndexedView, candidates, find_duplicates, indexed_views, is_duplicate_report,
    is_eligible, lemma_candidates_same_keys, lemma_report_counts_repeated_keys,
    key_count, lemma_same_keys_same_repeated, repeated_keys,
};
use crate::duplicate::key_of;

verus! {

broadcast use vstd::string::group_string_axioms;

/// The tag of the operating system `os` (as `std::env::consts::OS` names it)
/// under which files are stored.
pub open spec fn platform_of(os: Seq<char>) -> Seq<char> {
    if os == seq!['w', 'i', 'n', 'd', 'o', 'w', 's'] {
        seq!['w', 'i', 'n']
    } else if os == seq!['m', 'a', 'c', 'o', 's'] {
        seq!['m', 'a', 'c']
    } else if os == seq!['l', 'i', 'n', 'u', 'x'] {
        seq!['l', 'i', 'n', 'u', 'x']
    } else {
        seq!['o', 't', 'h', 'e', 'r']
    }
}

/// The platform tag for the operating system `os`: `win`, `mac`, `linux` or
/// `other`.
pub fn platform_tag(os: &str) -> (r: &'static str)
    ensures
        r@ == platform_of(os@),
{
    proof {
        reveal_strlit("windows");
        reveal_strlit("macos");
        reveal_strlit("linux");
        reveal_strlit("win");
        reveal_strlit("mac");
        reveal_strlit("other");
        assert("windows"@ =~= seq!['w', 'i', 'n', 'd', 'o', 'w', 's']);
        assert("macos"@ =~= seq!['m', 'a', 'c', 'o', 's']);
        assert("linux"@ =~= seq!['l', 'i', 'n', 'u', 'x']);
        assert("win"@ =~= seq!['w', 'i', 'n']);
        assert("mac"@ =~= seq!['m', 'a', 'c']);
        assert("other"@ =~= seq!['o', 't', 'h', 'e', 'r']);
    }
    let o = os.to_string();
    if o == "windows".to_string() {
        "win"
    } else if o == "macos".to_string() {
        "mac"
    } else if o == "linux".to_string() {
        "linux"
    } else {
        "other"
    }
}

/// The row stored for a file.
pub struct FileRow {
    pub platform: String,
    pub source_id: String,
    pub identity_kind: String,
    pub identity_value: String,
    pub path: String,
    pub name: String,
    pub size: i64,
    pub mtime: i64,
    pub fast_hash: Option<String>,
    pub full_hash: Option<String>,
    pub last_scanned_at: i64,
}

/// The view of an optional text.
pub open spec fn opt_view(s: Option<String>) -> Option<Seq<char>> {
    match s {
        Some(t) => Some(t@),
        None => None,
    }
}

/// `row` is the row stored for `entry` on `platform` at time `now`, with the
/// given hashes.
pub open spec fn is_row_for(
    row: FileRow,
    platform: Seq<char>,
    entry: FileEntry,
    fast_hash: Option<Seq<char>>,
    full_hash: Option<Seq<char>>,
    now: i64,
) -> bool {
    &&& row.platform@ == platform
    &&& row.source_id@ == entry.identity.source_id@
    &&& row.identity_kind@ == kind_tag(entry.identity.kind)
    &&& row.identity_value@ == entry.identity.value@
    &&& row.path@ == entry.path@
    &&& row.name@ == entry.name@
    &&& row.size == entry.size as i64
    &&& row.mtime == entry.mtime
    &&& opt_view(row.fast_hash) == fast_hash
    &&& opt_view(row.full_hash) == full_hash
    &&& row.last_scanned_at == now
}

/// The row to store for `entry`, scanned on `platform` at time `now` (seconds
/// since the epoch), with the hashes that could be computed. The size is
/// stored as SQLite's signed integer.
pub fn file_row(
    platform: &str,
    entry: &FileEntry,
    fast_hash: Option<String>,
    full_hash: Option<String>,
    now: i64,
) -> (r: FileRow)
    ensures
        is_row_for(r, platform@, *entry, opt_view(fast_hash), opt_view(full_hash), now),
{
    FileRow {
        platform: platform.to_string(),
        source_id: entry.identity.source_id.clone(),
        identity_kind: entry.identity.kind.as_str().to_string(),
        identity_value: entry.identity.value.clone(),
        path: entry.path.clone(),
        name: entry.name.clone(),
        size: entry.size as i64,
        mtime: entry.mtime,
        fast_hash,
        full_hash,
        last_scanned_at: now,
    }
}


/// The row that the index holds once `row` is stored, where `stored` holds
/// the hashes of the row already stored for the same file (`None` when there
/// is none): every field is taken from `row`, except a hash that `row` lacks
/// and the stored row has, which is kept.
pub open spec fn stored_row(stored: Option<(Option<Seq<char>>, Option<Seq<char>>)>, row: FileRow) -> (
    Option<Seq<char>>,
    Option<Seq<char>>,
) {
    match stored {
        Some((fast, full)) => (
            if opt_view(row.fast_hash) is Some {
                opt_view(row.fast_hash)
            } else {
                fast
            },
            if opt_view(row.full_hash) is Some {
                opt_view(row.full_hash)
            } else {
                full
            },
        ),
        None => (opt_view(row.fast_hash), opt_view(row.full_hash)),
    }
}

/// The view of the stored hashes of a row.
pub open spec fn stored_view(stored: Option<(Option<String>, Option<String>)>) -> Option<
    (Option<Seq<char>>, Option<Seq<char>>),
> {
    match stored {
        Some((fast, full)) => Some((opt_view(fast), opt_view(full))),
        None => None,
    }
}

/// The row to write when `row` is stored over a row with the hashes `stored`
/// (`None` when the file has no row yet): the new row, keeping a stored hash
/// that was not computed this time.
pub fn merge_row(stored: Option<(Option<String>, Option<String>)>, row: FileRow) -> (r: FileRow)
    ensures
        (opt_view(r.fast_hash), opt_view(r.full_hash)) == stored_row(stored_view(stored), row),
        r.platform == row.platform,
        r.source_id == row.source_id,
        r.identity_kind == row.identity_kind,
        r.identity_value == row.identity_value,
        r.path == row.path,
        r.name == row.name,
        r.size == row.size,
        r.mtime == row.mtime,
        r.last_scanned_at == row.last_scanned_at,
{
    match stored {
        None => row,
        Some((old_fast, old_full)) => {
            let FileRow {
                platform,
                source_id,
                identity_kind,
                identity_value,
                path,
                name,
                size,
                mtime,
                fast_hash,
                full_hash,
                last_scanned_at,
            } = row;
            let fast_hash = match fast_hash {
                Some(h) => Some(h),
                None => old_fast,
            };
            let full_hash = match full_hash {
                Some(h) => Some(h),
                None => old_full,
            };
            FileRow {
                platform,
                source_id,
                identity_kind,
                identity_value,
                path,
                name,
                size,
                mtime,
                fast_hash,
                full_hash,
                last_scanned_at,
            }
        },
    }
}

/// Storing a row loses no hash: a hash computed now is the one stored, and a
/// hash stored before stays unless a new one replaces it.
pub proof fn lemma_store_keeps_hashes(
    stored: Option<(Option<Seq<char>>, Option<Seq<char>>)>,
    row: FileRow,
)
    ensures
        opt_view(row.fast_hash) is Some ==> stored_row(stored, row).0 == opt_view(row.fast_hash),
        opt_view(row.full_hash) is Some ==> stored_row(stored, row).1 == opt_view(row.full_hash),
        stored matches Some((fast, full)) ==> {
            &&& (opt_view(row.fast_hash) is None ==> stored_row(stored, row).0 == fast)
            &&& (opt_view(row.full_hash) is None ==> stored_row(stored, row).1 == full)
        },
        stored is None ==> stored_row(stored, row) == (opt_view(row.fast_hash), opt_view(row.full_hash)),
{
}

/// Whether a file must be indexed again, given the size and modification time
/// stored for it (`None` when it is not indexed yet).
pub open spec fn must_update(stored: Option<(i64, i64)>, entry: FileEntry) -> bool {
    match stored {
        Some((size, mtime)) => size != entry.size as i64 || mtime != entry.mtime,
        None => true,
    }
}

/// Whether `entry` must be indexed again: it is new, or its size or
/// modification time differ from the stored ones.
pub fn needs_update(stored: Option<(i64, i64)>, entry: &FileEntry) -> (r: bool)
    ensures
        r == must_update(stored, *entry),
{
    match stored {
        Some((size, mtime)) => size != entry.size as i64 || mtime != entry.mtime,
        None => true,
    }
}

/// A file whose row was just stored needs no update while it stays the same.
pub proof fn lemma_stored_file_is_current(
    row: FileRow,
    platform: Seq<char>,
    entry: FileEntry,
    fast_hash: Option<Seq<char>>,
    full_hash: Option<Seq<char>>,
    now: i64,
)
    requires
        is_row_for(row, platform, entry, fast_hash, full_hash, now),
    ensures
        !must_update(Some((row.size, row.mtime)), entry),
{
}

/// A file whose size or modification time changed since its row was stored
/// needs an update.
pub proof fn lemma_changed_file_needs_update(
    row: FileRow,
    platform: Seq<char>,
    entry: FileEntry,
    fast_hash: Option<Seq<char>>,
    full_hash: Option<Seq<char>>,
    now: i64,
    changed: FileEntry,
)
    requires
        is_row_for(row, platform, entry, fast_hash, full_hash, now),
        changed.size != entry.size || changed.mtime != entry.mtime,
    ensures
        must_update(Some((row.size, row.mtime)), changed),
{
    let a = entry.size;
    let b = changed.size;
    assert(a != b ==> a as i64 != b as i64) by (bit_vector);
}

/// Statistics of the index.
#[derive(Debug)]
pub struct DbStats {
    pub total_files: u64,
    pub total_size: u64,
    pub with_fast_hash: u64,
    pub with_full_hash: u64,
    pub fast_dup_groups: u64,
    pub full_dup_groups: u64,
}

impl Default for DbStats {
    /// Statistics of an empty index: all zero.
    fn default() -> (r: DbStats)
        ensures
            r.total_files == 0,
            r.total_size == 0,
            r.with_fast_hash == 0,
            r.with_full_hash == 0,
            r.fast_dup_groups == 0,
            r.full_dup_groups == 0,
    {
        DbStats {
            total_files: 0,
            total_size: 0,
            with_fast_hash: 0,
            with_full_hash: 0,
            fast_dup_groups: 0,
            full_dup_groups: 0,
        }
    }
}

// ---------------------------------------------------------------------------
// Statistics
// ---------------------------------------------------------------------------

/// What the statistics read of a row of the index: its size as stored and
/// its hashes.
pub struct StatsRow {
    pub size: i64,
    pub fast_hash: Option<String>,
    pub full_hash: Option<String>,
}

/// The mathematical content of a [`StatsRow`].
pub struct StatsView {
    pub size: i64,
    pub fast_hash: Option<Seq<char>>,
    pub full_hash: Option<Seq<char>>,
}

impl View for StatsRow {
    type V = StatsView;

    open spec fn view(&self) -> StatsView {
        StatsView {
            size: self.size,
            fast_hash: opt_view(self.fast_hash),
            full_hash: opt_view(self.full_hash),
        }
    }
}

/// The views of a sequence of rows.
pub open spec fn stats_views(rows: Seq<StatsRow>) -> Seq<StatsView> {
    rows.map_values(|r: StatsRow| r@)
}

/// The fast hash of a row when `fast` holds, its full hash otherwise.
pub open spec fn row_hash(r: StatsView, fast: bool) -> Option<Seq<char>> {
    if fast {
        r.fast_hash
    } else {
        r.full_hash
    }
}

/// The sum of the sizes of `rows`.
pub open spec fn size_sum(rows: Seq<StatsView>) -> int
    decreases rows.len(),
{
    if rows.len() == 0 {
        0
    } else {
        size_sum(rows.drop_last()) + rows.last().size
    }
}

/// Adding up the sizes of `rows` in order leaves the signed 64-bit range at
/// some row, where SQLite's `SUM` stops with an integer overflow.
pub open spec fn sum_overflows(rows: Seq<StatsView>) -> bool {
    exists|i: int|
        0 < i <= rows.len() && !(i64::MIN <= #[trigger] size_sum(rows.take(i)) <= i64::MAX)
}

/// The number of rows that hold the fast hash (`fast`) or the full hash.
pub open spec fn hash_count(rows: Seq<StatsView>, fast: bool) -> nat
    decreases rows.len(),
{
    if rows.len() == 0 {
        0
    } else {
        hash_count(rows.drop_last(), fast) + if row_hash(rows.last(), fast) is Some {
            1nat
        } else {
            0nat
        }
    }
}

/// The rows that hold the hash in question, as the duplicate search reads
/// them: size and hash, without path or source.
pub open spec fn hashed_rows(rows: Seq<StatsView>, fast: bool) -> Seq<FileView>
    decreases rows.len(),
{
    if rows.len() == 0 {
        Seq::empty()
    } else {
        let c = hashed_rows(rows.drop_last(), fast);
        match row_hash(rows.last(), fast) {
            Some(h) => c.push(
                FileView {
                    path: Seq::empty(),
                    size: rows.last().size as u64,
                    hash: h,
                    source_id: Seq::empty(),
                },
            ),
            None => c,
        }
    }
}

/// The keys that two or more rows holding the hash share: the size and the
/// fast hash (`fast`), or the full hash alone.
pub open spec fn dup_keys(rows: Seq<StatsView>, fast: bool) -> Set<(u64, Seq<char>)> {
    repeated_keys(hashed_rows(rows, fast), fast)
}

/// The rows as files of the index for the search, without path or source.
pub open spec fn row_files(rows: Seq<StatsView>, fast: bool) -> Seq<IndexedView> {
    rows.map_values(
        |r: StatsView|
            IndexedView {
                hash: row_hash(r, fast),
                size: r.size,
                path: Seq::empty(),
                source_id: Seq::empty(),
            },
    )
}

/// A lower bound below every stored size: taken as a signed integer it is
/// the smallest one.
pub const ANY_SIZE: u64 = 0x8000_0000_0000_0000u64;

proof fn lemma_row_candidates(rows: Seq<StatsView>, fast: bool)
    ensures
        candidates(row_files(rows, fast), ANY_SIZE) == hashed_rows(rows, fast),
    decreases rows.len(),
{
    let m = ANY_SIZE;
    assert((m as i64) == i64::MIN) by (bit_vector)
        requires
            m == 0x8000_0000_0000_0000u64,
    ;
    if rows.len() > 0 {
        lemma_row_candidates(rows.drop_last(), fast);
        assert(row_files(rows, fast).drop_last() =~= row_files(rows.drop_last(), fast));
    }
}

fn hash_files(rows: &Vec<StatsRow>, fast: bool) -> (r: Vec<IndexedFile>)
    ensures
        indexed_views(r@) == row_files(stats_views(rows@), fast),
{
    let ghost v = stats_views(rows@);
    let mut out: Vec<IndexedFile> = Vec::new();
    for i in 0..rows.len()
        invariant
            v == stats_views(rows@),
            indexed_views(out@) == row_files(v.take(i as int), fast),
    {
        let r = &rows[i];
        let hash = if fast {
            r.fast_hash.clone()
        } else {
            r.full_hash.clone()
        };
        let f = IndexedFile { hash, size: r.size, path: String::new(), source_id: String::new() };
        let ghost before = indexed_views(out@);
        out.push(f);
        proof {
            assert(f@ == row_files(v, fast)[i as int]);
            assert(indexed_views(out@) =~= before.push(f@));
            assert(row_files(v.take(i + 1), fast) =~= row_files(v.take(i as int), fast).push(f@));
        }
    }
    proof {
        assert(v.take(v.len() as int) =~= v);
    }
    out
}

/// The number of keys that two or more rows holding the hash share, counted
/// as the groups of a duplicate search over all sizes.
fn dup_group_count(rows: &Vec<StatsRow>, fast: bool) -> (r: u64)
    ensures
        dup_keys(stats_views(rows@), fast).finite(),
        r == dup_keys(stats_views(rows@), fast).len(),
{
    let files = hash_files(rows, fast);
    let mode = if fast {
        DupMode::Fast
    } else {
        DupMode::Full
    };
    let groups = find_duplicates(&files, ANY_SIZE, mode);
    proof {
        let v = stats_views(rows@);
        lemma_report_counts_repeated_keys(
            crate::duplicate::group_views(groups@),
            row_files(v, fast),
            ANY_SIZE,
            fast,
        );
        lemma_row_candidates(v, fast);
    }
    groups.len() as u64
}

/// The statistics of the index from its rows, as SQLite computes them: the
/// number of rows, the sum of their sizes, the rows holding each hash, and
/// the keys shared by two or more rows: the size and fast hash, and the full
/// hash. `None` where the sum of the sizes, taken in the order of the rows,
/// leaves the signed 64-bit range, on which SQLite fails.
pub fn index_stats(rows: &Vec<StatsRow>) -> (r: Option<DbStats>)
    ensures
        r is None <==> sum_overflows(stats_views(rows@)),
        r matches Some(st) ==> {
            let v = stats_views(rows@);
            &&& st.total_files == v.len()
            &&& st.total_size == (size_sum(v) as i64) as u64
            &&& st.with_fast_hash == hash_count(v, true)
            &&& st.with_full_hash == hash_count(v, false)
            &&& st.fast_dup_groups == dup_keys(v, true).len()
            &&& st.full_dup_groups == dup_keys(v, false).len()
        },
{
    let ghost v = stats_views(rows@);
    let mut sum: i64 = 0;
    let mut with_fast: u64 = 0;
    let mut with_full: u64 = 0;
    let mut i: usize = 0;
    while i < rows.len()
        invariant
            v == stats_views(rows@),
            i <= v.len(),
            sum == size_sum(v.take(i as int)),
            with_fast == hash_count(v.take(i as int), true),
            with_full == hash_count(v.take(i as int), false),
            with_fast <= i,
            with_full <= i,
            forall|j: int|
                0 < j <= i ==> i64::MIN <= #[trigger] size_sum(v.take(j)) <= i64::MAX,
        decreases v.len() - i,
    {
        proof {
            assert(v.take(i + 1).drop_last() =~= v.take(i as int));
            assert(v.take(i + 1).last() == rows@[i as int]@);
        }
        match sum.checked_add(rows[i].size) {
            Some(s) => {
                sum = s;
            },
            None => {
                proof {
                    assert(0 < i + 1 <= v.len() && !(i64::MIN <= size_sum(v.take(i + 1))
                        <= i64::MAX));
                }
                return None;
            },
        }
        if rows[i].fast_hash.is_some() {
            with_fast = with_fast + 1;
        }
        if rows[i].full_hash.is_some() {
            with_full = with_full + 1;
        }
        i = i + 1;
    }
    proof {
        assert(v.take(v.len() as int) =~= v);
    }
    let fast_groups = dup_group_count(rows, true);
    let full_groups = dup_group_count(rows, false);
    Some(
        DbStats {
            total_files: rows.len() as u64,
            total_size: sum as u64,
            with_fast_hash: with_fast,
            with_full_hash: with_full,
            fast_dup_groups: fast_groups,
            full_dup_groups: full_groups,
        },
    )
}



/// The counts of the statistics count the rows that hold each hash: the
/// fast-hash count counts the rows whose fast hash is set, the full-hash count
/// those whose full hash is set.
pub proof fn lemma_hash_counts_count_rows(rows: Seq<StatsView>)
    ensures
        hash_count(rows, true) == rows.filter(|r: StatsView| r.fast_hash is Some).len(),
        hash_count(rows, false) == rows.filter(|r: StatsView| r.full_hash is Some).len(),
    decreases rows.len(),
{
    reveal(Seq::filter);
    if rows.len() > 0 {
        lemma_hash_counts_count_rows(rows.drop_last());
    }
}

/// The rows that hold the key `k` of the hash in question: for the fast hash,
/// the rows with that size and fast hash; for the full hash, the rows with
/// that full hash (the size part of a full-hash key is 0).
pub open spec fn holds_key(r: StatsView, k: (u64, Seq<char>), fast: bool) -> bool {
    if fast {
        r.fast_hash == Some(k.1) && r.size as u64 == k.0
    } else {
        r.full_hash == Some(k.1) && k.0 == 0
    }
}

proof fn lemma_key_count_push(s: Seq<FileView>, x: FileView, k: (u64, Seq<char>), by_size: bool)
    ensures
        key_count(s.push(x), k, by_size) == key_count(s, k, by_size) + if key_of(x, by_size) == k {
            1nat
        } else {
            0nat
        },
{
    reveal(Seq::filter);
    assert(s.push(x).drop_last() =~= s);
}

proof fn lemma_key_count_of_rows(rows: Seq<StatsView>, k: (u64, Seq<char>), fast: bool)
    ensures
        key_count(hashed_rows(rows, fast), k, fast) == rows.filter(|r: StatsView| holds_key(r, k, fast)).len(),
    decreases rows.len(),
{
    reveal(Seq::filter);
    if rows.len() > 0 {
        lemma_key_count_of_rows(rows.drop_last(), k, fast);
        let c = hashed_rows(rows.drop_last(), fast);
        let r = rows.last();
        match row_hash(r, fast) {
            Some(h) => {
                let x = FileView { path: Seq::empty(), size: r.size as u64, hash: h, source_id: Seq::empty() };
                lemma_key_count_push(c, x, k, fast);
                assert((key_of(x, fast) == k) == holds_key(r, k, fast));
            },
            None => {
                assert(!holds_key(r, k, fast));
            },
        }
    }
}

/// The duplicate groups that the statistics count are the keys held by two or
/// more rows: a size and fast hash that two or more rows both have, or a full
/// hash that two or more rows have.
pub proof fn lemma_dup_keys_are_shared(rows: Seq<StatsView>, fast: bool, k: (u64, Seq<char>))
    ensures
        dup_keys(rows, fast).contains(k) <==> rows.filter(|r: StatsView| holds_key(r, k, fast)).len()
            >= 2,
{
    lemma_key_count_of_rows(rows, k, fast);
}


/// The total size adds up the sizes: that of no rows is 0, that of one row
/// is its size, and that of two runs of rows is the sum of theirs.
pub proof fn lemma_size_sum_adds_sizes(a: Seq<StatsView>, b: Seq<StatsView>, r: StatsView)
    ensures
        size_sum(Seq::<StatsView>::empty()) == 0,
        size_sum(seq![r]) == r.size,
        size_sum(a + b) == size_sum(a) + size_sum(b),
    decreases b.len(),
{
    assert(seq![r].drop_last() =~= Seq::<StatsView>::empty());
    if b.len() == 0 {
        assert(a + b =~= a);
    } else {
        lemma_size_sum_adds_sizes(a, b.drop_last(), r);
        assert((a + b).drop_last() =~= a + b.drop_last());
        assert((a + b).last() == b.last());
    }
}

proof fn lemma_prefix_sums_grow(rows: Seq<StatsView>, i: int, j: int)
    requires
        0 <= i <= j <= rows.len(),
        forall|k: int| 0 <= k < rows.len() ==> (#[trigger] rows[k]).size >= 0,
    ensures
        0 <= size_sum(rows.take(i)) <= size_sum(rows.take(j)),
    decreases j,
{
    if j > 0 {
        assert(rows.take(j).drop_last() =~= rows.take(j - 1));
        assert(rows.take(j).last() == rows[j - 1]);
        if i < j {
            lemma_prefix_sums_grow(rows, i, j - 1);
        } else {
            lemma_prefix_sums_grow(rows, j - 1, j - 1);
        }
    } else {
        assert(rows.take(0) =~= Seq::<StatsView>::empty());
    }
}

/// Where no stored size is negative, the sum of the sizes overflows exactly
/// when the total exceeds the signed 64-bit range, whatever the order of the
/// rows.
pub proof fn lemma_sizes_overflow_only_in_total(rows: Seq<StatsView>)
    requires
        forall|k: int| 0 <= k < rows.len() ==> (#[trigger] rows[k]).size >= 0,
    ensures
        sum_overflows(rows) <==> size_sum(rows) > i64::MAX,
{
    assert(rows.take(rows.len() as int) =~= rows);
    if sum_overflows(rows) {
        let i = choose|i: int|
            0 < i <= rows.len() && !(i64::MIN <= #[trigger] size_sum(rows.take(i)) <= i64::MAX);
        lemma_prefix_sums_grow(rows, i, rows.len() as int);
    }
    if size_sum(rows) > i64::MAX {
        assert(0 < rows.len() as int) by {
            if rows.len() == 0 {
                assert(size_sum(rows) == 0);
            }
        }
        assert(!(i64::MIN <= size_sum(rows.take(rows.len() as int)) <= i64::MAX));
    }
}

/// The duplicate groups counted by the statistics are those that a search
/// over all files reports: where no stored size is negative, a report of the
/// duplicates among files with the rows' sizes and hashes, from a minimum of
/// zero bytes, has as many groups as the statistics count for that hash.
pub proof fn lemma_stats_agree_with_search(
    rows: Seq<StatsView>,
    files: Seq<IndexedView>,
    groups: Seq<GroupView>,
    fast: bool,
)
    requires
        files.len() == rows.len(),
        forall|i: int|
            0 <= i < rows.len() ==> (#[trigger] files[i]).size == rows[i].size && files[i].hash
                == row_hash(rows[i], fast) && rows[i].size >= 0,
        is_duplicate_report(groups, files, 0, fast),
    ensures
        dup_keys(rows, fast).finite(),
        groups.len() == dup_keys(rows, fast).len(),
{
    let g = row_files(rows, fast);
    let m = ANY_SIZE;
    assert((m as i64) == i64::MIN) by (bit_vector)
        requires
            m == 0x8000_0000_0000_0000u64,
    ;
    assert forall|i: int| 0 <= i < files.len() implies (is_eligible(#[trigger] files[i], 0)
        <==> is_eligible(g[i], ANY_SIZE)) by {
        assert(g[i].hash == files[i].hash);
    }
    lemma_report_counts_repeated_keys(groups, files, 0, fast);
    lemma_candidates_same_keys(files, 0, g, ANY_SIZE);
    lemma_same_keys_same_repeated(candidates(files, 0), candidates(g, ANY_SIZE), fast);
    lemma_row_candidates(rows, fast);
}
} // verus!
