//! Finding duplicates in the index.
//!
//! From the files of the index, those that have the hash in question and are
//! large enough are kept; of those, the ones whose key (the hash, or the size
//! and the hash) is shared by another kept file are listed in order of key and
//! path, and the listing is cut into groups. The database only hands over
//! the rows; the selection is computed here.
use vstd::prelude::*;
use vstd::multiset::Multiset;
use crate::cli::DupMode;
use crate::duplicate::{
    DuplicateFile, DuplicateGroup, FileView, GroupView, all_files, collect_duplicate_groups, copy_file,
    file_views, group_key, group_views, is_grouping_of, key_of, keys_repeated, lemma_group_in_listing,
    lemma_locate, start_of,
    lemma_contiguous_rows_give_distinct_groups, lemma_repeated_keys_give_real_duplicates,
};
use crate::text::chars_of;

verus! {

broadcast use {
    vstd::seq_lib::group_seq_properties,
    vstd::seq_lib::lemma_multiset_commutative,
    vstd::multiset::group_multiset_axioms,
};

// ---------------------------------------------------------------------------
// Order of texts
// ---------------------------------------------------------------------------

/// `a` comes strictly before `b`, character by character (code points), a
/// prefix first. On UTF-8 text this is the byte order SQLite sorts by.
pub open spec fn text_lt(a: Seq<char>, b: Seq<char>) -> bool
    decreases a.len(),
{
    if a.len() == 0 {
        b.len() > 0
    } else if b.len() == 0 {
        false
    } else if a[0] != b[0] {
        a[0] < b[0]
    } else {
        text_lt(a.drop_first(), b.drop_first())
    }
}

proof fn lemma_text_lt_irreflexive(a: Seq<char>)
    ensures
        !text_lt(a, a),
    decreases a.len(),
{
    if a.len() > 0 {
        lemma_text_lt_irreflexive(a.drop_first());
    }
}

proof fn lemma_text_lt_transitive(a: Seq<char>, b: Seq<char>, c: Seq<char>)
    requires
        text_lt(a, b),
        text_lt(b, c),
    ensures
        text_lt(a, c),
    decreases a.len(),
{
    if a.len() > 0 && b.len() > 0 && c.len() > 0 {
        if a[0] == b[0] && b[0] == c[0] {
            lemma_text_lt_transitive(a.drop_first(), b.drop_first(), c.drop_first());
        }
    }
}

proof fn lemma_text_lt_total(a: Seq<char>, b: Seq<char>)
    ensures
        a == b || text_lt(a, b) || text_lt(b, a),
    decreases a.len(),
{
    if a.len() > 0 && b.len() > 0 && a[0] == b[0] {
        lemma_text_lt_total(a.drop_first(), b.drop_first());
        if a.drop_first() == b.drop_first() {
            assert(a =~= seq![a[0]] + a.drop_first());
            assert(b =~= seq![b[0]] + b.drop_first());
        }
    } else if a.len() == 0 && b.len() == 0 {
        assert(a =~= b);
    }
}

proof fn lemma_text_lt_asymmetric(a: Seq<char>, b: Seq<char>)
    requires
        text_lt(a, b),
    ensures
        !text_lt(b, a),
{
    if text_lt(b, a) {
        lemma_text_lt_transitive(a, b, a);
        lemma_text_lt_irreflexive(a);
    }
}

/// Whether `a` comes strictly before `b`.
pub fn text_less(a: &String, b: &String) -> (r: bool)
    ensures
        r == text_lt(a@, b@),
{
    let x = chars_of(a.as_str());
    let y = chars_of(b.as_str());
    let mut i: usize = 0;
    while i < x.len() && i < y.len() && x[i] == y[i]
        invariant
            i <= x@.len(),
            i <= y@.len(),
            text_lt(x@, y@) == text_lt(x@.skip(i as int), y@.skip(i as int)),
        decreases x@.len() - i,
    {
        assert(x@.skip(i as int).drop_first() =~= x@.skip(i + 1));
        assert(y@.skip(i as int).drop_first() =~= y@.skip(i + 1));
        i = i + 1;
    }
    if i == x.len() {
        i < y.len()
    } else if i == y.len() {
        false
    } else {
        assert(x@.skip(i as int)[0] == x@[i as int]);
        assert(y@.skip(i as int)[0] == y@[i as int]);
        x[i] < y[i]
    }
}

// ---------------------------------------------------------------------------
// Order of the listing
// ---------------------------------------------------------------------------

/// The key of `a` comes strictly before that of `b`: by descending size first
/// when grouping by size (sizes taken as SQLite's signed integers), then by
/// hash.
pub open spec fn key_before(a: FileView, b: FileView, by_size: bool) -> bool {
    if by_size {
        (a.size as i64) > (b.size as i64) || ((a.size as i64) == (b.size as i64) && text_lt(
            a.hash,
            b.hash,
        ))
    } else {
        text_lt(a.hash, b.hash)
    }
}

/// `a` may stand before `b` in the listing: its key comes first, or the keys
/// are equal and its path does not come after that of `b`.
pub open spec fn listed_no_later(a: FileView, b: FileView, by_size: bool) -> bool {
    key_before(a, b, by_size) || (key_of(a, by_size) == key_of(b, by_size) && !text_lt(
        b.path,
        a.path,
    ))
}

/// `s` is in listing order.
pub open spec fn listing_sorted(s: Seq<FileView>, by_size: bool) -> bool {
    forall|i: int, j: int|
        0 <= i < j < s.len() ==> listed_no_later(#[trigger] s[i], #[trigger] s[j], by_size)
}

proof fn lemma_sizes_as_signed(x: u64, y: u64)
    ensures
        (x as i64) == (y as i64) ==> x == y,
{
    assert((x as i64) == (y as i64) ==> x == y) by (bit_vector);
}

proof fn lemma_key_before_strict(a: FileView, b: FileView, by_size: bool)
    requires
        key_before(a, b, by_size),
    ensures
        key_of(a, by_size) != key_of(b, by_size),
        !key_before(b, a, by_size),
{
    lemma_text_lt_irreflexive(a.hash);
    if (a.size as i64) == (b.size as i64) || !by_size {
        lemma_text_lt_asymmetric(a.hash, b.hash);
    }
}

proof fn lemma_key_before_transitive(a: FileView, b: FileView, c: FileView, by_size: bool)
    requires
        key_before(a, b, by_size),
        key_before(b, c, by_size),
    ensures
        key_before(a, c, by_size),
{
    if text_lt(a.hash, b.hash) && text_lt(b.hash, c.hash) {
        lemma_text_lt_transitive(a.hash, b.hash, c.hash);
    }
}

/// Keys alone decide `key_before`.
proof fn lemma_key_before_by_key(a: FileView, a2: FileView, b: FileView, by_size: bool)
    requires
        key_of(a, by_size) == key_of(a2, by_size),
    ensures
        key_before(a, b, by_size) == key_before(a2, b, by_size),
        key_before(b, a, by_size) == key_before(b, a2, by_size),
{
}

proof fn lemma_listing_total(a: FileView, b: FileView, by_size: bool)
    ensures
        listed_no_later(a, b, by_size) || listed_no_later(b, a, by_size),
{
    lemma_text_lt_total(a.hash, b.hash);
    lemma_text_lt_total(a.path, b.path);
    lemma_sizes_as_signed(a.size, b.size);
    if a.path != b.path && text_lt(a.path, b.path) {
        lemma_text_lt_asymmetric(a.path, b.path);
    }
    if a.path == b.path {
        lemma_text_lt_irreflexive(a.path);
    }
}

proof fn lemma_listing_transitive(a: FileView, b: FileView, c: FileView, by_size: bool)
    requires
        listed_no_later(a, b, by_size),
        listed_no_later(b, c, by_size),
    ensures
        listed_no_later(a, c, by_size),
{
    lemma_sizes_as_signed(a.size, b.size);
    lemma_sizes_as_signed(b.size, c.size);
    if key_before(a, b, by_size) && key_before(b, c, by_size) {
        lemma_key_before_transitive(a, b, c, by_size);
    } else if key_before(a, b, by_size) {
        lemma_key_before_by_key(c, b, a, by_size);
    } else if key_before(b, c, by_size) {
        lemma_key_before_by_key(a, b, c, by_size);
    } else {
        if text_lt(c.path, a.path) {
            lemma_text_lt_total(a.path, b.path);
            if text_lt(a.path, b.path) {
                lemma_text_lt_transitive(c.path, a.path, b.path);
            }
        }
    }
}

/// Whether `a` may stand before `b` in the listing.
pub fn listed_no_later_exec(a: &DuplicateFile, b: &DuplicateFile, by_size: bool) -> (r: bool)
    ensures
        r == listed_no_later(a@, b@, by_size),
{
    proof {
        lemma_sizes_as_signed(a.size, b.size);
    }
    let sa = a.size as i64;
    let sb = b.size as i64;
    let key_first = if by_size {
        sa > sb || (sa == sb && text_less(&a.hash, &b.hash))
    } else {
        text_less(&a.hash, &b.hash)
    };
    if key_first {
        return true;
    }
    let same_key = if by_size {
        a.size == b.size && a.hash == b.hash
    } else {
        a.hash == b.hash
    };
    same_key && !text_less(&b.path, &a.path)
}

// ---------------------------------------------------------------------------
// Sorting
// ---------------------------------------------------------------------------

proof fn lemma_listing_reflexive(a: FileView, by_size: bool)
    ensures
        listed_no_later(a, a, by_size),
{
    lemma_text_lt_irreflexive(a.path);
}

/// Appending `x` after a sorted listing whose last element may stand before
/// `x` keeps it sorted.
proof fn lemma_sorted_push(s: Seq<FileView>, x: FileView, by_size: bool)
    requires
        listing_sorted(s, by_size),
        s.len() > 0 ==> listed_no_later(s.last(), x, by_size),
    ensures
        listing_sorted(s.push(x), by_size),
{
    let t = s.push(x);
    assert forall|i: int, j: int| 0 <= i < j < t.len() implies listed_no_later(
        #[trigger] t[i],
        #[trigger] t[j],
        by_size,
    ) by {
        if j == s.len() {
            if i < s.len() - 1 {
                assert(listed_no_later(s[i], s[s.len() - 1], by_size));
                lemma_listing_transitive(s[i], s.last(), x, by_size);
            }
        } else {
            assert(t[i] == s[i] && t[j] == s[j]);
        }
    }
}

/// Merges two sorted listings into one.
fn merge(left: &Vec<DuplicateFile>, right: &Vec<DuplicateFile>, by_size: bool) -> (r: Vec<
    DuplicateFile,
>)
    requires
        listing_sorted(file_views(left@), by_size),
        listing_sorted(file_views(right@), by_size),
    ensures
        listing_sorted(file_views(r@), by_size),
        file_views(r@).to_multiset() == file_views(left@).to_multiset().add(
            file_views(right@).to_multiset(),
        ),
{
    let ghost lv = file_views(left@);
    let ghost rv = file_views(right@);
    let mut out: Vec<DuplicateFile> = Vec::new();
    let mut i: usize = 0;
    let mut j: usize = 0;
    proof {
        assert(lv.take(0) =~= Seq::<FileView>::empty());
        assert(rv.take(0) =~= Seq::<FileView>::empty());
        assert(file_views(out@) =~= Seq::<FileView>::empty());
    }
    while i < left.len() || j < right.len()
        invariant
            lv == file_views(left@),
            rv == file_views(right@),
            listing_sorted(lv, by_size),
            listing_sorted(rv, by_size),
            i <= lv.len(),
            j <= rv.len(),
            listing_sorted(file_views(out@), by_size),
            file_views(out@).to_multiset() == lv.take(i as int).to_multiset().add(
                rv.take(j as int).to_multiset(),
            ),
            out@.len() > 0 && i < lv.len() ==> listed_no_later(
                file_views(out@).last(),
                lv[i as int],
                by_size,
            ),
            out@.len() > 0 && j < rv.len() ==> listed_no_later(
                file_views(out@).last(),
                rv[j as int],
                by_size,
            ),
        decreases lv.len() + rv.len() - i - j,
    {
        let take_left = if i == left.len() {
            false
        } else if j == right.len() {
            true
        } else {
            listed_no_later_exec(&left[i], &right[j], by_size)
        };
        let ghost before = file_views(out@);
        if take_left {
            let x = copy_file(&left[i]);
            proof {
                assert(x@ == lv[i as int]);
                lemma_sorted_push(before, x@, by_size);
                assert(lv.take(i + 1) =~= lv.take(i as int).push(x@));
                if j < rv.len() {
                    lemma_listing_total(lv[i as int], rv[j as int], by_size);
                }
                if i + 1 < lv.len() {
                    assert(listed_no_later(lv[i as int], lv[i + 1], by_size));
                }
            }
            out.push(x);
            proof {
                assert(file_views(out@) =~= before.push(x@));
                assert(file_views(out@).to_multiset() =~= lv.take(i + 1).to_multiset().add(
                    rv.take(j as int).to_multiset(),
                ));
            }
            i = i + 1;
        } else {
            let x = copy_file(&right[j]);
            proof {
                assert(x@ == rv[j as int]);
                if i < lv.len() {
                    lemma_listing_total(lv[i as int], rv[j as int], by_size);
                }
                lemma_sorted_push(before, x@, by_size);
                assert(rv.take(j + 1) =~= rv.take(j as int).push(x@));
                if j + 1 < rv.len() {
                    assert(listed_no_later(rv[j as int], rv[j + 1], by_size));
                }
            }
            out.push(x);
            proof {
                assert(file_views(out@) =~= before.push(x@));
                assert(file_views(out@).to_multiset() =~= lv.take(i as int).to_multiset().add(
                    rv.take(j + 1).to_multiset(),
                ));
            }
            j = j + 1;
        }
    }
    proof {
        assert(lv.take(lv.len() as int) =~= lv);
        assert(rv.take(rv.len() as int) =~= rv);
    }
    out
}

/// `v[lo..hi]` in listing order.
fn sort_range(v: &Vec<DuplicateFile>, lo: usize, hi: usize, by_size: bool) -> (r: Vec<
    DuplicateFile,
>)
    requires
        lo <= hi <= v@.len(),
    ensures
        listing_sorted(file_views(r@), by_size),
        file_views(r@).to_multiset() == file_views(v@).subrange(lo as int, hi as int).to_multiset(),
    decreases hi - lo,
{
    if hi - lo == 0 {
        let r: Vec<DuplicateFile> = Vec::new();
        proof {
            assert(file_views(r@) =~= Seq::<FileView>::empty());
            assert(file_views(v@).subrange(lo as int, hi as int) =~= Seq::<FileView>::empty());
        }
        r
    } else if hi - lo == 1 {
        let mut r: Vec<DuplicateFile> = Vec::new();
        let x = copy_file(&v[lo]);
        r.push(x);
        proof {
            assert(file_views(r@) =~= Seq::<FileView>::empty().push(x@));
            assert(file_views(v@).subrange(lo as int, hi as int) =~= Seq::<FileView>::empty().push(
                x@,
            ));
        }
        r
    } else {
        let mid = lo + (hi - lo) / 2;
        let a = sort_range(v, lo, mid, by_size);
        let b = sort_range(v, mid, hi, by_size);
        proof {
            let w = file_views(v@);
            assert(w.subrange(lo as int, hi as int) =~= w.subrange(lo as int, mid as int)
                + w.subrange(mid as int, hi as int));
        }
        merge(&a, &b, by_size)
    }
}

// ---------------------------------------------------------------------------
// Keeping the keys that repeat
// ---------------------------------------------------------------------------

/// Number of files of `s` with key `k`.
pub open spec fn key_count(s: Seq<FileView>, k: (u64, Seq<char>), by_size: bool) -> nat {
    s.filter(|f: FileView| key_of(f, by_size) == k).len()
}

/// Another file of `s` has the key of `f`.
pub open spec fn shares_key(s: Seq<FileView>, f: FileView, by_size: bool) -> bool {
    key_count(s, key_of(f, by_size), by_size) >= 2
}

proof fn lemma_filter_none<A>(s: Seq<A>, p: spec_fn(A) -> bool)
    requires
        forall|i: int| 0 <= i < s.len() ==> !p(#[trigger] s[i]),
    ensures
        s.filter(p) == Seq::<A>::empty(),
    decreases s.len(),
{
    reveal(Seq::filter);
    if s.len() > 0 {
        assert forall|i: int| 0 <= i < s.drop_last().len() implies !p(#[trigger] s.drop_last()[i]) by {
            assert(s.drop_last()[i] == s[i]);
        }
        lemma_filter_none(s.drop_last(), p);
        assert(!p(s[s.len() - 1]));
    } else {
        assert(s.filter(p) =~= Seq::<A>::empty());
    }
}

proof fn lemma_filter_all<A>(s: Seq<A>, p: spec_fn(A) -> bool)
    requires
        forall|i: int| 0 <= i < s.len() ==> p(#[trigger] s[i]),
    ensures
        s.filter(p) == s,
    decreases s.len(),
{
    reveal(Seq::filter);
    if s.len() > 0 {
        assert forall|i: int| 0 <= i < s.drop_last().len() implies p(#[trigger] s.drop_last()[i]) by {
            assert(s.drop_last()[i] == s[i]);
        }
        lemma_filter_all(s.drop_last(), p);
        assert(p(s[s.len() - 1]));
        assert(s.drop_last().push(s.last()) =~= s);
    } else {
        assert(s.filter(p) =~= s);
    }
}

/// Filtering a sequence and taking the multiset commute.
proof fn lemma_filter_multiset<A>(s: Seq<A>, p: spec_fn(A) -> bool)
    ensures
        s.filter(p).to_multiset() == s.to_multiset().filter(p),
    decreases s.len(),
{
    reveal(Seq::filter);
    broadcast use vstd::seq_lib::to_multiset_build;

    if s.len() == 0 {
        assert(s.to_multiset() =~= Multiset::<A>::empty());
        assert(s.filter(p).to_multiset() =~= Multiset::<A>::empty());
        assert(Multiset::<A>::empty().filter(p) =~= Multiset::<A>::empty());
    } else {
        let t = s.drop_last();
        let x = s.last();
        lemma_filter_multiset(t, p);
        assert(t.push(x) =~= s);
        assert(s.to_multiset() == t.to_multiset().insert(x));
        assert(t.to_multiset().insert(x).filter(p) =~= if p(x) {
            t.to_multiset().filter(p).insert(x)
        } else {
            t.to_multiset().filter(p)
        });
    }
}

/// The number of files with a key depends on the files only, not on their
/// order.
proof fn lemma_key_count_of_multiset(s: Seq<FileView>, t: Seq<FileView>, k: (u64, Seq<char>), by_size: bool)
    requires
        s.to_multiset() == t.to_multiset(),
    ensures
        key_count(s, k, by_size) == key_count(t, k, by_size),
{
    broadcast use vstd::seq_lib::to_multiset_len;

    let q = |f: FileView| key_of(f, by_size) == k;
    lemma_filter_multiset(s, q);
    lemma_filter_multiset(t, q);
    assert(s.filter(q).len() == s.filter(q).to_multiset().len());
    assert(t.filter(q).len() == t.filter(q).to_multiset().len());
}

/// A listing in order of key has equal keys next to each other.
pub proof fn lemma_sorted_listing_is_contiguous(s: Seq<FileView>, by_size: bool)
    requires
        listing_sorted(s, by_size),
    ensures
        crate::duplicate::keys_contiguous(s, by_size),
{
    assert forall|i: int, j: int, k: int|
        0 <= i < j < k < s.len() && key_of(#[trigger] s[i], by_size) == key_of(#[trigger] s[k], by_size)
            implies key_of(#[trigger] s[j], by_size) == key_of(s[i], by_size) by {
        if key_of(s[j], by_size) != key_of(s[i], by_size) {
            assert(listed_no_later(s[i], s[j], by_size));
            assert(listed_no_later(s[j], s[k], by_size));
            lemma_key_before_transitive(s[i], s[j], s[k], by_size);
            lemma_key_before_strict(s[i], s[k], by_size);
        }
    }
}

/// In a sorted listing, a maximal run of one key holds every file with that
/// key.
proof fn lemma_run_count(s: Seq<FileView>, i: int, j: int, by_size: bool)
    requires
        listing_sorted(s, by_size),
        0 <= i < j <= s.len(),
        forall|p: int| i <= p < j ==> key_of(#[trigger] s[p], by_size) == key_of(s[i], by_size),
        i == 0 || key_of(s[i - 1], by_size) != key_of(s[i], by_size),
        j == s.len() || key_of(s[j], by_size) != key_of(s[i], by_size),
    ensures
        key_count(s, key_of(s[i], by_size), by_size) == j - i,
{
    lemma_sorted_listing_is_contiguous(s, by_size);
    let k = key_of(s[i], by_size);
    let q = |f: FileView| key_of(f, by_size) == k;
    let a = s.take(i);
    let m = s.subrange(i, j);
    let b = s.skip(j);
    assert(s =~= a + m + b);
    assert forall|p: int| 0 <= p < a.len() implies !q(#[trigger] a[p]) by {
        if key_of(s[p], by_size) == k {
            if p < i - 1 {
                assert(key_of(s[i - 1], by_size) == key_of(s[p], by_size));
            }
        }
    }
    assert forall|p: int| 0 <= p < b.len() implies !q(#[trigger] b[p]) by {
        if key_of(s[j + p], by_size) == k {
            if j + p > j {
                assert(key_of(s[j], by_size) == key_of(s[i], by_size));
            }
        }
    }
    assert forall|p: int| 0 <= p < m.len() implies q(#[trigger] m[p]) by {
        assert(m[p] == s[i + p]);
    }
    lemma_filter_none(a, q);
    lemma_filter_none(b, q);
    lemma_filter_all(m, q);
    Seq::filter_distributes_over_add(a + m, b, q);
    Seq::filter_distributes_over_add(a, m, q);
}

/// Appending a run of at least two files of one key keeps every key repeated.
proof fn lemma_append_run_keeps_keys_repeated(out0: Seq<FileView>, run: Seq<FileView>, by_size: bool)
    requires
        keys_repeated(out0, by_size),
        run.len() >= 2,
        forall|p: int| 0 <= p < run.len() ==> key_of(#[trigger] run[p], by_size) == key_of(run[0], by_size),
    ensures
        keys_repeated(out0 + run, by_size),
{
    let o = out0 + run;
    assert forall|p: int| 0 <= p < o.len() implies #[trigger] crate::duplicate::has_partner(
        o,
        p,
        by_size,
    ) by {
        if p < out0.len() {
            assert(crate::duplicate::has_partner(out0, p, by_size));
            let q0 = choose|q: int|
                0 <= q < out0.len() && q != p && key_of(#[trigger] out0[q], by_size) == key_of(
                    out0[p],
                    by_size,
                );
            assert(o[q0] == out0[q0]);
            assert(o[p] == out0[p]);
        } else {
            let r = p - out0.len();
            let q = if r == 0 {
                p + 1
            } else {
                p - 1
            };
            let rq = q - out0.len();
            assert(o[p] == run[r]);
            assert(o[q] == run[rq]);
            assert(key_of(run[r], by_size) == key_of(run[0], by_size));
            assert(key_of(run[rq], by_size) == key_of(run[0], by_size));
        }
    }
}

/// The files of the sorted listing `s` whose key another file shares, in
/// order.
fn keep_repeated(s: &Vec<DuplicateFile>, by_size: bool) -> (r: Vec<DuplicateFile>)
    requires
        listing_sorted(file_views(s@), by_size),
    ensures
        file_views(r@) == file_views(s@).filter(
            |f: FileView| shares_key(file_views(s@), f, by_size),
        ),
        keys_repeated(file_views(r@), by_size),
        listing_sorted(file_views(r@), by_size),
{
    let ghost sv = file_views(s@);
    let ghost keep = |f: FileView| shares_key(sv, f, by_size);
    let mut out: Vec<DuplicateFile> = Vec::new();
    let mut i: usize = 0;
    proof {
        assert(sv.take(0) =~= Seq::<FileView>::empty());
        assert(file_views(out@) =~= Seq::<FileView>::empty());
    }
    while i < s.len()
        invariant
            sv == file_views(s@),
            listing_sorted(sv, by_size),
            keep == (|f: FileView| shares_key(sv, f, by_size)),
            i <= sv.len(),
            i == 0 || i == sv.len() || key_of(sv[i - 1], by_size) != key_of(sv[i as int], by_size),
            file_views(out@) == sv.take(i as int).filter(keep),
            keys_repeated(file_views(out@), by_size),
            listing_sorted(file_views(out@), by_size),
            file_views(out@).len() > 0 ==> forall|p: int|
                i <= p < sv.len() ==> listed_no_later(
                    file_views(out@).last(),
                    #[trigger] sv[p],
                    by_size,
                ),
        decreases sv.len() - i,
    {
        let mut j = i + 1;
        while j < s.len() && (s[j].hash == s[i].hash && (!by_size || s[j].size == s[i].size))
            invariant
                sv == file_views(s@),
                i < j <= sv.len(),
                forall|p: int| i <= p < j ==> key_of(#[trigger] sv[p], by_size) == key_of(sv[i as int], by_size),
            decreases sv.len() - j,
        {
            proof {
                assert(sv[j as int] == s@[j as int]@);
                assert(sv[i as int] == s@[i as int]@);
            }
            j = j + 1;
        }
        proof {
            if j < sv.len() {
                assert(sv[j as int] == s@[j as int]@);
                assert(sv[i as int] == s@[i as int]@);
            }
            lemma_run_count(sv, i as int, j as int, by_size);
            assert forall|p: int| i <= p < j implies key_count(sv, key_of(#[trigger] sv[p], by_size), by_size) == j - i by {
                assert(key_of(sv[p], by_size) == key_of(sv[i as int], by_size));
            }
        }
        let ghost out0 = file_views(out@);
        let ghost run = sv.subrange(i as int, j as int);
        proof {
            assert(sv.take(j as int) =~= sv.take(i as int) + run);
            Seq::filter_distributes_over_add(sv.take(i as int), run, keep);
        }
        if j - i >= 2 {
            let mut k = i;
            while k < j
                invariant
                    sv == file_views(s@),
                    i <= k <= j <= sv.len(),
                    file_views(out@) == out0 + sv.subrange(i as int, k as int),
                    listing_sorted(sv, by_size),
                    listing_sorted(file_views(out@), by_size),
                    file_views(out@).len() > 0 ==> forall|p: int|
                        k <= p < sv.len() ==> listed_no_later(
                            file_views(out@).last(),
                            #[trigger] sv[p],
                            by_size,
                        ),
                decreases j - k,
            {
                let x = copy_file(&s[k]);
                let ghost before = file_views(out@);
                proof {
                    assert(x@ == sv[k as int]);
                    lemma_sorted_push(before, x@, by_size);
                }
                out.push(x);
                proof {
                    assert(x@ == sv[k as int]);
                    assert forall|p: int| k + 1 <= p < sv.len() implies listed_no_later(
                        file_views(out@).last(),
                        #[trigger] sv[p],
                        by_size,
                    ) by {
                        assert(file_views(out@).last() == sv[k as int]);
                    }
                    assert(file_views(out@) =~= before.push(x@));
                    assert(sv.subrange(i as int, k + 1) =~= sv.subrange(i as int, k as int).push(x@));
                }
                k = k + 1;
            }
            proof {
                assert forall|p: int| 0 <= p < run.len() implies keep(#[trigger] run[p]) by {
                    assert(run[p] == sv[i + p]);
                }
                lemma_filter_all(run, keep);
                assert forall|p: int| 0 <= p < run.len() implies key_of(#[trigger] run[p], by_size)
                    == key_of(run[0], by_size) by {
                    assert(run[p] == sv[i + p]);
                }
                lemma_append_run_keeps_keys_repeated(out0, run, by_size);
            }
        } else {
            proof {
                assert forall|p: int| 0 <= p < run.len() implies !keep(#[trigger] run[p]) by {
                    assert(run[p] == sv[i + p]);
                }
                lemma_filter_none(run, keep);
                assert(keys_repeated(file_views(out@), by_size));
                assert(sv.take(i as int).filter(keep) + Seq::<FileView>::empty() =~= sv.take(
                    i as int,
                ).filter(keep));
            }
        }
        i = j;
    }
    proof {
        assert(sv.take(sv.len() as int) =~= sv);
    }
    out
}

// ---------------------------------------------------------------------------
// The search
// ---------------------------------------------------------------------------

/// A file of the index as the search reads it: the hash in question (none when
/// it was not computed), the size as stored, the path and the source.
pub struct IndexedFile {
    pub hash: Option<String>,
    pub size: i64,
    pub path: String,
    pub source_id: String,
}

/// The mathematical content of an [`IndexedFile`].
pub struct IndexedView {
    pub hash: Option<Seq<char>>,
    pub size: i64,
    pub path: Seq<char>,
    pub source_id: Seq<char>,
}

impl View for IndexedFile {
    type V = IndexedView;

    open spec fn view(&self) -> IndexedView {
        IndexedView {
            hash: match self.hash {
                Some(h) => Some(h@),
                None => None,
            },
            size: self.size,
            path: self.path@,
            source_id: self.source_id@,
        }
    }
}

/// The views of a sequence of indexed files.
pub open spec fn indexed_views(files: Seq<IndexedFile>) -> Seq<IndexedView> {
    files.map_values(|f: IndexedFile| f@)
}

/// A file takes part in the search: it has the hash, and its stored size is
/// at least `min_size`, compared as SQLite's signed integers.
pub open spec fn is_eligible(f: IndexedView, min_size: u64) -> bool {
    f.hash is Some && f.size >= (min_size as i64)
}

/// A file that takes part, as a duplicate candidate.
pub open spec fn as_candidate(f: IndexedView) -> FileView {
    FileView { path: f.path, size: f.size as u64, hash: f.hash->0, source_id: f.source_id }
}

/// The files that take part in the search, in the order of the index.
pub open spec fn candidates(files: Seq<IndexedView>, min_size: u64) -> Seq<FileView>
    decreases files.len(),
{
    if files.len() == 0 {
        Seq::empty()
    } else {
        let c = candidates(files.drop_last(), min_size);
        if is_eligible(files.last(), min_size) {
            c.push(as_candidate(files.last()))
        } else {
            c
        }
    }
}

/// The files to report: the candidates whose key another candidate shares.
pub open spec fn wanted(files: Seq<IndexedView>, min_size: u64, by_size: bool) -> Multiset<
    FileView,
> {
    let c = candidates(files, min_size);
    c.to_multiset().filter(|f: FileView| shares_key(c, f, by_size))
}

fn collect_candidates(files: &Vec<IndexedFile>, min_size: u64) -> (r: Vec<DuplicateFile>)
    ensures
        file_views(r@) == candidates(indexed_views(files@), min_size),
{
    let ghost fv = indexed_views(files@);
    let mut out: Vec<DuplicateFile> = Vec::new();
    let mut i: usize = 0;
    let floor = min_size as i64;
    proof {
        assert(fv.take(0) =~= Seq::<IndexedView>::empty());
        assert(file_views(out@) =~= Seq::<FileView>::empty());
    }
    while i < files.len()
        invariant
            fv == indexed_views(files@),
            floor == min_size as i64,
            i <= fv.len(),
            file_views(out@) == candidates(fv.take(i as int), min_size),
        decreases fv.len() - i,
    {
        let f = &files[i];
        let ghost before = file_views(out@);
        proof {
            assert(fv.take(i + 1).drop_last() =~= fv.take(i as int));
            assert(fv.take(i + 1).last() == f@);
        }
        match &f.hash {
            Some(h) => {
                if f.size >= floor {
                    let c = DuplicateFile {
                        path: f.path.clone(),
                        size: f.size as u64,
                        hash: h.clone(),
                        source_id: f.source_id.clone(),
                    };
                    out.push(c);
                    proof {
                        assert(c@ == as_candidate(f@));
                        assert(file_views(out@) =~= before.push(c@));
                    }
                }
            },
            None => {},
        }
        i = i + 1;
    }
    proof {
        assert(fv.take(fv.len() as int) =~= fv);
    }
    out
}

/// The listing of duplicate candidates: the files of the index that have the
/// hash, are at least `min_size` bytes, and share their key (the hash, or the
/// size and the hash when `by_size` holds) with another such file, ordered by
/// key (by descending size first when grouping by size) and then by path.
pub fn duplicate_listing(files: &Vec<IndexedFile>, min_size: u64, by_size: bool) -> (r: Vec<
    DuplicateFile,
>)
    ensures
        listing_sorted(file_views(r@), by_size),
        file_views(r@).to_multiset() == wanted(indexed_views(files@), min_size, by_size),
        keys_repeated(file_views(r@), by_size),
{
    let cands = collect_candidates(files, min_size);
    let sorted = sort_range(&cands, 0, cands.len(), by_size);
    let listing = keep_repeated(&sorted, by_size);
    proof {
        let c = file_views(cands@);
        let sv = file_views(sorted@);
        assert(c.subrange(0, c.len() as int) =~= c);
        let ps = |f: FileView| shares_key(sv, f, by_size);
        let pc = |f: FileView| shares_key(c, f, by_size);
        lemma_filter_multiset(sv, ps);
        assert forall|f: FileView| #[trigger] ps(f) == pc(f) by {
            lemma_key_count_of_multiset(sv, c, key_of(f, by_size), by_size);
        }
        assert(sv.to_multiset().filter(ps) =~= c.to_multiset().filter(pc));
    }
    listing
}

/// `groups` reports the duplicates among `files`: its files, group after
/// group, are exactly the files to report, in listing order, and they are cut
/// into maximal runs of one key, numbered from 1. Every group holds at least
/// two files, and no two groups share a key.
pub open spec fn is_duplicate_report(
    groups: Seq<GroupView>,
    files: Seq<IndexedView>,
    min_size: u64,
    by_size: bool,
) -> bool {
    let listed = all_files(groups);
    &&& is_grouping_of(groups, listed, by_size)
    &&& listing_sorted(listed, by_size)
    &&& listed.to_multiset() == wanted(files, min_size, by_size)
    &&& forall|a: int|
        0 <= a < groups.len() ==> (#[trigger] groups[a]).files.len() >= 2
    &&& forall|a: int, b: int|
        0 <= a < b < groups.len() ==> group_key(#[trigger] groups[a], by_size) != group_key(
            #[trigger] groups[b],
            by_size,
        )
}

/// The groups of duplicates among the files of the index: by full hash, or by
/// size and fast hash, among the files of at least `min_size` bytes.
pub fn find_duplicates(files: &Vec<IndexedFile>, min_size: u64, mode: DupMode) -> (r: Vec<
    DuplicateGroup,
>)
    ensures
        is_duplicate_report(
            group_views(r@),
            indexed_views(files@),
            min_size,
            mode == DupMode::Fast,
        ),
{
    let by_size = mode.groups_by_size();
    let listing = duplicate_listing(files, min_size, by_size);
    let ghost lv = file_views(listing@);
    let groups = collect_duplicate_groups(listing, by_size);
    proof {
        let gs = group_views(groups@);
        assert(all_files(gs) == lv);
        lemma_sorted_listing_is_contiguous(lv, by_size);
        lemma_contiguous_rows_give_distinct_groups(gs, lv, by_size);
        lemma_repeated_keys_give_real_duplicates(gs, lv, by_size);
    }
    groups
}


// ---------------------------------------------------------------------------
// Counting the groups
// ---------------------------------------------------------------------------

/// The keys that two or more of `files` share.
pub open spec fn repeated_keys(files: Seq<FileView>, by_size: bool) -> Set<(u64, Seq<char>)> {
    Set::new(|k: (u64, Seq<char>)| key_count(files, k, by_size) >= 2)
}

/// A report of the duplicates has one group for each key that two or more
/// candidates share, and no other.
pub proof fn lemma_report_counts_repeated_keys(
    groups: Seq<GroupView>,
    files: Seq<IndexedView>,
    min_size: u64,
    by_size: bool,
)
    requires
        is_duplicate_report(groups, files, min_size, by_size),
    ensures
        repeated_keys(candidates(files, min_size), by_size).finite(),
        groups.len() == repeated_keys(candidates(files, min_size), by_size).len(),
{
    broadcast use vstd::seq_lib::to_multiset_contains;
    broadcast use vstd::seq_lib::group_filter_ensures;

    let c = candidates(files, min_size);
    let listed = all_files(groups);
    let keys = repeated_keys(c, by_size);
    let n = groups.len() as int;
    let f = |a: int| group_key(groups[a], by_size);
    let range = vstd::set_lib::set_int_range(0, n);
    vstd::set_lib::lemma_int_range(0, n);
    assert(groups.take(0) =~= Seq::<GroupView>::empty());
    assert(groups.take(0).map_values(|h: GroupView| h.files) =~= Seq::<Seq<FileView>>::empty());
    assert(start_of(groups, 0) == 0);
    assert(vstd::relations::injective_on(f, range)) by {
        assert forall|x: int, y: int| range.contains(x) && range.contains(y) && #[trigger] f(x)
            == #[trigger] f(y) implies x == y by {
            if x < y {
                assert(group_key(groups[x], by_size) != group_key(groups[y], by_size));
            } else if y < x {
                assert(group_key(groups[y], by_size) != group_key(groups[x], by_size));
            }
        }
    }
    assert forall|k: (u64, Seq<char>)| #[trigger] range.map(f).contains(k) <==> keys.contains(k) by {
        if range.map(f).contains(k) {
            let a = choose|a: int| range.contains(a) && f(a) == k;
            lemma_group_in_listing(groups, a);
            let x = groups[a].files[0];
            assert(groups[a].files.len() > 0);
            assert(listed[start_of(groups, a) as int + 0] == x);
            assert(listed.contains(x));
            assert(wanted(files, min_size, by_size).count(x) > 0);
            assert(shares_key(c, x, by_size));
        }
        if keys.contains(k) {
            let p = |g: FileView| key_of(g, by_size) == k;
            assert(c.filter(p).len() >= 2);
            let x = c.filter(p)[0];
            c.lemma_filter_pred(p, 0);
            assert(c.filter(p).contains(x));
            c.lemma_filter_contains_rev(p, x);
            assert(p(x));
            assert(c.contains(x));
            assert(shares_key(c, x, by_size));
            assert(wanted(files, min_size, by_size).count(x) > 0);
            assert(listed.to_multiset().count(x) > 0);
            assert(listed.contains(x));
            let q = choose|q: int| 0 <= q < listed.len() && listed[q] == x;
            let (g, t) = lemma_locate(groups, q, 0);
            lemma_group_in_listing(groups, g);
            assert(groups[g].files[t] == x);
            assert(key_of(groups[g].files[t], by_size) == group_key(groups[g], by_size));
            assert(range.contains(g) && f(g) == k);
        }
    }
    assert(range.map(f) =~= keys);
    vstd::set_lib::lemma_map_size(range, keys, f);
}

/// Two sequences whose files have, one by one, the same size and hash have the
/// same repeated keys.
pub(crate) proof fn lemma_same_keys_same_repeated(s: Seq<FileView>, t: Seq<FileView>, by_size: bool)
    requires
        s.len() == t.len(),
        forall|i: int|
            0 <= i < s.len() ==> (#[trigger] s[i]).size == t[i].size && s[i].hash == t[i].hash,
    ensures
        repeated_keys(s, by_size) == repeated_keys(t, by_size),
{
    assert forall|k: (u64, Seq<char>)| #[trigger] key_count(s, k, by_size) == key_count(t, k, by_size) by {
        lemma_same_keys_same_count(s, t, k, by_size);
    }
    assert(repeated_keys(s, by_size) =~= repeated_keys(t, by_size));
}

proof fn lemma_same_keys_same_count(s: Seq<FileView>, t: Seq<FileView>, k: (u64, Seq<char>), by_size: bool)
    requires
        s.len() == t.len(),
        forall|i: int|
            0 <= i < s.len() ==> (#[trigger] s[i]).size == t[i].size && s[i].hash == t[i].hash,
    ensures
        key_count(s, k, by_size) == key_count(t, k, by_size),
    decreases s.len(),
{
    reveal(Seq::filter);
    if s.len() > 0 {
        let s2 = s.drop_last();
        let t2 = t.drop_last();
        assert forall|i: int| 0 <= i < s2.len() implies (#[trigger] s2[i]).size == t2[i].size
            && s2[i].hash == t2[i].hash by {
            assert(s2[i] == s[i] && t2[i] == t[i]);
        }
        lemma_same_keys_same_count(s2, t2, k, by_size);
        assert(s.last().size == t.last().size && s.last().hash == t.last().hash);
        assert(key_of(s.last(), by_size) == key_of(t.last(), by_size));
    }
}

/// Two lists of files that take part in the same places, with the same size
/// and hash there, give candidates of the same sizes and hashes.
pub(crate) proof fn lemma_candidates_same_keys(f: Seq<IndexedView>, m: u64, g: Seq<IndexedView>, n: u64)
    requires
        f.len() == g.len(),
        forall|i: int|
            0 <= i < f.len() ==> (is_eligible(#[trigger] f[i], m) <==> is_eligible(g[i], n)),
        forall|i: int|
            0 <= i < f.len() && is_eligible(#[trigger] f[i], m) ==> f[i].hash == g[i].hash
                && f[i].size == g[i].size,
    ensures
        candidates(f, m).len() == candidates(g, n).len(),
        forall|i: int|
            0 <= i < candidates(f, m).len() ==> (#[trigger] candidates(f, m)[i]).size == candidates(
                g,
                n,
            )[i].size && candidates(f, m)[i].hash == candidates(g, n)[i].hash,
    decreases f.len(),
{
    if f.len() > 0 {
        let f2 = f.drop_last();
        let g2 = g.drop_last();
        assert forall|i: int| 0 <= i < f2.len() implies (is_eligible(#[trigger] f2[i], m)
            <==> is_eligible(g2[i], n)) by {
            assert(f2[i] == f[i] && g2[i] == g[i]);
        }
        assert forall|i: int| 0 <= i < f2.len() && is_eligible(#[trigger] f2[i], m) implies f2[i].hash
            == g2[i].hash && f2[i].size == g2[i].size by {
            assert(f2[i] == f[i] && g2[i] == g[i]);
        }
        lemma_candidates_same_keys(f2, m, g2, n);
        assert(is_eligible(f[f.len() - 1], m) <==> is_eligible(g[g.len() - 1], n));
    }
}


// ---------------------------------------------------------------------------
// Where the reported files come from
// ---------------------------------------------------------------------------

/// The candidates are the files of the index that have the hash and are at
/// least `min_size` bytes (as signed integers), in the order of the index,
/// each with its own path, size, hash and source.
pub proof fn lemma_candidates_are_the_eligible_files(files: Seq<IndexedView>, min_size: u64)
    ensures
        candidates(files, min_size) == files.filter(
            |f: IndexedView| f.hash is Some && f.size >= (min_size as i64),
        ).map_values(
            |f: IndexedView|
                FileView { path: f.path, size: f.size as u64, hash: f.hash->0, source_id: f.source_id },
        ),
    decreases files.len(),
{
    reveal(Seq::filter);
    let p = |f: IndexedView| f.hash is Some && f.size >= (min_size as i64);
    let g = |f: IndexedView|
        FileView { path: f.path, size: f.size as u64, hash: f.hash->0, source_id: f.source_id };
    if files.len() == 0 {
        assert(files.filter(p) =~= Seq::<IndexedView>::empty());
        assert(files.filter(p).map_values(g) =~= Seq::<FileView>::empty());
    } else {
        lemma_candidates_are_the_eligible_files(files.drop_last(), min_size);
        let t = files.drop_last().filter(p);
        if p(files.last()) {
            assert(files.filter(p) == t.push(files.last()));
            assert(t.push(files.last()).map_values(g) =~= t.map_values(g).push(g(files.last())));
        } else {
            assert(files.filter(p) == t);
        }
    }
}

/// Every file of a report of the duplicates is a file of the index, with its
/// path, size, hash and source: some file of the index that has the hash and
/// is at least `min_size` bytes holds them all.
pub proof fn lemma_reported_files_come_from_index(
    groups: Seq<GroupView>,
    files: Seq<IndexedView>,
    min_size: u64,
    by_size: bool,
    a: int,
    k: int,
)
    requires
        is_duplicate_report(groups, files, min_size, by_size),
        0 <= a < groups.len(),
        0 <= k < groups[a].files.len(),
    ensures
        exists|i: int|
            0 <= i < files.len() && #[trigger] files[i].hash == Some(groups[a].files[k].hash)
                && files[i].size >= (min_size as i64) && files[i].path == groups[a].files[k].path
                && files[i].size as u64 == groups[a].files[k].size && files[i].source_id
                == groups[a].files[k].source_id,
{
    broadcast use vstd::seq_lib::to_multiset_contains;

    let c = candidates(files, min_size);
    let listed = all_files(groups);
    let x = groups[a].files[k];
    assert(groups.take(0) =~= Seq::<GroupView>::empty());
    assert(groups.take(0).map_values(|h: GroupView| h.files) =~= Seq::<Seq<FileView>>::empty());
    lemma_group_in_listing(groups, a);
    assert(listed[start_of(groups, a) + k] == x);
    assert(listed.contains(x));
    assert(wanted(files, min_size, by_size).count(x) > 0);
    assert(c.to_multiset().count(x) > 0);
    assert(c.contains(x));
    let q = choose|q: int| 0 <= q < c.len() && c[q] == x;
    lemma_candidates_are_the_eligible_files(files, min_size);
    let p = |f: IndexedView| f.hash is Some && f.size >= (min_size as i64);
    let t = files.filter(p);
    let y = t[q];
    files.lemma_filter_pred(p, q);
    assert(t.contains(y));
    files.lemma_filter_contains_rev(p, y);
    let i = choose|i: int| 0 <= i < files.len() && files[i] == y;
    assert(files[i].hash == Some(x.hash));
}


// ---------------------------------------------------------------------------
// Laws of the order
// ---------------------------------------------------------------------------

/// `text_lt` is the lexicographic order: `a` comes before `b` exactly when,
/// after their longest common prefix, `a` ends while `b` goes on, or `a` has
/// the smaller character.
pub proof fn lemma_text_lt_is_lexicographic(a: Seq<char>, b: Seq<char>)
    ensures
        text_lt(a, b) <==> exists|i: int|
            0 <= i <= a.len() && i < b.len() && #[trigger] a.take(i) == b.take(i) && (i == a.len()
                || a[i] < b[i]),
    decreases a.len(),
{
    if a.len() == 0 {
        if b.len() > 0 {
            assert(a.take(0) =~= b.take(0));
        }
    } else if b.len() == 0 {
    } else if a[0] != b[0] {
        if a[0] < b[0] {
            assert(a.take(0) =~= b.take(0));
        } else {
            assert forall|i: int|
                0 <= i <= a.len() && i < b.len() && #[trigger] a.take(i) == b.take(i) implies !(i
                == a.len() || a[i] < b[i]) by {
                if i > 0 {
                    assert(a.take(i)[0] == b.take(i)[0]);
                } else {
                }
            }
        }
    } else {
        let a1 = a.drop_first();
        let b1 = b.drop_first();
        lemma_text_lt_is_lexicographic(a1, b1);
        if text_lt(a1, b1) {
            let i = choose|i: int|
                0 <= i <= a1.len() && i < b1.len() && #[trigger] a1.take(i) == b1.take(i) && (i
                    == a1.len() || a1[i] < b1[i]);
            assert(a.take(i + 1) =~= seq![a[0]] + a1.take(i));
            assert(b.take(i + 1) =~= seq![b[0]] + b1.take(i));
        } else {
            assert forall|i: int|
                0 <= i <= a.len() && i < b.len() && #[trigger] a.take(i) == b.take(i) implies !(i
                == a.len() || a[i] < b[i]) by {
                if i > 0 {
                    assert(a1.take(i - 1) =~= a.take(i).drop_first());
                    assert(b1.take(i - 1) =~= b.take(i).drop_first());
                    assert(a1.take(i - 1) == b1.take(i - 1));
                    if i == a.len() || a[i] < b[i] {
                        assert(a1[i - 1] == a[i] && b1[i - 1] == b[i]);
                    }
                }
            }
        }
    }
}

/// The files of a report of the duplicates stand in the order SQLite lists
/// them: by descending size first when grouping by size (sizes taken as
/// signed integers), then by ascending hash, and files with the same key by
/// ascending path.
pub proof fn lemma_report_in_listing_order(
    groups: Seq<GroupView>,
    files: Seq<IndexedView>,
    min_size: u64,
    by_size: bool,
    i: int,
    j: int,
)
    requires
        is_duplicate_report(groups, files, min_size, by_size),
        0 <= i < j < all_files(groups).len(),
    ensures
        ({
            let a = all_files(groups)[i];
            let b = all_files(groups)[j];
            &&& by_size ==> (a.size as i64) >= (b.size as i64)
            &&& (!by_size || a.size == b.size) ==> !text_lt(b.hash, a.hash)
            &&& ((!by_size || a.size == b.size) && a.hash == b.hash) ==> !text_lt(b.path, a.path)
        }),
{
    let a = all_files(groups)[i];
    let b = all_files(groups)[j];
    assert(listed_no_later(a, b, by_size));
    lemma_sizes_as_signed(a.size, b.size);
    if text_lt(a.hash, b.hash) {
        lemma_text_lt_asymmetric(a.hash, b.hash);
    }
}

} // verus!
