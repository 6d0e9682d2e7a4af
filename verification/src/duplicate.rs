//! Duplicate files and groups of duplicates, and how a sorted listing of
//! candidate files is cut into groups.
use vstd::prelude::*;

verus! {

broadcast use {vstd::seq_lib::group_seq_properties, vstd::seq::Seq::group_seq_flatten};

/// One file that belongs to a group of duplicates.
#[derive(Debug, Clone)]
pub struct DuplicateFile {
    /// Full path of the file.
    pub path: String,
    /// Size in bytes.
    pub size: u64,
    /// The hash that the file was grouped by.
    pub hash: String,
    /// Volume, device or mount point the file lives on.
    pub source_id: String,
}

/// The mathematical content of a [`DuplicateFile`].
pub struct FileView {
    pub path: Seq<char>,
    pub size: u64,
    pub hash: Seq<char>,
    pub source_id: Seq<char>,
}

impl View for DuplicateFile {
    type V = FileView;

    open spec fn view(&self) -> FileView {
        FileView { path: self.path@, size: self.size, hash: self.hash@, source_id: self.source_id@ }
    }
}

/// A group of files whose contents are equal, or probably equal.
#[derive(Debug)]
pub struct DuplicateGroup {
    /// Number of the group, counted from 1.
    pub group_id: usize,
    /// Size of the files of the group.
    pub size: u64,
    /// Hash shared by the files of the group.
    pub hash: String,
    /// The files of the group.
    pub files: Vec<DuplicateFile>,
}

/// The mathematical content of a [`DuplicateGroup`].
pub struct GroupView {
    pub group_id: usize,
    pub size: u64,
    pub hash: Seq<char>,
    pub files: Seq<FileView>,
}

impl View for DuplicateGroup {
    type V = GroupView;

    open spec fn view(&self) -> GroupView {
        GroupView {
            group_id: self.group_id,
            size: self.size,
            hash: self.hash@,
            files: file_views(self.files@),
        }
    }
}

/// The views of a sequence of files.
pub open spec fn file_views(files: Seq<DuplicateFile>) -> Seq<FileView> {
    files.map_values(|f: DuplicateFile| f@)
}

/// The views of a sequence of groups.
pub open spec fn group_views(groups: Seq<DuplicateGroup>) -> Seq<GroupView> {
    groups.map_values(|g: DuplicateGroup| g@)
}

/// Space that a group wastes: every file but one could go.
pub open spec fn wasted(count: nat, size: u64) -> nat {
    if count == 0 {
        0
    } else {
        ((count - 1) as nat) * (size as nat)
    }
}

impl DuplicateGroup {
    /// Whether the wasted space of this group fits in a `u64`.
    pub open spec fn wasted_fits(&self) -> bool {
        wasted(self.files@.len(), self.size) <= u64::MAX
    }

    /// Space wasted by the group: `(number of files - 1) * size`, and 0 for a
    /// group without files.
    pub fn wasted_space(&self) -> (r: u64)
        requires
            self.wasted_fits(),
        ensures
            r == wasted(self.files@.len(), self.size),
    {
        let n = self.files.len();
        if n == 0 {
            return 0;
        }
        let spare64: u64 = (n - 1) as u64;
        proof {
            assert(spare64 as nat == (self.files@.len() - 1) as nat);
            assert(spare64 as nat * self.size as nat == wasted(self.files@.len(), self.size));
        }
        spare64 * self.size
    }
}

impl DuplicateGroup {
    /// The wasted space of the group, or `None` when it does not fit in a
    /// `u64`.
    pub fn checked_wasted_space(&self) -> (r: Option<u64>)
        ensures
            r == if self.wasted_fits() {
                Some(wasted(self.files@.len(), self.size) as u64)
            } else {
                None::<u64>
            },
    {
        let n = self.files.len();
        if n == 0 {
            return Some(0);
        }
        let spare64: u64 = (n - 1) as u64;
        proof {
            assert(spare64 as nat * self.size as nat == wasted(self.files@.len(), self.size));
        }
        spare64.checked_mul(self.size)
    }
}

// ---------------------------------------------------------------------------
// Cutting a listing into groups
// ---------------------------------------------------------------------------

/// What files are grouped by: the hash alone, or the size and the hash.
pub open spec fn key_of(f: FileView, by_size: bool) -> (u64, Seq<char>) {
    if by_size {
        (f.size, f.hash)
    } else {
        (0u64, f.hash)
    }
}

/// The key of a group: that of its first file.
pub open spec fn group_key(g: GroupView, by_size: bool) -> (u64, Seq<char>) {
    key_of(g.files[0], by_size)
}

/// The files of all groups, one group after the other.
pub open spec fn all_files(groups: Seq<GroupView>) -> Seq<FileView> {
    groups.map_values(|g: GroupView| g.files).flatten()
}

/// Every group is numbered by its position, counted from 1.
pub open spec fn numbered_in_order(groups: Seq<GroupView>) -> bool {
    forall|i: int| 0 <= i < groups.len() ==> (#[trigger] groups[i]).group_id == i + 1
}

/// Every group is a nonempty run of files that share one key, and carries the
/// size and hash of its first file.
pub open spec fn runs_of_one_key(groups: Seq<GroupView>, by_size: bool) -> bool {
    &&& forall|i: int|
        0 <= i < groups.len() ==> {
            &&& (#[trigger] groups[i]).files.len() > 0
            &&& groups[i].size == groups[i].files[0].size
            &&& groups[i].hash == groups[i].files[0].hash
        }
    &&& forall|i: int, j: int|
        0 <= i < groups.len() && 0 <= j < groups[i].files.len() ==> key_of(
            #[trigger] groups[i].files[j],
            by_size,
        ) == group_key(groups[i], by_size)
}

/// Neighbouring groups have different keys: every run is as long as it can be.
pub open spec fn neighbours_differ(groups: Seq<GroupView>, by_size: bool) -> bool {
    forall|i: int, j: int|
        0 <= i && j == i + 1 && j < groups.len() ==> group_key(#[trigger] groups[i], by_size)
            != group_key(#[trigger] groups[j], by_size)
}

/// `groups` cuts `rows`, in order, into maximal runs of files with one key,
/// numbered from 1.
pub open spec fn is_grouping_of(groups: Seq<GroupView>, rows: Seq<FileView>, by_size: bool) -> bool {
    &&& all_files(groups) == rows
    &&& numbered_in_order(groups)
    &&& runs_of_one_key(groups, by_size)
    &&& neighbours_differ(groups, by_size)
}

/// The view of an optional group.
pub open spec fn open_view(open: Option<DuplicateGroup>) -> Option<GroupView> {
    match open {
        Some(g) => Some(g@),
        None => None,
    }
}

/// The groups built so far together with the one still open.
pub open spec fn with_open(done: Seq<GroupView>, open: Option<GroupView>) -> Seq<GroupView> {
    match open {
        Some(g) => done.push(g),
        None => done,
    }
}

/// A copy of `f`.
pub(crate) fn copy_file(f: &DuplicateFile) -> (r: DuplicateFile)
    ensures
        r@ == f@,
{
    DuplicateFile {
        path: f.path.clone(),
        size: f.size,
        hash: f.hash.clone(),
        source_id: f.source_id.clone(),
    }
}

/// Cuts a listing of duplicate candidates into groups.
///
/// Consecutive rows with the same key (the hash, or the size and the hash when
/// `group_by_size` holds) form one group; groups are numbered from 1 in the
/// order of the listing, and each carries the size and hash of its first row.
pub fn collect_duplicate_groups(rows: Vec<DuplicateFile>, group_by_size: bool) -> (groups: Vec<
    DuplicateGroup,
>)
    ensures
        is_grouping_of(group_views(groups@), file_views(rows@), group_by_size),
{
    let mut groups: Vec<DuplicateGroup> = Vec::new();
    let mut open: Option<DuplicateGroup> = None;
    let mut i: usize = 0;
    while i < rows.len()
        invariant
            0 <= i <= rows.len(),
            open.is_some() <==> i > 0,
            with_open(group_views(groups@), open_view(open)).len() <= i,
            is_grouping_of(
                with_open(group_views(groups@), open_view(open)),
                file_views(rows@).take(i as int),
                group_by_size,
            ),
        decreases rows.len() - i,
    {
        let f = copy_file(&rows[i]);
        let ghost done = group_views(groups@);
        let ghost before = with_open(done, open_view(open));
        let ghost fv = f@;
        assert(file_views(rows@).take(i + 1) =~= file_views(rows@).take(i as int).push(fv));
        match open {
            None => {
                let hash = f.hash.clone();
                let size = f.size;
                let mut files: Vec<DuplicateFile> = Vec::new();
                files.push(f);
                let g = DuplicateGroup { group_id: 1, size, hash, files };
                proof {
                    assert(file_views(g.files@) =~= seq![fv]);
                    assert(seq![g@].map_values(|h: GroupView| h.files) =~= seq![seq![fv]]);
                    assert(seq![seq![fv]].flatten() =~= seq![fv]) by {
                        Seq::<Seq<FileView>>::empty().lemma_flatten_push(seq![fv]);
                        assert(Seq::<Seq<FileView>>::empty().push(seq![fv]) =~= seq![seq![fv]]);
                    }
                    assert(with_open(group_views(groups@), Some(g@)) =~= seq![g@]);
                }
                open = Some(g);
            },
            Some(mut g) => {
                let same = if group_by_size {
                    g.size == f.size && g.hash == f.hash
                } else {
                    g.hash == f.hash
                };
                let ghost gv = g@;
                if same {
                    g.files.push(f);
                    proof {
                        assert(file_views(g.files@) =~= gv.files.push(fv));
                        let after = done.push(g@);
                        assert(before == done.push(gv));
                        assert(after.map_values(|h: GroupView| h.files) =~= done.map_values(
                            |h: GroupView| h.files,
                        ).push(gv.files.push(fv)));
                        assert(before.map_values(|h: GroupView| h.files) =~= done.map_values(
                            |h: GroupView| h.files,
                        ).push(gv.files));
                        assert(all_files(after) =~= all_files(before).push(fv));
                        assert(runs_of_one_key(after, group_by_size)) by {
                            assert forall|a: int| 0 <= a < after.len() implies {
                                &&& (#[trigger] after[a]).files.len() > 0
                                &&& after[a].size == after[a].files[0].size
                                &&& after[a].hash == after[a].files[0].hash
                            } by {
                                assert(before[a].files.len() > 0);
                                if a == done.len() {
                                    assert(before[a] == gv);
                                    assert(after[a].files[0] == gv.files[0]);
                                } else {
                                    assert(after[a] == before[a]);
                                }
                            }
                            assert forall|a: int, b: int|
                                0 <= a < after.len() && 0 <= b < after[a].files.len() implies key_of(
                                #[trigger] after[a].files[b],
                                group_by_size,
                            ) == group_key(after[a], group_by_size) by {
                                if a < done.len() {
                                    assert(after[a] == before[a]);
                                } else {
                                    assert(after[a] == g@);
                                    assert(before[a] == gv);
                                    if b < gv.files.len() {
                                        assert(after[a].files[b] == gv.files[b]);
                                    } else {
                                        assert(after[a].files[b] == fv);
                                        assert(after[a].files[0] == gv.files[0]);
                                    }
                                }
                            }
                        }
                        assert(neighbours_differ(after, group_by_size)) by {
                            assert forall|a: int, b: int|
                                0 <= a && b == a + 1 && b < after.len() implies group_key(
                                #[trigger] after[a],
                                group_by_size,
                            ) != group_key(#[trigger] after[b], group_by_size) by {
                                assert(before[a] == after[a]);
                                if b < done.len() {
                                    assert(before[b] == after[b]);
                                } else {
                                    assert(before[b] == gv);
                                    assert(after[b].files[0] == gv.files[0]);
                                }
                            }
                        }
                        assert(numbered_in_order(after)) by {
                            assert forall|a: int| 0 <= a < after.len() implies (#[trigger] after[a]).group_id
                                == a + 1 by {
                                assert(before[a].group_id == after[a].group_id);
                            }
                        }
                    }
                    open = Some(g);
                } else {
                    proof {
                        assert(before[done.len() as int] == gv);
                    }
                    let id = g.group_id + 1;
                    groups.push(g);
                    let hash = f.hash.clone();
                    let size = f.size;
                    let mut files: Vec<DuplicateFile> = Vec::new();
                    files.push(f);
                    let ng = DuplicateGroup { group_id: id, size, hash, files };
                    proof {
                        assert(file_views(ng.files@) =~= seq![fv]);
                        assert(group_views(groups@) =~= done.push(gv));
                        let after = done.push(gv).push(ng@);
                        assert(before == done.push(gv));
                        assert(after.map_values(|h: GroupView| h.files) =~= before.map_values(
                            |h: GroupView| h.files,
                        ).push(seq![fv]));
                        assert(all_files(after) =~= all_files(before) + seq![fv]);
                        assert(all_files(before) + seq![fv] =~= all_files(before).push(fv));
                        assert(runs_of_one_key(after, group_by_size)) by {
                            assert forall|a: int, b: int|
                                0 <= a < after.len() && 0 <= b < after[a].files.len() implies key_of(
                                #[trigger] after[a].files[b],
                                group_by_size,
                            ) == group_key(after[a], group_by_size) by {
                                if a < before.len() {
                                    assert(after[a] == before[a]);
                                }
                            }
                        }
                        assert(neighbours_differ(after, group_by_size)) by {
                            assert forall|a: int, b: int|
                                0 <= a && b == a + 1 && b < after.len() implies group_key(
                                #[trigger] after[a],
                                group_by_size,
                            ) != group_key(#[trigger] after[b], group_by_size) by {
                                if b < before.len() {
                                    assert(before[a] == after[a]);
                                    assert(before[b] == after[b]);
                                } else {
                                    assert(after[a] == gv);
                                    assert(after[b] == ng@);
                                }
                            }
                        }
                        assert(numbered_in_order(after)) by {
                            assert forall|a: int| 0 <= a < after.len() implies (#[trigger] after[a]).group_id
                                == a + 1 by {
                                if a < before.len() {
                                    assert(before[a] == after[a]);
                                }
                            }
                        }
                    }
                    open = Some(ng);
                }
            },
        }
        i = i + 1;
    }
    match open {
        Some(g) => {
            let ghost done = group_views(groups@);
            let ghost gv = g@;
            groups.push(g);
            proof {
                assert(group_views(groups@) =~= done.push(gv));
            }
        },
        None => {},
    }
    proof {
        assert(file_views(rows@).take(rows@.len() as int) =~= file_views(rows@));
    }
    groups
}

// ---------------------------------------------------------------------------
// Laws of the grouping
// ---------------------------------------------------------------------------

/// Equal keys stand next to each other in `rows`, as they do in a listing
/// ordered by key.
pub open spec fn keys_contiguous(rows: Seq<FileView>, by_size: bool) -> bool {
    forall|i: int, j: int, k: int|
        #![trigger rows[i], rows[j], rows[k]]
        0 <= i < j < k < rows.len() && key_of(rows[i], by_size) == key_of(rows[k], by_size)
            ==> key_of(rows[j], by_size) == key_of(rows[i], by_size)
}

/// Position in the listing where group `g` starts.
pub open spec fn start_of(groups: Seq<GroupView>, g: int) -> nat {
    all_files(groups.take(g)).len()
}

pub(crate) proof fn lemma_group_in_listing(groups: Seq<GroupView>, g: int)
    requires
        0 <= g < groups.len(),
    ensures
        start_of(groups, g) + groups[g].files.len() == start_of(groups, g + 1),
        start_of(groups, g + 1) <= all_files(groups).len(),
        forall|j: int|
            0 <= j < groups[g].files.len() ==> all_files(groups)[start_of(groups, g) + j]
                == #[trigger] groups[g].files[j],
{
    let f = groups.map_values(|h: GroupView| h.files);
    assert(groups.take(g).map_values(|h: GroupView| h.files) =~= f.take(g));
    assert(groups.take(g + 1).map_values(|h: GroupView| h.files) =~= f.take(g + 1));
    assert(f =~= f.take(g) + f.skip(g));
    vstd::seq_lib::lemma_flatten_concat(f.take(g), f.skip(g));
    assert(f.skip(g).drop_first() =~= f.skip(g + 1));
    assert(f.skip(g).first() == f[g]);
    assert(f.skip(g).flatten() == f[g] + f.skip(g + 1).flatten());
    assert(f.take(g + 1) =~= f.take(g).push(f[g]));
    f.take(g).lemma_flatten_push(f[g]);
    assert(all_files(groups) == f.take(g).flatten() + (f[g] + f.skip(g + 1).flatten()));
}

proof fn lemma_starts_grow(groups: Seq<GroupView>, a: int, b: int)
    requires
        0 <= a <= b <= groups.len(),
    ensures
        start_of(groups, a) <= start_of(groups, b),
    decreases b - a,
{
    if a < b {
        lemma_group_in_listing(groups, a);
        lemma_starts_grow(groups, a + 1, b);
    }
}

/// A listing in which equal keys stand together is cut into groups whose keys
/// are pairwise different: every key is reported as one group.
pub proof fn lemma_contiguous_rows_give_distinct_groups(
    groups: Seq<GroupView>,
    rows: Seq<FileView>,
    by_size: bool,
)
    requires
        is_grouping_of(groups, rows, by_size),
        keys_contiguous(rows, by_size),
    ensures
        forall|a: int, b: int|
            0 <= a < b < groups.len() ==> group_key(#[trigger] groups[a], by_size) != group_key(
                #[trigger] groups[b],
                by_size,
            ),
{
    assert forall|a: int, b: int| 0 <= a < b < groups.len() implies group_key(
        #[trigger] groups[a],
        by_size,
    ) != group_key(#[trigger] groups[b], by_size) by {
        lemma_group_in_listing(groups, a);
        lemma_group_in_listing(groups, a + 1);
        lemma_group_in_listing(groups, b);
        let pa = start_of(groups, a) as int;
        let pm = start_of(groups, a + 1) as int;
        let pb = start_of(groups, b) as int;
        assert(groups[a].files.len() > 0);
        assert(groups[a + 1].files.len() > 0);
        assert(groups[b].files.len() > 0);
        assert(rows[pa + 0] == groups[a].files[0]);
        assert(rows[pm + 0] == groups[a + 1].files[0]);
        assert(rows[pb + 0] == groups[b].files[0]);
        assert(group_key(groups[a], by_size) != group_key(groups[a + 1], by_size));
        if b > a + 1 {
            lemma_group_in_listing(groups, a + 1);
            lemma_starts_grow(groups, a + 2, b);
            assert(pa < pm < pb);
            if group_key(groups[a], by_size) == group_key(groups[b], by_size) {
                assert(key_of(rows[pm], by_size) == key_of(rows[pa], by_size));
            }
        }
    }
}

pub(crate) proof fn lemma_locate(groups: Seq<GroupView>, q: int, c: int) -> (r: (int, int))
    requires
        0 <= c < groups.len(),
        start_of(groups, c) <= q < all_files(groups).len(),
    ensures
        c <= r.0 < groups.len(),
        0 <= r.1 < groups[r.0].files.len(),
        q == start_of(groups, r.0) + r.1,
    decreases groups.len() - c,
{
    lemma_group_in_listing(groups, c);
    if q < start_of(groups, c + 1) {
        (c, q - start_of(groups, c))
    } else {
        if c + 1 == groups.len() {
            assert(groups.take(groups.len() as int) =~= groups);
            assert(false);
        }
        lemma_locate(groups, q, c + 1)
    }
}

/// Another row of `rows` than the one at `p` has its key.
pub open spec fn has_partner(rows: Seq<FileView>, p: int, by_size: bool) -> bool {
    exists|q: int|
        0 <= q < rows.len() && q != p && key_of(#[trigger] rows[q], by_size) == key_of(
            rows[p],
            by_size,
        )
}

/// Every key of `rows` stands on at least two rows, as in a listing of the
/// hashes that occur more than once.
pub open spec fn keys_repeated(rows: Seq<FileView>, by_size: bool) -> bool {
    forall|p: int| 0 <= p < rows.len() ==> #[trigger] has_partner(rows, p, by_size)
}

proof fn lemma_group_has_two(groups: Seq<GroupView>, rows: Seq<FileView>, by_size: bool, a: int)
    requires
        is_grouping_of(groups, rows, by_size),
        forall|x: int, y: int|
            0 <= x < y < groups.len() ==> group_key(#[trigger] groups[x], by_size) != group_key(
                #[trigger] groups[y],
                by_size,
            ),
        keys_repeated(rows, by_size),
        0 <= a < groups.len(),
    ensures
        groups[a].files.len() >= 2,
{
    lemma_group_in_listing(groups, a);
    let pa = start_of(groups, a) as int;
    assert(groups[a].files.len() > 0);
    assert(rows[pa + 0] == groups[a].files[0]);
    assert(has_partner(rows, pa, by_size));
    let q = choose|q: int|
        0 <= q < rows.len() && q != pa && key_of(#[trigger] rows[q], by_size) == key_of(
            rows[pa],
            by_size,
        );
    assert(groups.take(0) =~= Seq::<GroupView>::empty());
    assert(groups.take(0).map_values(|h: GroupView| h.files) =~= Seq::<Seq<FileView>>::empty());
    assert(start_of(groups, 0) == 0);
    let (c, t) = lemma_locate(groups, q, 0);
    lemma_group_in_listing(groups, c);
    assert(rows[q] == groups[c].files[t]);
    assert(key_of(groups[c].files[t], by_size) == group_key(groups[c], by_size));
    if c != a {
        if c < a {
            assert(group_key(groups[c], by_size) != group_key(groups[a], by_size));
        } else {
            assert(group_key(groups[a], by_size) != group_key(groups[c], by_size));
        }
    }
}

/// When equal keys stand together and every key stands on at least two rows,
/// every group holds at least two files: each group reported is a real set of
/// duplicates.
pub proof fn lemma_repeated_keys_give_real_duplicates(
    groups: Seq<GroupView>,
    rows: Seq<FileView>,
    by_size: bool,
)
    requires
        is_grouping_of(groups, rows, by_size),
        keys_contiguous(rows, by_size),
        keys_repeated(rows, by_size),
    ensures
        forall|a: int| 0 <= a < groups.len() ==> (#[trigger] groups[a]).files.len() >= 2,
{
    lemma_contiguous_rows_give_distinct_groups(groups, rows, by_size);
    assert forall|a: int| 0 <= a < groups.len() implies (#[trigger] groups[a]).files.len() >= 2 by {
        lemma_group_has_two(groups, rows, by_size, a);
    }
}

proof fn lemma_all_files_split(groups: Seq<GroupView>)
    requires
        groups.len() > 0,
    ensures
        all_files(groups) == all_files(groups.drop_last()) + groups.last().files,
{
    let f = groups.map_values(|h: GroupView| h.files);
    assert(f =~= groups.drop_last().map_values(|h: GroupView| h.files).push(groups.last().files));
    groups.drop_last().map_values(|h: GroupView| h.files).lemma_flatten_push(groups.last().files);
}

proof fn lemma_grouping_of_prefix(groups: Seq<GroupView>, rows: Seq<FileView>, by_size: bool)
    requires
        is_grouping_of(groups, rows, by_size),
        groups.len() > 0,
    ensures
        is_grouping_of(
            groups.drop_last(),
            rows.take(rows.len() - groups.last().files.len()),
            by_size,
        ),
        rows == rows.take(rows.len() - groups.last().files.len()) + groups.last().files,
{
    lemma_all_files_split(groups);
    let g = groups.drop_last();
    assert(rows.take(rows.len() - groups.last().files.len()) =~= all_files(g));
    assert(numbered_in_order(g)) by {
        assert forall|i: int| 0 <= i < g.len() implies (#[trigger] g[i]).group_id == i + 1 by {
            assert(g[i] == groups[i]);
        }
    }
    assert(runs_of_one_key(g, by_size)) by {
        assert forall|i: int| 0 <= i < g.len() implies {
            &&& (#[trigger] g[i]).files.len() > 0
            &&& g[i].size == g[i].files[0].size
            &&& g[i].hash == g[i].files[0].hash
        } by {
            assert(g[i] == groups[i]);
        }
        assert forall|i: int, j: int|
            0 <= i < g.len() && 0 <= j < g[i].files.len() implies key_of(
            #[trigger] g[i].files[j],
            by_size,
        ) == group_key(g[i], by_size) by {
            assert(g[i] == groups[i]);
        }
    }
    assert(neighbours_differ(g, by_size)) by {
        assert forall|i: int, j: int| 0 <= i && j == i + 1 && j < g.len() implies group_key(
            #[trigger] g[i],
            by_size,
        ) != group_key(#[trigger] g[j], by_size) by {
            assert(g[i] == groups[i]);
            assert(g[j] == groups[j]);
        }
    }
}

/// The grouping of a listing is determined by the listing: two groupings of
/// the same rows are the same groups.
#[verifier::spinoff_prover]
#[verifier::rlimit(40)]
pub proof fn lemma_grouping_is_unique(
    g1: Seq<GroupView>,
    g2: Seq<GroupView>,
    rows: Seq<FileView>,
    by_size: bool,
)
    requires
        is_grouping_of(g1, rows, by_size),
        is_grouping_of(g2, rows, by_size),
    ensures
        g1 == g2,
    decreases rows.len(),
{
    if g1.len() == 0 || g2.len() == 0 {
        if g1.len() > 0 {
            lemma_all_files_split(g1);
            assert(g1.last() == g1[g1.len() - 1]);
            assert(rows.len() > 0);
        }
        if g2.len() > 0 {
            lemma_all_files_split(g2);
            assert(g2.last() == g2[g2.len() - 1]);
            assert(rows.len() > 0);
        }
        assert(g1 =~= g2);
    } else {
        let n = rows.len() as int;
        let a = g1.last();
        let b = g2.last();
        let la = a.files.len() as int;
        let lb = b.files.len() as int;
        assert(a == g1[g1.len() - 1]);
        assert(b == g2[g2.len() - 1]);
        lemma_grouping_of_prefix(g1, rows, by_size);
        lemma_grouping_of_prefix(g2, rows, by_size);
        assert(la > 0 && lb > 0);
        // Both last groups end with the last row.
        assert(rows[n - 1] == a.files[la - 1]);
        assert(rows[n - 1] == b.files[lb - 1]);
        assert(key_of(a.files[la - 1], by_size) == group_key(a, by_size));
        assert(key_of(b.files[lb - 1], by_size) == group_key(b, by_size));
        if la < lb {
            // The row just before g1's last group lies in g2's last group.
            let p = n - la - 1;
            assert(rows[p] == b.files[lb - la - 1]);
            assert(key_of(b.files[lb - la - 1], by_size) == group_key(b, by_size));
            assert(g1.len() >= 2) by {
                if g1.len() == 1 {
                    assert(g1.drop_last() =~= Seq::<GroupView>::empty());
                    assert(all_files(g1.drop_last()) =~= Seq::<FileView>::empty());
                }
            }
            let pre = g1.drop_last();
            lemma_all_files_split(pre);
            let c = pre.last();
            assert(c == g1[g1.len() - 2]);
            assert(c.files.len() > 0);
            assert(rows[p] == c.files[c.files.len() - 1]);
            assert(key_of(c.files[c.files.len() - 1], by_size) == group_key(c, by_size));
            assert(group_key(g1[g1.len() - 2], by_size) != group_key(g1[g1.len() - 1], by_size));
        } else if lb < la {
            let p = n - lb - 1;
            assert(rows[p] == a.files[la - lb - 1]);
            assert(key_of(a.files[la - lb - 1], by_size) == group_key(a, by_size));
            assert(g2.len() >= 2) by {
                if g2.len() == 1 {
                    assert(g2.drop_last() =~= Seq::<GroupView>::empty());
                    assert(all_files(g2.drop_last()) =~= Seq::<FileView>::empty());
                }
            }
            let pre = g2.drop_last();
            lemma_all_files_split(pre);
            let c = pre.last();
            assert(c == g2[g2.len() - 2]);
            assert(c.files.len() > 0);
            assert(rows[p] == c.files[c.files.len() - 1]);
            assert(key_of(c.files[c.files.len() - 1], by_size) == group_key(c, by_size));
            assert(group_key(g2[g2.len() - 2], by_size) != group_key(g2[g2.len() - 1], by_size));
        }
        assert(la == lb);
        assert(a.files =~= b.files) by {
            assert forall|k: int| 0 <= k < la implies a.files[k] == b.files[k] by {
                assert(rows[n - la + k] == a.files[k]);
                assert(rows[n - lb + k] == b.files[k]);
            }
        }
        let prefix = rows.take(n - la);
        lemma_grouping_is_unique(g1.drop_last(), g2.drop_last(), prefix, by_size);
        assert(g1.drop_last().len() == g2.drop_last().len());
        assert(a.group_id == g1.len());
        assert(b.group_id == g2.len());
        assert(a == b);
        assert(g1 =~= g2.drop_last().push(b));
        assert(g2 =~= g2.drop_last().push(b));
    }
}

} // verus!
