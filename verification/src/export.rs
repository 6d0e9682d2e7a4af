//! What the exports hold: one CSV record per duplicate file, and a JSON
//! report with the groups and their totals. Writing them out is left to the
//! caller.
use vstd::prelude::*;
use crate::duplicate::{DuplicateGroup, FileView, GroupView, group_views, wasted};

verus! {

broadcast use {vstd::seq_lib::group_seq_properties, vstd::seq::Seq::group_seq_flatten};

/// One record of the CSV export.
pub struct CsvRecord {
    pub duplicate_group_id: usize,
    pub path: String,
    pub size: u64,
    pub hash: String,
    pub source_id: String,
}

/// The mathematical content of a [`CsvRecord`].
pub struct CsvView {
    pub duplicate_group_id: usize,
    pub path: Seq<char>,
    pub size: u64,
    pub hash: Seq<char>,
    pub source_id: Seq<char>,
}

impl View for CsvRecord {
    type V = CsvView;

    open spec fn view(&self) -> CsvView {
        CsvView {
            duplicate_group_id: self.duplicate_group_id,
            path: self.path@,
            size: self.size,
            hash: self.hash@,
            source_id: self.source_id@,
        }
    }
}

/// The record of file `f` of group `id`.
pub open spec fn csv_record(id: usize, f: FileView) -> CsvView {
    CsvView { duplicate_group_id: id, path: f.path, size: f.size, hash: f.hash, source_id: f.source_id }
}

/// The records of one group, in the order of its files.
pub open spec fn group_records(g: GroupView) -> Seq<CsvView> {
    g.files.map_values(|f: FileView| csv_record(g.group_id, f))
}

/// The records of all groups, group after group.
pub open spec fn csv_records_of(groups: Seq<GroupView>) -> Seq<CsvView> {
    groups.map_values(|g: GroupView| group_records(g)).flatten()
}

/// The views of a sequence of records.
pub open spec fn record_views(rs: Seq<CsvRecord>) -> Seq<CsvView> {
    rs.map_values(|r: CsvRecord| r@)
}

fn copy_str(s: &String) -> (r: String)
    ensures
        r@ == s@,
{
    s.clone()
}

/// The CSV records for `groups`: one per file, group after group, each with
/// the number of its group.
pub fn csv_records(groups: &[DuplicateGroup]) -> (r: Vec<CsvRecord>)
    ensures
        record_views(r@) == csv_records_of(group_views(groups@)),
{
    let mut out: Vec<CsvRecord> = Vec::new();
    let mut i: usize = 0;
    while i < groups.len()
        invariant
            i <= groups@.len(),
            record_views(out@) == csv_records_of(group_views(groups@).take(i as int)),
        decreases groups@.len() - i,
    {
        let g = &groups[i];
        let ghost before = record_views(out@);
        let mut j: usize = 0;
        while j < g.files.len()
            invariant
                i < groups@.len(),
                *g == groups@[i as int],
                j <= g.files@.len(),
                record_views(out@) == before + group_records(g@).take(j as int),
            decreases g.files@.len() - j,
        {
            let f = &g.files[j];
            let rec = CsvRecord {
                duplicate_group_id: g.group_id,
                path: copy_str(&f.path),
                size: f.size,
                hash: copy_str(&f.hash),
                source_id: copy_str(&f.source_id),
            };
            let ghost prev = record_views(out@);
            out.push(rec);
            proof {
                assert(record_views(out@) =~= prev.push(rec@));
                assert(g@.files[j as int] == f@);
                assert(rec@ == csv_record(g.group_id, f@));
                assert(group_records(g@).take(j + 1) =~= group_records(g@).take(j as int).push(
                    rec@,
                ));
            }
            j = j + 1;
        }
        proof {
            assert(group_records(g@).take(g@.files.len() as int) =~= group_records(g@));
            let gs = group_views(groups@);
            assert(gs.take(i + 1) =~= gs.take(i as int).push(gs[i as int]));
            assert(gs.take(i + 1).map_values(|h: GroupView| group_records(h)) =~= gs.take(
                i as int,
            ).map_values(|h: GroupView| group_records(h)).push(group_records(gs[i as int])));
        }
        i = i + 1;
    }
    proof {
        assert(group_views(groups@).take(groups@.len() as int) =~= group_views(groups@));
    }
    out
}

// ---------------------------------------------------------------------------
// JSON report
// ---------------------------------------------------------------------------

/// A file in the JSON report.
pub struct JsonFile {
    pub path: String,
    pub source_id: String,
}

/// A group in the JSON report.
pub struct JsonGroup {
    pub group_id: usize,
    pub size: u64,
    pub hash: String,
    pub file_count: usize,
    pub files: Vec<JsonFile>,
}

/// The JSON report: the groups and their totals.
pub struct JsonExport {
    pub groups: Vec<JsonGroup>,
    pub total_groups: usize,
    pub total_duplicate_files: usize,
    pub total_wasted_space: u64,
}

/// Number of files in all groups.
pub open spec fn total_files(groups: Seq<GroupView>) -> nat
    decreases groups.len(),
{
    if groups.len() == 0 {
        0
    } else {
        total_files(groups.drop_last()) + groups.last().files.len()
    }
}

/// Space wasted by all groups.
pub open spec fn total_wasted(groups: Seq<GroupView>) -> nat
    decreases groups.len(),
{
    if groups.len() == 0 {
        0
    } else {
        total_wasted(groups.drop_last()) + wasted(groups.last().files.len(), groups.last().size)
    }
}

/// The totals of `groups` fit in the integers that hold them.
pub open spec fn totals_fit(groups: Seq<GroupView>) -> bool {
    total_files(groups) <= usize::MAX && total_wasted(groups) <= u64::MAX
}

proof fn lemma_totals_grow(groups: Seq<GroupView>, i: int)
    requires
        0 <= i <= groups.len(),
    ensures
        total_files(groups.take(i)) <= total_files(groups),
        total_wasted(groups.take(i)) <= total_wasted(groups),
    decreases groups.len() - i,
{
    if i < groups.len() {
        lemma_totals_grow(groups, i + 1);
        assert(groups.take(i + 1).drop_last() =~= groups.take(i));
    } else {
        assert(groups.take(i) =~= groups);
    }
}

/// The paths and sources of the files of a group.
pub open spec fn json_file_ok(j: JsonFile, f: FileView) -> bool {
    j.path@ == f.path && j.source_id@ == f.source_id
}

/// A group of the report describes group `g`.
pub open spec fn json_group_ok(j: JsonGroup, g: GroupView) -> bool {
    &&& j.group_id == g.group_id
    &&& j.size == g.size
    &&& j.hash@ == g.hash
    &&& j.file_count == g.files.len()
    &&& j.files@.len() == g.files.len()
    &&& forall|k: int| 0 <= k < g.files.len() ==> json_file_ok(#[trigger] j.files@[k], g.files[k])
}

fn json_group(g: &DuplicateGroup) -> (r: JsonGroup)
    ensures
        json_group_ok(r, g@),
{
    let mut files: Vec<JsonFile> = Vec::new();
    let mut k: usize = 0;
    while k < g.files.len()
        invariant
            k <= g.files@.len(),
            files@.len() == k,
            forall|m: int| 0 <= m < k ==> json_file_ok(#[trigger] files@[m], g@.files[m]),
        decreases g.files@.len() - k,
    {
        let f = &g.files[k];
        files.push(JsonFile { path: copy_str(&f.path), source_id: copy_str(&f.source_id) });
        proof {
            assert(g@.files[k as int] == f@);
        }
        k = k + 1;
    }
    JsonGroup {
        group_id: g.group_id,
        size: g.size,
        hash: copy_str(&g.hash),
        file_count: g.files.len(),
        files,
    }
}

/// The space wasted by all groups together, or `None` when it does not fit in
/// a `u64`.
pub fn total_wasted_space(groups: &[DuplicateGroup]) -> (r: Option<u64>)
    ensures
        r == if total_wasted(group_views(groups@)) <= u64::MAX {
            Some(total_wasted(group_views(groups@)) as u64)
        } else {
            None::<u64>
        },
{
    let ghost gs = group_views(groups@);
    let mut waste: u64 = 0;
    let mut i: usize = 0;
    while i < groups.len()
        invariant
            i <= groups@.len(),
            gs == group_views(groups@),
            waste == total_wasted(gs.take(i as int)),
        decreases groups@.len() - i,
    {
        let g = &groups[i];
        proof {
            lemma_totals_grow(gs, i + 1);
            assert(gs.take(i + 1).drop_last() =~= gs.take(i as int));
            assert(gs.take(i + 1).last() == g@);
        }
        match g.checked_wasted_space() {
            None => {
                return None;
            },
            Some(w) => match waste.checked_add(w) {
                None => {
                    return None;
                },
                Some(t) => {
                    waste = t;
                },
            },
        }
        i = i + 1;
    }
    proof {
        assert(gs.take(groups@.len() as int) =~= gs);
    }
    Some(waste)
}

/// The number of files in all groups together, or `None` when it does not fit
/// in a `usize`.
pub fn total_file_count(groups: &[DuplicateGroup]) -> (r: Option<usize>)
    ensures
        r == if total_files(group_views(groups@)) <= usize::MAX {
            Some(total_files(group_views(groups@)) as usize)
        } else {
            None::<usize>
        },
{
    let ghost gs = group_views(groups@);
    let mut files: usize = 0;
    let mut i: usize = 0;
    while i < groups.len()
        invariant
            i <= groups@.len(),
            gs == group_views(groups@),
            files == total_files(gs.take(i as int)),
        decreases groups@.len() - i,
    {
        let g = &groups[i];
        proof {
            lemma_totals_grow(gs, i + 1);
            assert(gs.take(i + 1).drop_last() =~= gs.take(i as int));
            assert(gs.take(i + 1).last() == g@);
        }
        match files.checked_add(g.files.len()) {
            None => {
                return None;
            },
            Some(t) => {
                files = t;
            },
        }
        i = i + 1;
    }
    proof {
        assert(gs.take(groups@.len() as int) =~= gs);
    }
    Some(files)
}

/// The JSON report for `groups`: one entry per group with its files, the
/// number of groups, the number of files, and the space wasted by all groups
/// together; `None` when a total does not fit in its integer.
pub fn json_report(groups: &[DuplicateGroup]) -> (r: Option<JsonExport>)
    ensures
        r is Some <==> totals_fit(group_views(groups@)),
        r matches Some(rep) ==> {
            &&& rep.groups@.len() == groups@.len()
            &&& forall|i: int|
                0 <= i < groups@.len() ==> json_group_ok(#[trigger] rep.groups@[i], groups@[i]@)
            &&& rep.total_groups == groups@.len()
            &&& rep.total_duplicate_files == total_files(group_views(groups@))
            &&& rep.total_wasted_space == total_wasted(group_views(groups@))
        },
{
    let files = match total_file_count(groups) {
        None => {
            return None;
        },
        Some(n) => n,
    };
    let waste = match total_wasted_space(groups) {
        None => {
            return None;
        },
        Some(w) => w,
    };
    let mut out: Vec<JsonGroup> = Vec::new();
    let mut i: usize = 0;
    while i < groups.len()
        invariant
            i <= groups@.len(),
            out@.len() == i,
            forall|m: int| 0 <= m < i ==> json_group_ok(#[trigger] out@[m], groups@[m]@),
        decreases groups@.len() - i,
    {
        out.push(json_group(&groups[i]));
        i = i + 1;
    }
    Some(
        JsonExport {
            groups: out,
            total_groups: groups.len(),
            total_duplicate_files: files,
            total_wasted_space: waste,
        },
    )
}

/// The CSV export has one record per file that the JSON report counts.
pub proof fn lemma_csv_counts_files(groups: Seq<GroupView>)
    ensures
        csv_records_of(groups).len() == total_files(groups),
    decreases groups.len(),
{
    if groups.len() > 0 {
        lemma_csv_counts_files(groups.drop_last());
        let f = groups.map_values(|g: GroupView| group_records(g));
        assert(f =~= groups.drop_last().map_values(|g: GroupView| group_records(g)).push(
            group_records(groups.last()),
        ));
    }
}


proof fn lemma_records_split(groups: Seq<GroupView>, a: int)
    requires
        0 <= a < groups.len(),
    ensures
        csv_records_of(groups) == csv_records_of(groups.take(a)) + group_records(groups[a])
            + csv_records_of(groups.skip(a + 1)),
{
    let f = groups.map_values(|g: GroupView| group_records(g));
    assert(groups.take(a).map_values(|g: GroupView| group_records(g)) =~= f.take(a));
    assert(groups.skip(a + 1).map_values(|g: GroupView| group_records(g)) =~= f.skip(a + 1));
    assert(f =~= f.take(a) + f.skip(a));
    vstd::seq_lib::lemma_flatten_concat(f.take(a), f.skip(a));
    assert(f.skip(a) =~= seq![f[a]] + f.skip(a + 1));
    vstd::seq_lib::lemma_flatten_concat(seq![f[a]], f.skip(a + 1));
    assert(seq![f[a]].drop_first() =~= Seq::<Seq<CsvView>>::empty());
    assert(seq![f[a]].flatten() == f[a] + seq![f[a]].drop_first().flatten());
    assert(f[a] + Seq::<CsvView>::empty() =~= f[a]);
}

/// Each file of each group has its own CSV record: the record of file `k` of
/// group `a` stands after the records of the files of the groups before it,
/// and holds the number of its group and that file's path, size, hash and
/// source.
pub proof fn lemma_csv_record_of_each_file(groups: Seq<GroupView>, a: int, k: int)
    requires
        0 <= a < groups.len(),
        0 <= k < groups[a].files.len(),
    ensures
        ({
            let p = total_files(groups.take(a)) + k;
            let r = csv_records_of(groups)[p];
            let f = groups[a].files[k];
            &&& p < csv_records_of(groups).len()
            &&& r.duplicate_group_id == groups[a].group_id
            &&& r.path == f.path
            &&& r.size == f.size
            &&& r.hash == f.hash
            &&& r.source_id == f.source_id
        }),
{
    lemma_records_split(groups, a);
    lemma_csv_counts_files(groups.take(a));
    lemma_csv_counts_files(groups);
    lemma_totals_grow(groups, a);
    assert(groups.take(a + 1).drop_last() =~= groups.take(a));
    lemma_totals_grow(groups, a + 1);
}

/// A JSON report describes each group and each of its files: group `i` of the
/// report holds the number, size and hash of group `i` and as many files, and
/// its file `k` holds the path and source of file `k` of that group.
pub proof fn lemma_json_report_describes_files(
    rep: JsonExport,
    groups: Seq<DuplicateGroup>,
    i: int,
    k: int,
)
    requires
        rep.groups@.len() == groups.len(),
        forall|m: int| 0 <= m < groups.len() ==> json_group_ok(#[trigger] rep.groups@[m], groups[m]@),
        0 <= i < groups.len(),
    ensures
        rep.groups@[i].group_id == groups[i].group_id,
        rep.groups@[i].size == groups[i].size,
        rep.groups@[i].hash@ == groups[i].hash@,
        rep.groups@[i].file_count == groups[i].files@.len(),
        rep.groups@[i].files@.len() == groups[i].files@.len(),
        0 <= k < groups[i].files@.len() ==> {
            &&& rep.groups@[i].files@[k].path@ == groups[i].files@[k].path@
            &&& rep.groups@[i].files@[k].source_id@ == groups[i].files@[k].source_id@
        },
{
    assert(json_group_ok(rep.groups@[i], groups[i]@));
    if 0 <= k < groups[i].files@.len() {
        assert(groups[i]@.files[k] == groups[i].files@[k]@);
        assert(json_file_ok(rep.groups@[i].files@[k], groups[i]@.files[k]));
    }
}


/// The totals add up over the groups: those of no groups are 0, those of one
/// group are its number of files and the space its copies beyond the first
/// take (the size for each file but one), and those of two runs of groups
/// are the sums of theirs.
pub proof fn lemma_totals_add_up(a: Seq<GroupView>, b: Seq<GroupView>, g: GroupView)
    ensures
        total_files(Seq::<GroupView>::empty()) == 0,
        total_wasted(Seq::<GroupView>::empty()) == 0,
        total_files(seq![g]) == g.files.len(),
        g.files.len() > 0 ==> total_wasted(seq![g]) + g.size == g.files.len() * g.size,
        g.files.len() == 0 ==> total_wasted(seq![g]) == 0,
        total_files(a + b) == total_files(a) + total_files(b),
        total_wasted(a + b) == total_wasted(a) + total_wasted(b),
    decreases b.len(),
{
    assert(seq![g].drop_last() =~= Seq::<GroupView>::empty());
    if g.files.len() > 0 {
        let n = g.files.len() as int;
        let z = g.size as int;
        assert((n - 1) * z + z == n * z) by (nonlinear_arith);
    }
    if b.len() == 0 {
        assert(a + b =~= a);
    } else {
        lemma_totals_add_up(a, b.drop_last(), g);
        assert((a + b).drop_last() =~= a + b.drop_last());
        assert((a + b).last() == b.last());
    }
}

} // verus!
