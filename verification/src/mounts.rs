//! The mount table and the mount that a path lives on.
//!
//! The table is read in the format of `/proc/self/mounts`: one mount per
//! line, its fields separated by spaces, the mount point second and the file
//! system type third, with spaces, tabs, newlines and backslashes in the mount
//! point written as octal escapes (`\040`, `\011`, `\012`, `\134`). A path
//! lives on the mount with the longest mount point that contains it; where
//! the same point is mounted more than once, the last mount hides the others.
use vstd::prelude::*;
use crate::text::{chars_of, chars_start_with, is_prefix, string_from_chars};

verus! {

broadcast use vstd::string::group_string_axioms;

/// A mounted file system.
pub struct Mount {
    /// Where it is mounted.
    pub point: String,
    /// The type of the file system, such as `ext4`, `nfs` or `cifs`.
    pub fs_type: String,
}

/// The mathematical content of a [`Mount`].
pub struct MountView {
    pub point: Seq<char>,
    pub fs_type: Seq<char>,
}

impl View for Mount {
    type V = MountView;

    open spec fn view(&self) -> MountView {
        MountView { point: self.point@, fs_type: self.fs_type@ }
    }
}

/// The views of a mount table.
pub open spec fn mount_views(ms: Seq<Mount>) -> Seq<MountView> {
    ms.map_values(|m: Mount| m@)
}

// ---------------------------------------------------------------------------
// Reading the table
// ---------------------------------------------------------------------------

/// `s` cut at every `sep`, as `str::split` cuts it: one piece more than
/// there are separators, empty pieces included.
pub open spec fn split_by(s: Seq<char>, sep: char) -> Seq<Seq<char>>
    decreases s.len(),
{
    if s.len() == 0 {
        seq![Seq::<char>::empty()]
    } else {
        let prev = split_by(s.drop_last(), sep);
        if s.last() == sep {
            prev.push(Seq::<char>::empty())
        } else {
            prev.update(prev.len() - 1, prev.last().push(s.last()))
        }
    }
}

/// The character that the octal escape `\abc` of the mount table stands for.
pub open spec fn escaped_char(a: char, b: char, c: char) -> Option<char> {
    if a == '0' && b == '4' && c == '0' {
        Some(' ')
    } else if a == '0' && b == '1' && c == '1' {
        Some('\t')
    } else if a == '0' && b == '1' && c == '2' {
        Some('\n')
    } else if a == '1' && b == '3' && c == '4' {
        Some('\\')
    } else {
        None
    }
}

/// `s` with its escapes replaced by the characters they stand for, read from
/// the left.
pub open spec fn unescape(s: Seq<char>) -> Seq<char>
    decreases s.len(),
{
    if s.len() == 0 {
        Seq::empty()
    } else if s.len() >= 4 && s[0] == '\\' && escaped_char(s[1], s[2], s[3]) is Some {
        seq![escaped_char(s[1], s[2], s[3])->0] + unescape(s.skip(4))
    } else {
        seq![s[0]] + unescape(s.skip(1))
    }
}

/// The mount that a line of the table describes: its second field, unescaped,
/// and its third. A line with fewer than three fields describes none.
pub open spec fn line_mount(line: Seq<char>) -> Option<MountView> {
    let fields = split_by(line, ' ');
    if fields.len() >= 3 {
        Some(MountView { point: unescape(fields[1]), fs_type: fields[2] })
    } else {
        None
    }
}

/// The mounts that `lines` describe, in order.
pub open spec fn mounts_of_lines(lines: Seq<Seq<char>>) -> Seq<MountView>
    decreases lines.len(),
{
    if lines.len() == 0 {
        Seq::empty()
    } else {
        let prev = mounts_of_lines(lines.drop_last());
        match line_mount(lines.last()) {
            Some(m) => prev.push(m),
            None => prev,
        }
    }
}

/// The mounts that the text of a mount table describes, in order.
pub open spec fn mount_table(text: Seq<char>) -> Seq<MountView> {
    mounts_of_lines(split_by(text, '\n'))
}

/// The views of a list of character vectors.
pub open spec fn piece_views(v: Seq<Vec<char>>) -> Seq<Seq<char>> {
    v.map_values(|p: Vec<char>| p@)
}

/// `s` cut at every `sep`.
pub fn split_chars(s: &Vec<char>, sep: char) -> (r: Vec<Vec<char>>)
    ensures
        piece_views(r@) == split_by(s@, sep),
{
    let mut pieces: Vec<Vec<char>> = Vec::new();
    let mut cur: Vec<char> = Vec::new();
    proof {
        assert(s@.take(0) =~= Seq::<char>::empty());
        assert(piece_views(pieces@).push(cur@) =~= seq![Seq::<char>::empty()]);
    }
    for i in 0..s.len()
        invariant
            piece_views(pieces@).push(cur@) == split_by(s@.take(i as int), sep),
    {
        let c = s[i];
        let ghost before = piece_views(pieces@);
        let ghost t = s@.take(i + 1);
        proof {
            assert(t.drop_last() =~= s@.take(i as int));
            assert(t.last() == c);
        }
        if c == sep {
            pieces.push(cur);
            cur = Vec::new();
            proof {
                assert(piece_views(pieces@) =~= before.push(piece_views(pieces@).last()));
                assert(piece_views(pieces@).push(cur@) =~= split_by(t, sep));
            }
        } else {
            let ghost old_cur = cur@;
            cur.push(c);
            proof {
                assert(before.push(cur@) =~= before.push(old_cur).update(
                    before.len() as int,
                    old_cur.push(c),
                ));
            }
        }
    }
    let ghost before = piece_views(pieces@);
    pieces.push(cur);
    proof {
        assert(piece_views(pieces@) =~= before.push(piece_views(pieces@).last()));
        assert(s@.take(s@.len() as int) =~= s@);
    }
    pieces
}

/// The character that the escape `\abc` stands for.
fn escaped(a: char, b: char, c: char) -> (r: Option<char>)
    ensures
        r == escaped_char(a, b, c),
{
    if a == '0' && b == '4' && c == '0' {
        Some(' ')
    } else if a == '0' && b == '1' && c == '1' {
        Some('\t')
    } else if a == '0' && b == '1' && c == '2' {
        Some('\n')
    } else if a == '1' && b == '3' && c == '4' {
        Some('\\')
    } else {
        None
    }
}

/// `s` with its escapes replaced.
pub fn unescape_chars(s: &Vec<char>) -> (r: Vec<char>)
    ensures
        r@ == unescape(s@),
{
    let mut out: Vec<char> = Vec::new();
    let mut i: usize = 0;
    proof {
        assert(s@.skip(0) =~= s@);
        assert(out@ + unescape(s@) =~= unescape(s@));
    }
    while i < s.len()
        invariant
            i <= s@.len(),
            out@ + unescape(s@.skip(i as int)) == unescape(s@),
        decreases s@.len() - i,
    {
        let ghost t = s@.skip(i as int);
        let ghost before = out@;
        let mut e: Option<char> = None;
        if s.len() - i >= 4 && s[i] == '\\' {
            e = escaped(s[i + 1], s[i + 2], s[i + 3]);
        }
        match e {
            Some(c) => {
                out.push(c);
                proof {
                    assert(t[0] == s@[i as int] && t[1] == s@[i + 1] && t[2] == s@[i + 2] && t[3]
                        == s@[i + 3]);
                    assert(t.skip(4) =~= s@.skip(i + 4));
                    assert(unescape(t) == seq![c] + unescape(t.skip(4)));
                    assert(out@ + unescape(s@.skip(i + 4)) =~= before + (seq![c] + unescape(
                        t.skip(4),
                    )));
                }
                i = i + 4;
            },
            None => {
                out.push(s[i]);
                proof {
                    assert(t[0] == s@[i as int]);
                    if t.len() >= 4 && t[0] == '\\' {
                        assert(t[1] == s@[i + 1] && t[2] == s@[i + 2] && t[3] == s@[i + 3]);
                    }
                    assert(t.skip(1) =~= s@.skip(i + 1));
                    assert(unescape(t) == seq![t[0]] + unescape(t.skip(1)));
                    assert(out@ + unescape(s@.skip(i + 1)) =~= before + (seq![t[0]] + unescape(
                        t.skip(1),
                    )));
                }
                i = i + 1;
            },
        }
    }
    proof {
        assert(s@.skip(i as int) =~= Seq::<char>::empty());
        assert(out@ + Seq::<char>::empty() =~= out@);
    }
    out
}

/// The mounts described by the text of a mount table, in the order of its
/// lines.
pub fn parse_mounts(text: &str) -> (r: Vec<Mount>)
    ensures
        mount_views(r@) == mount_table(text@),
{
    let chars = chars_of(text);
    let lines = split_chars(&chars, '\n');
    let ghost lv = piece_views(lines@);
    let mut out: Vec<Mount> = Vec::new();
    proof {
        assert(lv.take(0) =~= Seq::<Seq<char>>::empty());
        assert(mount_views(out@) =~= Seq::<MountView>::empty());
    }
    for i in 0..lines.len()
        invariant
            lv == piece_views(lines@),
            lv == split_by(text@, '\n'),
            mount_views(out@) == mounts_of_lines(lv.take(i as int)),
    {
        let fields = split_chars(&lines[i], ' ');
        let ghost before = mount_views(out@);
        proof {
            assert(lv.take(i + 1).drop_last() =~= lv.take(i as int));
            assert(lv.take(i + 1).last() == lines@[i as int]@);
        }
        if fields.len() >= 3 {
            let point = unescape_chars(&fields[1]);
            let m = Mount { point: string_from_chars(&point), fs_type: string_from_chars(&fields[2]) };
            out.push(m);
            proof {
                assert(piece_views(fields@)[1] == fields@[1]@);
                assert(piece_views(fields@)[2] == fields@[2]@);
                assert(mount_views(out@) =~= before.push(m@));
            }
        }
    }
    proof {
        assert(lv.take(lv.len() as int) =~= lv);
    }
    out
}


// ---------------------------------------------------------------------------
// Laws of the reading
// ---------------------------------------------------------------------------

proof fn lemma_split_nonempty(s: Seq<char>, sep: char)
    ensures
        split_by(s, sep).len() >= 1,
    decreases s.len(),
{
    if s.len() > 0 {
        lemma_split_nonempty(s.drop_last(), sep);
    }
}

/// A text without the separator is one piece, and a separator cuts a text in
/// two: the pieces of `a`, then those of `b`.
pub proof fn lemma_split_cuts_at_separators(a: Seq<char>, b: Seq<char>, sep: char)
    ensures
        !a.contains(sep) ==> split_by(a, sep) == seq![a],
        split_by(a + seq![sep] + b, sep) == split_by(a, sep) + split_by(b, sep),
    decreases a.len() + b.len(),
{
    if !a.contains(sep) && a.len() > 0 {
        assert(!a.drop_last().contains(sep)) by {
            if a.drop_last().contains(sep) {
                let i = choose|i: int| 0 <= i < a.drop_last().len() && a.drop_last()[i] == sep;
                assert(a[i] == sep);
            }
        }
        lemma_split_cuts_at_separators(a.drop_last(), Seq::empty(), sep);
        assert(a.last() != sep) by {
            assert(a[a.len() - 1] == a.last());
        }
        assert(a.drop_last().push(a.last()) =~= a);
        assert(seq![a.drop_last()].update(0, a) =~= seq![a]);
    } else if !a.contains(sep) {
        assert(a =~= Seq::<char>::empty());
    }
    let s = a + seq![sep] + b;
    if b.len() == 0 {
        assert(s.drop_last() =~= a);
        assert(s.last() == sep);
        assert(split_by(b, sep) =~= seq![Seq::<char>::empty()]);
    } else {
        lemma_split_cuts_at_separators(a, b.drop_last(), sep);
        lemma_split_nonempty(b.drop_last(), sep);
        assert(s.drop_last() =~= a + seq![sep] + b.drop_last());
        assert(s.last() == b.last());
        let x = split_by(a, sep);
        let y = split_by(b.drop_last(), sep);
        if b.last() != sep {
            assert((x + y).update((x + y).len() - 1, (x + y).last().push(b.last())) =~= x + y.update(
                y.len() - 1,
                y.last().push(b.last()),
            ));
        } else {
            assert((x + y).push(Seq::<char>::empty()) =~= x + y.push(Seq::<char>::empty()));
        }
    }
}

/// The escapes of the mount table stand for a space, a tab, a newline and a
/// backslash; any other character, a backslash that starts no escape among
/// them included, stands for itself, and text without backslashes is read as
/// it is.
pub proof fn lemma_unescape_reads_escapes(s: Seq<char>, x: char)
    ensures
        unescape(seq!['\\', '0', '4', '0'] + s) == seq![' '] + unescape(s),
        unescape(seq!['\\', '0', '1', '1'] + s) == seq!['\t'] + unescape(s),
        unescape(seq!['\\', '0', '1', '2'] + s) == seq!['\n'] + unescape(s),
        unescape(seq!['\\', '1', '3', '4'] + s) == seq!['\\'] + unescape(s),
        x != '\\' ==> unescape(seq![x] + s) == seq![x] + unescape(s),
        !s.contains('\\') ==> unescape(s) == s,
    decreases s.len(),
{
    assert((seq!['\\', '0', '4', '0'] + s).skip(4) =~= s);
    assert((seq!['\\', '0', '1', '1'] + s).skip(4) =~= s);
    assert((seq!['\\', '0', '1', '2'] + s).skip(4) =~= s);
    assert((seq!['\\', '1', '3', '4'] + s).skip(4) =~= s);
    assert((seq![x] + s).skip(1) =~= s);
    if !s.contains('\\') && s.len() > 0 {
        let t = s.skip(1);
        assert(!t.contains('\\')) by {
            if t.contains('\\') {
                let i = choose|i: int| 0 <= i < t.len() && t[i] == '\\';
                assert(s[i + 1] == '\\');
            }
        }
        lemma_unescape_reads_escapes(t, x);
        assert(s[0] != '\\');
        assert(s =~= seq![s[0]] + t);
    } else if s.len() == 0 {
        assert(unescape(s) =~= s);
    }
}

/// A line of the table whose first three fields `d`, `p` and `t` hold no
/// space describes the mount at `p`, unescaped, of type `t`, whatever
/// follows.
pub proof fn lemma_line_describes_mount(d: Seq<char>, p: Seq<char>, t: Seq<char>, rest: Seq<char>)
    requires
        !d.contains(' '),
        !p.contains(' '),
        !t.contains(' '),
    ensures
        line_mount(d + seq![' '] + p + seq![' '] + t + seq![' '] + rest) == Some(
            MountView { point: unescape(p), fs_type: t },
        ),
        line_mount(d + seq![' '] + p + seq![' '] + t) == Some(
            MountView { point: unescape(p), fs_type: t },
        ),
{
    let line = d + seq![' '] + p + seq![' '] + t + seq![' '] + rest;
    let tail2 = t + seq![' '] + rest;
    let tail1 = p + seq![' '] + tail2;
    assert(line =~= d + seq![' '] + tail1);
    assert(tail1 =~= p + seq![' '] + tail2);
    lemma_split_cuts_at_separators(d, tail1, ' ');
    lemma_split_cuts_at_separators(p, tail2, ' ');
    lemma_split_cuts_at_separators(t, rest, ' ');
    lemma_split_nonempty(rest, ' ');
    let f = split_by(line, ' ');
    assert(f =~= seq![d] + (seq![p] + (seq![t] + split_by(rest, ' '))));
    let short = d + seq![' '] + p + seq![' '] + t;
    let tail = p + seq![' '] + t;
    assert(short =~= d + seq![' '] + tail);
    lemma_split_cuts_at_separators(d, tail, ' ');
    lemma_split_cuts_at_separators(p, t, ' ');
    assert(split_by(short, ' ') =~= seq![d] + (seq![p] + seq![t]));
}

proof fn lemma_mounts_of_lines_add(a: Seq<Seq<char>>, b: Seq<Seq<char>>)
    ensures
        mounts_of_lines(a + b) == mounts_of_lines(a) + mounts_of_lines(b),
    decreases b.len(),
{
    if b.len() == 0 {
        assert(a + b =~= a);
        assert(mounts_of_lines(a) + Seq::<MountView>::empty() =~= mounts_of_lines(a));
    } else {
        lemma_mounts_of_lines_add(a, b.drop_last());
        assert((a + b).drop_last() =~= a + b.drop_last());
        assert((a + b).last() == b.last());
        let x = mounts_of_lines(a);
        let y = mounts_of_lines(b.drop_last());
        match line_mount(b.last()) {
            Some(m) => {
                assert((x + y).push(m) =~= x + y.push(m));
            },
            None => {},
        }
    }
}

/// The table is read line by line: the mounts of two parts of the text cut at
/// a newline are those of the first part, then those of the second; a single
/// line describes the mount it describes, or none.
pub proof fn lemma_table_reads_lines(a: Seq<char>, b: Seq<char>)
    ensures
        mount_table(a + seq!['\n'] + b) == mount_table(a) + mount_table(b),
        !a.contains('\n') ==> mount_table(a) == match line_mount(a) {
            Some(m) => seq![m],
            None => Seq::<MountView>::empty(),
        },
{
    lemma_split_cuts_at_separators(a, b, '\n');
    lemma_mounts_of_lines_add(split_by(a, '\n'), split_by(b, '\n'));
    if !a.contains('\n') {
        let l = seq![a];
        assert(split_by(a, '\n') == l);
        assert(l.drop_last() =~= Seq::<Seq<char>>::empty());
        assert(l.last() == a);
        assert(mounts_of_lines(l.drop_last()) == Seq::<MountView>::empty());
        match line_mount(a) {
            Some(m) => {
                assert(mounts_of_lines(l) == Seq::<MountView>::empty().push(m));
                assert(Seq::<MountView>::empty().push(m) =~= seq![m]);
            },
            None => {},
        }
    }
}

// ---------------------------------------------------------------------------
// The mount of a path
// ---------------------------------------------------------------------------

/// The mount point `point` contains `path`: it is a prefix of the path that
/// ends where a component of the path ends.
pub open spec fn covers(point: Seq<char>, path: Seq<char>) -> bool {
    &&& point.len() > 0
    &&& is_prefix(point, path)
    &&& (path.len() == point.len() || point.last() == '/' || path[point.len() as int] == '/')
}


/// A mount point contains itself and everything below it, and nothing that
/// merely starts with the same characters: for a point not ending in `/`,
/// the point followed by `/` and anything is contained, the point followed
/// by another character is not, and no path that does not start with the
/// point is; the empty point contains nothing.
pub proof fn lemma_covers_whole_components(point: Seq<char>, rest: Seq<char>, c: char, path: Seq<char>)
    ensures
        point.len() > 0 ==> covers(point, point),
        point.len() > 0 ==> covers(point, point + seq!['/'] + rest),
        point.len() > 0 && point.last() != '/' && c != '/' ==> !covers(point, point + seq![c] + rest),
        !(point.len() <= path.len() && path.take(point.len() as int) == point) ==> !covers(point, path),
        !covers(Seq::<char>::empty(), path),
{
    assert(point.take(point.len() as int) =~= point);
    assert((point + seq!['/'] + rest).take(point.len() as int) =~= point);
    assert((point + seq![c] + rest).take(point.len() as int) =~= point);
    assert((point + seq!['/'] + rest)[point.len() as int] == '/');
    assert((point + seq![c] + rest)[point.len() as int] == c);
}

/// The position in `ms` of the mount that `path` lives on: the last of the
/// mounts with the longest point that contains the path; `None` when no
/// point contains it.
pub open spec fn best_mount(ms: Seq<MountView>, path: Seq<char>) -> Option<int>
    decreases ms.len(),
{
    if ms.len() == 0 {
        None
    } else {
        let prev = best_mount(ms.drop_last(), path);
        let i = ms.len() - 1;
        if covers(ms[i].point, path) && (prev is None || ms[prev->0].point.len() <= ms[i].point.len()) {
            Some(i)
        } else {
            prev
        }
    }
}

/// A file system reached over the network (NFS or SMB), whose inode numbers
/// may change between mounts.
pub open spec fn is_network_fs(t: Seq<char>) -> bool {
    ||| t == seq!['n', 'f', 's']
    ||| t == seq!['n', 'f', 's', '4']
    ||| t == seq!['c', 'i', 'f', 's']
    ||| t == seq!['s', 'm', 'b', '3']
    ||| t == seq!['s', 'm', 'b', 'f', 's']
}

/// Where a file lives: the mount point that tells storage devices apart, and
/// whether it is a network share.
pub struct Source {
    pub source_id: String,
    pub network: bool,
}

/// The mathematical content of a [`Source`].
pub struct SourceView {
    pub source_id: Seq<char>,
    pub network: bool,
}

impl View for Source {
    type V = SourceView;

    open spec fn view(&self) -> SourceView {
        SourceView { source_id: self.source_id@, network: self.network }
    }
}

/// The root of a path: `/` for an absolute path, empty for a relative one.
pub open spec fn root_of(path: Seq<char>) -> Seq<char> {
    if path.len() > 0 && path[0] == '/' {
        seq!['/']
    } else {
        Seq::<char>::empty()
    }
}

/// The source of `path` among the mounts `ms`: the point of the mount it lives
/// on, and whether that mount is a network file system; where no mount
/// contains the path, its root, not on the network.
pub open spec fn source_in(path: Seq<char>, ms: Seq<MountView>) -> SourceView {
    match best_mount(ms, path) {
        Some(i) => SourceView { source_id: ms[i].point, network: is_network_fs(ms[i].fs_type) },
        None => SourceView { source_id: root_of(path), network: false },
    }
}

/// Whether the mount point `point` contains `path`.
pub fn point_covers(point: &Vec<char>, path: &Vec<char>) -> (r: bool)
    ensures
        r == covers(point@, path@),
{
    if point.len() == 0 || !chars_start_with(path, point) {
        return false;
    }
    path.len() == point.len() || point[point.len() - 1] == '/' || path[point.len()] == '/'
}

/// Whether the file system type `t` is a network file system.
pub fn network_fs(t: &str) -> (r: bool)
    ensures
        r == is_network_fs(t@),
{
    let v = chars_of(t);
    let n = v.len();
    let r = (n == 3 && v[0] == 'n' && v[1] == 'f' && v[2] == 's') || (n == 4 && v[0] == 'n' && v[1]
        == 'f' && v[2] == 's' && v[3] == '4') || (n == 4 && v[0] == 'c' && v[1] == 'i' && v[2]
        == 'f' && v[3] == 's') || (n == 4 && v[0] == 's' && v[1] == 'm' && v[2] == 'b' && v[3]
        == '3') || (n == 5 && v[0] == 's' && v[1] == 'm' && v[2] == 'b' && v[3] == 'f' && v[4]
        == 's');
    proof {
        if r {
            if n == 3 {
                assert(v@ =~= seq!['n', 'f', 's']);
            } else if n == 5 {
                assert(v@ =~= seq!['s', 'm', 'b', 'f', 's']);
            } else if v[0] == 'n' {
                assert(v@ =~= seq!['n', 'f', 's', '4']);
            } else if v[0] == 'c' {
                assert(v@ =~= seq!['c', 'i', 'f', 's']);
            } else {
                assert(v@ =~= seq!['s', 'm', 'b', '3']);
            }
        }
    }
    r
}

/// The source of `path`, given the mount table `mounts`: the point of the
/// mount with the longest point that contains the path (the last such mount
/// where several share it), and whether it is a network share; where no
/// mount contains the path, its root.
pub fn source_of(path: &str, mounts: &Vec<Mount>) -> (r: Source)
    ensures
        r@ == source_in(path@, mount_views(mounts@)),
{
    let ghost ms = mount_views(mounts@);
    let pc = chars_of(path);
    let mut best: Option<usize> = None;
    let mut best_len: usize = 0;
    for i in 0..mounts.len()
        invariant
            ms == mount_views(mounts@),
            pc@ == path@,
            match best {
                Some(b) => {
                    &&& best_mount(ms.take(i as int), path@) == Some(b as int)
                    &&& b < i
                    &&& best_len == ms[b as int].point.len()
                },
                None => best_mount(ms.take(i as int), path@) is None,
            },
    {
        let point = chars_of(mounts[i].point.as_str());
        let ghost t = ms.take(i + 1);
        proof {
            assert(t.drop_last() =~= ms.take(i as int));
            assert(t[i as int] == ms[i as int]);
            if let Some(b) = best {
                assert(t.drop_last()[b as int] == ms[b as int]);
            }
        }
        if point_covers(&point, &pc) && (best.is_none() || best_len <= point.len()) {
            best = Some(i);
            best_len = point.len();
        }
    }
    proof {
        assert(ms.take(mounts.len() as int) =~= ms);
    }
    match best {
        Some(b) => {
            let m = &mounts[b];
            Source { source_id: m.point.clone(), network: network_fs(m.fs_type.as_str()) }
        },
        None => {
            proof {
                reveal_strlit("/");
                assert("/"@ =~= seq!['/']);
            }
            if pc.len() > 0 && pc[0] == '/' {
                Source { source_id: "/".to_string(), network: false }
            } else {
                Source { source_id: String::new(), network: false }
            }
        },
    }
}

/// The mount that `source_of` picks is the one that contains the path with
/// the longest point, and the last of those with that point; where it picks
/// none, no mount contains the path.
pub proof fn lemma_best_mount_is_longest(ms: Seq<MountView>, path: Seq<char>)
    ensures
        best_mount(ms, path) matches Some(i) ==> {
            &&& 0 <= i < ms.len()
            &&& covers(ms[i].point, path)
            &&& forall|j: int|
                0 <= j < ms.len() && covers(#[trigger] ms[j].point, path) ==> ms[j].point.len()
                    <= ms[i].point.len()
            &&& forall|j: int|
                i < j < ms.len() && covers(#[trigger] ms[j].point, path) ==> ms[j].point.len()
                    < ms[i].point.len()
        },
        best_mount(ms, path) is None ==> forall|j: int|
            0 <= j < ms.len() ==> !covers(#[trigger] ms[j].point, path),
    decreases ms.len(),
{
    if ms.len() > 0 {
        let d = ms.drop_last();
        let n = ms.len() - 1;
        lemma_best_mount_is_longest(d, path);
        assert forall|j: int| 0 <= j < d.len() implies #[trigger] d[j] == ms[j] by {}
        match best_mount(ms, path) {
            Some(i) => {
                assert forall|j: int|
                    0 <= j < ms.len() && covers(#[trigger] ms[j].point, path) implies ms[j].point.len()
                    <= ms[i].point.len() by {
                    if j < n {
                        assert(covers(d[j].point, path));
                    }
                }
                assert forall|j: int|
                    i < j < ms.len() && covers(#[trigger] ms[j].point, path) implies ms[j].point.len()
                    < ms[i].point.len() by {
                    if j < n {
                        assert(covers(d[j].point, path));
                    }
                }
            },
            None => {
                assert forall|j: int| 0 <= j < ms.len() implies !covers(#[trigger] ms[j].point, path) by {
                    if j < n {
                        assert(!covers(d[j].point, path));
                    }
                }
            },
        }
    }
}

} // verus!
