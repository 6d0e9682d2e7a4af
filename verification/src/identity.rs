//! Identities of files that survive renames and moves within a volume.
//!
//! On Windows a file is known by its volume serial number and file index, on
//! Unix by its device and inode numbers. Where no stable number can be had
//! (network shares, failures) the path stands in. The numbers themselves are
//! read from the file system by the caller, and the share a file lives on is
//! found in the mount table (`mounts`); this module decides which identity a
//! file gets and how it is written.
use vstd::prelude::*;
use crate::size::{is_digit, lemma_decimal_is_digits, lemma_decimal_reads_back};
use crate::mounts::{MountView, Source, SourceView, best_mount, is_network_fs, source_in};
use crate::text::{concatenate, decimal, decimal_string};

verus! {

broadcast use vstd::string::group_string_axioms;

/// How a file's identity was obtained.
#[derive(PartialEq, Eq, Structural, Debug, Clone, Copy)]
pub enum IdentityKind {
    /// Volume serial number and file index (Windows).
    Windows,
    /// Device and inode numbers (Unix).
    Unix,
    /// The path, where no stable number is available.
    Path,
}

/// The tag under which a kind of identity is stored.
pub open spec fn kind_tag(k: IdentityKind) -> Seq<char> {
    match k {
        IdentityKind::Windows => seq!['w', 'i', 'n'],
        IdentityKind::Unix => seq!['u', 'n', 'i', 'x'],
        IdentityKind::Path => seq!['p', 'a', 't', 'h'],
    }
}

impl IdentityKind {
    /// The tag stored for this kind: `win`, `unix` or `path`.
    pub fn as_str(&self) -> (r: &'static str)
        ensures
            r@ == kind_tag(*self),
    {
        match self {
            IdentityKind::Windows => {
                proof {
                    reveal_strlit("win");
                }
                "win"
            },
            IdentityKind::Unix => {
                proof {
                    reveal_strlit("unix");
                }
                "unix"
            },
            IdentityKind::Path => {
                proof {
                    reveal_strlit("path");
                }
                "path"
            },
        }
    }
}

/// The identity of a file.
#[derive(Debug, Clone)]
pub struct FileIdentity {
    /// How the identity was obtained.
    pub kind: IdentityKind,
    /// The identity itself, in a form that depends on the kind.
    pub value: String,
    /// The volume, device or mount point the file lives on.
    pub source_id: String,
}

/// The mathematical content of a [`FileIdentity`].
pub struct IdentityView {
    pub kind: IdentityKind,
    pub value: Seq<char>,
    pub source_id: Seq<char>,
}

impl View for FileIdentity {
    type V = IdentityView;

    open spec fn view(&self) -> IdentityView {
        IdentityView { kind: self.kind, value: self.value@, source_id: self.source_id@ }
    }
}

/// `a:b` in decimal.
pub open spec fn number_pair(a: nat, b: nat) -> Seq<char> {
    decimal(a) + seq![':'] + decimal(b)
}

fn write_pair(a: u64, b: u64) -> (r: String)
    ensures
        r@ == number_pair(a as nat, b as nat),
{
    let mut s = decimal_string(a);
    let c = ":";
    proof {
        reveal_strlit(":");
        assert(":"@ =~= seq![':']);
    }
    s.append(c);
    let t = decimal_string(b);
    s.append(t.as_str());
    s
}

/// The identity of a file on Unix with device number `dev` and inode number
/// `ino`, at `path` on `source`.
pub open spec fn unix_identity_of(path: Seq<char>, dev: nat, ino: nat, source: SourceView) -> IdentityView {
    if source.network {
        IdentityView { kind: IdentityKind::Path, value: path, source_id: source.source_id }
    } else {
        IdentityView {
            kind: IdentityKind::Unix,
            value: number_pair(dev, ino),
            source_id: seq!['d', 'e', 'v', ':'] + decimal(dev),
        }
    }
}

/// The identity of a file on Unix with device number `dev` and inode number
/// `ino`, at `path` on `source`: on a network share, whose inode numbers may
/// not be stable, the path stands in, on the share's source; elsewhere the
/// identity is `dev:ino` on source `dev:<dev>`.
pub fn unix_identity(path: &str, dev: u64, ino: u64, source: &Source) -> (r: FileIdentity)
    ensures
        r@ == unix_identity_of(path@, dev as nat, ino as nat, source@),
{
    proof {
        reveal_strlit("dev:");
        assert("dev:"@ =~= seq!['d', 'e', 'v', ':']);
    }
    if source.network {
        FileIdentity {
            kind: IdentityKind::Path,
            value: path.to_string(),
            source_id: source.source_id.clone(),
        }
    } else {
        let d = decimal_string(dev);
        FileIdentity {
            kind: IdentityKind::Unix,
            value: write_pair(dev, ino),
            source_id: concatenate("dev:", d.as_str()),
        }
    }
}

/// A file on a network mount is known by its path, whatever its device and
/// inode numbers, on the mount point of the share.
pub proof fn lemma_network_share_falls_back_to_path(
    path: Seq<char>,
    dev: nat,
    ino: nat,
    ms: Seq<MountView>,
)
    requires
        best_mount(ms, path) matches Some(i) && is_network_fs(ms[i].fs_type),
    ensures
        unix_identity_of(path, dev, ino, source_in(path, ms)) == (IdentityView {
            kind: IdentityKind::Path,
            value: path,
            source_id: ms[best_mount(ms, path)->0].point,
        }),
{
}

/// The 64-bit file index made of its high and low halves.
pub open spec fn file_index(high: u32, low: u32) -> nat {
    high as nat * 0x1_0000_0000 + low as nat
}

/// The identity of a file on Windows, on the volume with serial number
/// `volume_serial`, whose file index has the halves `index_high` and
/// `index_low`: `serial:index` on source `vol:<serial>`.
pub fn windows_identity(volume_serial: u32, index_high: u32, index_low: u32) -> (r: FileIdentity)
    ensures
        r@ == (IdentityView {
            kind: IdentityKind::Windows,
            value: number_pair(volume_serial as nat, file_index(index_high, index_low)),
            source_id: seq!['v', 'o', 'l', ':'] + decimal(volume_serial as nat),
        }),
{
    let file_id: u64 = ((index_high as u64) << 32u64) | (index_low as u64);
    assert(file_id == file_index(index_high, index_low)) by (bit_vector)
        requires
            file_id == ((index_high as u64) << 32u64) | (index_low as u64),
    ;
    proof {
        reveal_strlit("vol:");
        assert("vol:"@ =~= seq!['v', 'o', 'l', ':']);
    }
    let serial = volume_serial as u64;
    let d = decimal_string(serial);
    FileIdentity {
        kind: IdentityKind::Windows,
        value: write_pair(serial, file_id),
        source_id: concatenate("vol:", d.as_str()),
    }
}

/// The identity of a file known only by its path.
pub fn path_identity(path: &str, source: &str) -> (r: FileIdentity)
    ensures
        r@ == (IdentityView { kind: IdentityKind::Path, value: path@, source_id: source@ }),
{
    FileIdentity { kind: IdentityKind::Path, value: path.to_string(), source_id: source.to_string() }
}

/// Two numbers below 2^64 with the same decimal digits are equal.
proof fn lemma_decimal_injective(a: nat, b: nat)
    requires
        a <= u64::MAX,
        b <= u64::MAX,
        decimal(a) == decimal(b),
    ensures
        a == b,
{
    lemma_decimal_reads_back(a);
    lemma_decimal_reads_back(b);
}

/// `a:b` determines `a` and `b`: different pairs of numbers are written
/// differently. So files with different device or inode numbers get different
/// Unix identities, and files with different volumes or file indexes get
/// different Windows identities.
pub proof fn lemma_number_pairs_differ(a: nat, b: nat, c: nat, d: nat)
    requires
        a <= u64::MAX,
        b <= u64::MAX,
        c <= u64::MAX,
        d <= u64::MAX,
        a != c || b != d,
    ensures
        number_pair(a, b) != number_pair(c, d),
{
    let x = decimal(a);
    let y = decimal(c);
    let p = number_pair(a, b);
    let q = number_pair(c, d);
    lemma_decimal_is_digits(a);
    lemma_decimal_is_digits(c);
    if p == q {
        if x.len() < y.len() {
            assert(p[x.len() as int] == ':');
            assert(q[x.len() as int] == y[x.len() as int]);
            assert(is_digit(y[x.len() as int]));
        } else if y.len() < x.len() {
            assert(q[y.len() as int] == ':');
            assert(p[y.len() as int] == x[y.len() as int]);
            assert(is_digit(x[y.len() as int]));
        } else {
            assert(x =~= p.take(x.len() as int));
            assert(y =~= q.take(y.len() as int));
            lemma_decimal_injective(a, c);
            assert(decimal(b) =~= p.skip(x.len() as int + 1));
            assert(decimal(d) =~= q.skip(y.len() as int + 1));
            lemma_decimal_injective(b, d);
        }
    }
}

} // verus!
