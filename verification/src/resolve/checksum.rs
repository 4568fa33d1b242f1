//! Checksums over the contents of a package directory.
use sha2::Digest;
use vstd::prelude::*;
use vstd::utf8::*;

use crate::order::{
    is_text_less, lemma_text_less_total, lemma_text_less_transitive, ranked, sort, text_less,
    Ranked,
};
use crate::text::{chars_of, concat2, deep, digit, digit_char, join, joined, same};

verus! {

/// The SHA-256 digest of `data`, as `sha2::Sha256` computes it.
pub uninterp spec fn sha256_digest(data: Seq<u8>) -> Seq<u8>;

/// `sha2::Sha256::digest`: the digest of `data`, 32 bytes that depend on `data` alone.
#[verifier::external_body]
fn sha256(data: &[u8]) -> (r: Vec<u8>)
    ensures
        r@ == sha256_digest(data@),
        r@.len() == 32,
{
    sha2::Sha256::digest(data).to_vec()
}

/// A regular file of a package directory.
#[derive(Debug, PartialEq, Eq)]
pub struct PackageFile {
    /// The components of its path relative to the directory.
    pub path: Vec<String>,
    pub contents: Vec<u8>,
}

/// What a file of a package directory is.
#[verifier::ext_equal]
pub struct FileContents {
    pub path: Seq<Seq<char>>,
    pub contents: Seq<u8>,
}

impl DeepView for PackageFile {
    type V = FileContents;

    open spec fn deep_view(&self) -> FileContents {
        FileContents { path: deep(self.path@), contents: self.contents@ }
    }
}

/// The path `a` comes strictly before the path `b`: at the first component where they
/// differ it has the smaller one, or it ends there.
pub open spec fn path_less(a: Seq<Seq<char>>, b: Seq<Seq<char>>) -> bool
    decreases b.len(),
{
    if b.len() == 0 {
        false
    } else if a.len() == 0 {
        true
    } else if a[0] != b[0] {
        text_less(a[0], b[0])
    } else {
        path_less(a.drop_first(), b.drop_first())
    }
}

/// Of two different paths one comes strictly before the other.
pub proof fn lemma_path_less_total(a: Seq<Seq<char>>, b: Seq<Seq<char>>)
    ensures
        path_less(a, b) || path_less(b, a) || a == b,
        !(path_less(a, b) && path_less(b, a)),
    decreases a.len(),
{
    if a.len() > 0 && b.len() > 0 {
        lemma_path_less_total(a.drop_first(), b.drop_first());
        lemma_text_less_total(a[0], b[0]);
        if a[0] == b[0] && a.drop_first() == b.drop_first() {
            assert(a =~= seq![a[0]] + a.drop_first());
            assert(b =~= seq![b[0]] + b.drop_first());
        }
    } else if a.len() == 0 && b.len() == 0 {
        assert(a =~= b);
    }
}

/// The strict order of paths is transitive.
pub proof fn lemma_path_less_transitive(
    a: Seq<Seq<char>>,
    b: Seq<Seq<char>>,
    c: Seq<Seq<char>>,
)
    requires
        path_less(a, b),
        path_less(b, c),
    ensures
        path_less(a, c),
    decreases c.len(),
{
    if a.len() > 0 {
        if a[0] == b[0] && b[0] == c[0] {
            lemma_path_less_transitive(a.drop_first(), b.drop_first(), c.drop_first());
        } else if a[0] != b[0] && b[0] != c[0] {
            lemma_text_less_transitive(a[0], b[0], c[0]);
            lemma_text_less_total(a[0], c[0]);
        }
    }
}

/// Whether the path `a` comes strictly before the path `b`.
pub fn is_path_less(a: &Vec<String>, b: &Vec<String>) -> (r: bool)
    ensures
        r == path_less(deep(a@), deep(b@)),
{
    let ghost x = deep(a@);
    let ghost y = deep(b@);
    let mut i: usize = 0;
    assert(x.skip(0) =~= x);
    assert(y.skip(0) =~= y);
    while i < a.len() && i < b.len()
        invariant
            x == deep(a@),
            y == deep(b@),
            i <= a@.len(),
            i <= b@.len(),
            path_less(x, y) == path_less(x.skip(i as int), y.skip(i as int)),
        decreases a@.len() - i,
    {
        proof {
            assert(x.skip(i as int)[0] == a@[i as int]@);
            assert(y.skip(i as int)[0] == b@[i as int]@);
            assert(x.skip(i as int).drop_first() =~= x.skip(i + 1));
            assert(y.skip(i as int).drop_first() =~= y.skip(i + 1));
        }
        if !same(a[i].as_str(), b[i].as_str()) {
            return is_text_less(a[i].as_str(), b[i].as_str());
        }
        i += 1;
    }
    i < b.len()
}

impl Ranked for PackageFile {
    open spec fn ranks_at_most(a: FileContents, b: FileContents) -> bool {
        !path_less(b.path, a.path)
    }

    fn at_most(&self, other: &Self) -> (r: bool) {
        !is_path_less(&other.path, &self.path)
    }

    proof fn rank_is_total(a: FileContents, b: FileContents) {
        lemma_path_less_total(a.path, b.path);
    }

    proof fn rank_is_transitive(a: FileContents, b: FileContents, c: FileContents) {
        lemma_path_less_total(a.path, b.path);
        lemma_path_less_total(b.path, c.path);
        lemma_path_less_total(a.path, c.path);
        if path_less(a.path, b.path) && path_less(b.path, c.path) {
            lemma_path_less_transitive(a.path, b.path, c.path);
        }
    }
}

/// `s` with a `/` for each backslash.
pub open spec fn with_slashes(s: Seq<char>) -> Seq<char> {
    s.map_values(
        |c: char|
            if c == '\\' {
                '/'
            } else {
                c
            },
    )
}

/// `s` with a `/` for each backslash.
fn forward_slashes(s: &str) -> (r: String)
    ensures
        r@ == with_slashes(s@),
{
    let chars = chars_of(s);
    let mut out = String::new();
    let mut i: usize = 0;
    while i < chars.len()
        invariant
            chars@ == s@,
            i <= chars@.len(),
            out@ == with_slashes(s@).take(i as int),
        decreases chars@.len() - i,
    {
        let c = chars[i];
        if c == '\\' {
            out.push('/');
        } else {
            out.push(c);
        }
        assert(out@ =~= with_slashes(s@).take(i + 1));
        i += 1;
    }
    assert(with_slashes(s@).take(i as int) =~= with_slashes(s@));
    out
}

/// What is hashed of one file: its path, a zero byte, its contents, a zero byte.
pub open spec fn file_bytes(file: FileContents) -> Seq<u8> {
    encode_utf8(with_slashes(join(file.path, "/"@))) + seq![0u8] + file.contents + seq![0u8]
}

/// What is hashed of files in the given order.
pub open spec fn all_bytes(files: Seq<FileContents>) -> Seq<u8>
    decreases files.len(),
{
    if files.len() == 0 {
        seq![]
    } else {
        all_bytes(files.drop_last()) + file_bytes(files.last())
    }
}

/// `bytes` in hexadecimal, two digits each.
pub open spec fn hex(bytes: Seq<u8>) -> Seq<char>
    decreases bytes.len(),
{
    if bytes.len() == 0 {
        seq![]
    } else {
        hex(bytes.drop_last()).push(digit_char(bytes.last() as int / 16)).push(
            digit_char(bytes.last() as int % 16),
        )
    }
}

/// The checksum of a directory with the files `files`: the digest of all of them, sorted by
/// path.
pub open spec fn checksum_of(files: Seq<FileContents>) -> Seq<char> {
    "sha256:"@ + hex(sha256_digest(all_bytes(ranked::<PackageFile>(files))))
}

/// Puts `more` behind `bytes`.
fn extend(bytes: &mut Vec<u8>, more: &[u8])
    ensures
        final(bytes)@ == old(bytes)@ + more@,
{
    let ghost before = bytes@;
    let mut i: usize = 0;
    while i < more.len()
        invariant
            i <= more@.len(),
            bytes@ == before + more@.take(i as int),
        decreases more@.len() - i,
    {
        bytes.push(more[i]);
        i += 1;
        assert(bytes@ =~= before + more@.take(i as int));
    }
    assert(more@.take(i as int) =~= more@);
}

/// `bytes` in hexadecimal, two digits each.
pub fn hex_of(bytes: &[u8]) -> (r: String)
    ensures
        r@ == hex(bytes@),
{
    let mut out = String::new();
    let mut i: usize = 0;
    while i < bytes.len()
        invariant
            i <= bytes@.len(),
            out@ == hex(bytes@.take(i as int)),
        decreases bytes@.len() - i,
    {
        assert(bytes@.take(i + 1).drop_last() =~= bytes@.take(i as int));
        let b: usize = bytes[i] as usize;
        out.push(digit(b / 16));
        out.push(digit(b % 16));
        i += 1;
    }
    assert(bytes@.take(i as int) =~= bytes@);
    out
}

/// Deterministic sha256 over a package directory's full contents: every regular file, sorted
/// by its path relative to the directory, so directory-walk order never affects the result.
pub fn checksum_files(files: Vec<PackageFile>) -> (r: String)
    ensures
        r@ == checksum_of(deep(files@)),
{
    let sorted = sort(files);
    let ghost all = deep(sorted@);
    let mut bytes: Vec<u8> = Vec::new();
    assert(bytes@ =~= all_bytes(all.take(0)));
    let mut i: usize = 0;
    while i < sorted.len()
        invariant
            all == deep(sorted@),
            i <= sorted@.len(),
            bytes@ == all_bytes(all.take(i as int)),
        decreases sorted@.len() - i,
    {
        let file = &sorted[i];
        let ghost before = bytes@;
        proof {
            assert(all.take(i + 1).drop_last() =~= all.take(i as int));
            assert(all.take(i + 1).last() == file.deep_view());
        }
        let path = forward_slashes(joined(&file.path, "/").as_str());
        extend(&mut bytes, path.as_str().as_bytes());
        bytes.push(0u8);
        extend(&mut bytes, file.contents.as_slice());
        bytes.push(0u8);
        assert(bytes@ =~= before + file_bytes(file.deep_view()));
        i += 1;
    }
    assert(all.take(i as int) =~= all);
    concat2("sha256:", hex_of(sha256(bytes.as_slice()).as_slice()).as_str())
}

} // verus!
