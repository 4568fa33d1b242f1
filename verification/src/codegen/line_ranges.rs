//! Which lines of the output came from which package.
use std::ops::RangeInclusive;
use vstd::prelude::*;

use crate::codegen::{InstalledPackage, Package};
use crate::text::{chars_of, deep, find_char, is_char_at, join, lemma_first_found, lines, lines_of};

verus! {

/// The number of line feeds in `s`.
pub open spec fn line_feeds(s: Seq<char>) -> int
    decreases s.len(),
{
    if s.len() == 0 {
        0
    } else {
        line_feeds(s.drop_last()) + if s.last() == '\n' {
            1int
        } else {
            0int
        }
    }
}

/// The line feeds of two texts, one after the other, are those of both.
pub proof fn lemma_line_feeds_concat(a: Seq<char>, b: Seq<char>)
    ensures
        line_feeds(a + b) == line_feeds(a) + line_feeds(b),
        0 <= line_feeds(b) <= b.len(),
    decreases b.len(),
{
    if b.len() == 0 {
        assert(a + b =~= a);
    } else {
        assert((a + b).drop_last() =~= a + b.drop_last());
        lemma_line_feeds_concat(a, b.drop_last());
    }
}

/// A line feed alone is one.
pub proof fn lemma_one_line_feed()
    ensures
        line_feeds("\n"@) == 1,
{
    reveal_strlit("\n");
    assert("\n"@.drop_last() =~= Seq::<char>::empty());
    assert(line_feeds(Seq::<char>::empty()) == 0);
}

/// The number of line feeds in `s`.
fn count_line_feeds(s: &str) -> (r: usize)
    ensures
        r == line_feeds(s@),
        r <= s@.len(),
{
    let chars = chars_of(s);
    let mut n: usize = 0;
    let mut i: usize = 0;
    while i < chars.len()
        invariant
            chars@ == s@,
            n <= i <= chars@.len(),
            n == line_feeds(s@.take(i as int)),
        decreases chars@.len() - i,
    {
        assert(s@.take(i + 1).drop_last() =~= s@.take(i as int));
        if chars[i] == '\n' {
            n += 1;
        }
        i += 1;
    }
    assert(s@.take(i as int) =~= s@);
    n
}

/// A text has at most one line more than line feeds.
proof fn lemma_lines_bound(s: Seq<char>)
    ensures
        lines(s).len() <= line_feeds(s) + 1,
    decreases s.len(),
{
    lemma_line_feeds_concat(Seq::empty(), s);
    if s.len() > 0 {
        lemma_first_found(is_char_at(s, '\n'), 0, s.len() as int);
        if let Some(i) = find_char(s, '\n') {
            lemma_lines_bound(s.skip(i + 1));
            assert(s =~= s.take(i + 1) + s.skip(i + 1));
            lemma_line_feeds_concat(s.take(i + 1), s.skip(i + 1));
            assert(s.take(i + 1).drop_last() =~= s.take(i));
            lemma_line_feeds_concat(Seq::empty(), s.take(i));
            assert(Seq::empty() + s.take(i) =~= s.take(i));
        }
    }
}

/// The output lines that came from one package's code.
#[derive(Debug, PartialEq, Eq)]
pub struct PackageLineRange {
    pub package: String,
    /// Numbered from 1, both ends included.
    pub lines: RangeInclusive<usize>,
}

/// A package, and the first and the last line of the output that came from it. A package
/// without code has a last line before its first.
#[verifier::ext_equal]
pub struct PackageLines {
    pub package: Seq<char>,
    pub first: int,
    pub last: int,
}

impl DeepView for PackageLineRange {
    type V = PackageLines;

    open spec fn deep_view(&self) -> PackageLines {
        PackageLines {
            package: self.package@,
            first: self.lines@.start as int,
            last: self.lines@.end as int,
        }
    }
}

/// The ranges are as they were made: none has been iterated over to its end.
pub open spec fn ranges_are_fresh(ranges: Seq<PackageLineRange>) -> bool {
    forall|i: int| 0 <= i < ranges.len() ==> !(#[trigger] ranges[i]).lines@.exhausted
}

/// The first `k` of `codes`, each with a line feed behind it: what stands before the one
/// at `k` when they are joined by line feeds.
pub open spec fn codes_before(codes: Seq<Seq<char>>, k: int) -> Seq<char>
    decreases k,
{
    if k <= 0 {
        seq![]
    } else {
        codes_before(codes, k - 1) + codes[k - 1] + "\n"@
    }
}

/// The lines that each package's code takes up in an output that has `before` in front of
/// the joined codes.
pub open spec fn package_lines(
    before: Seq<char>,
    packages: Seq<Package>,
    codes: Seq<Seq<char>>,
) -> Seq<PackageLines> {
    Seq::new(
        codes.len(),
        |k: int|
            {
                let preceding = line_feeds(before + codes_before(codes, k));
                PackageLines {
                    package: packages[k].name,
                    first: preceding + 1,
                    last: preceding + lines(codes[k]).len(),
                }
            },
    )
}

/// What stands before the last of some codes joined by line feeds.
pub proof fn lemma_codes_before(codes: Seq<Seq<char>>, k: int)
    requires
        0 < k <= codes.len(),
    ensures
        codes_before(codes, k) == join(codes.take(k), "\n"@) + "\n"@,
    decreases k,
{
    let part = codes.take(k);
    assert(part.drop_last() =~= codes.take(k - 1));
    assert(part.last() == codes[k - 1]);
    if k > 1 {
        lemma_codes_before(codes, k - 1);
    } else {
        assert(codes_before(codes, 0) + codes[0] =~= codes[0]);
    }
}

/// The line feeds before and in one of the codes are among those of the joined codes.
proof fn lemma_join_line_feeds(codes: Seq<Seq<char>>, k: int)
    requires
        0 <= k < codes.len(),
    ensures
        line_feeds(codes_before(codes, k)) + line_feeds(codes[k]) <= line_feeds(
            join(codes, "\n"@),
        ),
    decreases codes.len(),
{
    let n = codes.len() as int;
    let front = codes.drop_last();
    lemma_line_feeds_concat(join(front, "\n"@) + "\n"@, codes.last());
    lemma_line_feeds_concat(join(front, "\n"@), "\n"@);
    if k == n - 1 {
        if n > 1 {
            lemma_codes_before(codes, k);
            assert(codes.take(k) =~= front);
        } else {
            assert(codes_before(codes, 0).len() == 0);
        }
    } else {
        lemma_join_line_feeds(front, k);
        lemma_codes_before_prefix(codes, k);
    }
}

/// What stands before a code depends only on the codes before it.
pub proof fn lemma_codes_before_prefix(codes: Seq<Seq<char>>, k: int)
    requires
        0 <= k < codes.len(),
    ensures
        codes_before(codes.drop_last(), k) == codes_before(codes, k),
    decreases k,
{
    if k > 0 {
        lemma_codes_before_prefix(codes, k - 1);
    }
}

/// The lines that each package's code takes up in `output`, which has `before` in front
/// of the joined codes and a line feed behind them.
pub fn find_package_lines(
    output: &str,
    before: &str,
    packages: &Vec<&InstalledPackage>,
    codes: &Vec<String>,
) -> (r: Vec<PackageLineRange>)
    requires
        packages@.len() == codes@.len(),
        line_feeds(before@) + line_feeds(join(deep(codes@), "\n"@)) + 1 <= line_feeds(output@),
    ensures
        deep(r@) == package_lines(before@, deep(packages@), deep(codes@)),
        ranges_are_fresh(r@),
{
    let ghost texts = deep(codes@);
    let total: usize = count_line_feeds(output);
    let mut out: Vec<PackageLineRange> = Vec::new();
    let mut preceding: usize = count_line_feeds(before);
    proof {
        assert(before@ + codes_before(texts, 0) =~= before@);
    }
    let mut k: usize = 0;
    while k < codes.len()
        invariant
            texts == deep(codes@),
            packages@.len() == codes@.len(),
            total == line_feeds(output@),
            line_feeds(before@) + line_feeds(join(texts, "\n"@)) + 1 <= total,
            k <= codes@.len(),
            preceding == line_feeds(before@ + codes_before(texts, k as int)),
            deep(out@) == package_lines(before@, deep(packages@), texts).take(k as int),
            ranges_are_fresh(out@),
        decreases codes@.len() - k,
    {
        let code = codes[k].as_str();
        let ghost held = out@;
        let ghost kept = preceding;
        proof {
            assert(texts[k as int] == code@);
            lemma_join_line_feeds(texts, k as int);
            lemma_line_feeds_concat(before@, codes_before(texts, k as int));
            lemma_line_feeds_concat(before@, codes_before(texts, k + 1));
            lemma_line_feeds_concat(codes_before(texts, k as int) + code@, "\n"@);
            lemma_line_feeds_concat(codes_before(texts, k as int), code@);
            lemma_lines_bound(code@);
            lemma_one_line_feed();
        }
        let count: usize = lines_of(code).len();
        assert(count == lines(code@).len());
        let range = PackageLineRange {
            package: packages[k].name.clone(),
            lines: RangeInclusive::new(preceding + 1, preceding + count),
        };
        out.push(range);
        proof {
            assert(deep(packages@)[k as int].name == packages@[k as int].name@);
            let entry = package_lines(before@, deep(packages@), texts)[k as int];
            assert(range.deep_view() =~= entry);
            assert(deep(out@) =~= deep(held).push(range.deep_view()));
            assert(package_lines(before@, deep(packages@), texts).take(k + 1) =~= package_lines(
                before@,
                deep(packages@),
                texts,
            ).take(k as int).push(entry));
        }
        preceding += count_line_feeds(code) + 1;
        k += 1;
    }
    assert(package_lines(before@, deep(packages@), texts).take(k as int) =~= package_lines(
        before@,
        deep(packages@),
        texts,
    ));
    out
}

} // verus!
