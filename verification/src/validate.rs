//! Optional `stanc` type-checking pass, gated behind `--validate` on `laplace build`. Off by
//! default so a normal build never requires `stanc` to be installed.
//!
//! On failure, annotates `stanc`'s raw error output with which imported package(s)
//! contributed code near the failing line(s), as far as its text names lines, using the
//! splice boundaries that `codegen` tracked. Exact source-mapping back to the original
//! `.laplace` file is out of scope -- this only says "this range of the compiled output came
//! from package X".
use std::ops::RangeInclusive;
use vstd::prelude::*;

use crate::codegen::GeneratedStan;
use crate::codegen::line_ranges::{ranges_are_fresh, PackageLineRange, PackageLines};
use crate::parser::brace_match::is_digit;
use crate::text::{
    chars_of, code_point, concat3, concat4, concat7, decimal, decimal_of, deep, find_text,
    first_from, join, joined, lemma_first_found, matches_at, occurrence, trim, trimmed,
};

verus! {

/// `RangeInclusive::start` is the lower bound of a range that has not been iterated over to
/// its end.
pub assume_specification<Idx>[ RangeInclusive::<Idx>::start ](r: &RangeInclusive<Idx>) -> (s: &Idx)
    ensures
        !r@.exhausted ==> *s == r@.start,
;

/// `RangeInclusive::end` is the upper bound of a range that has not been iterated over to its
/// end.
pub assume_specification<Idx>[ RangeInclusive::<Idx>::end ](r: &RangeInclusive<Idx>) -> (e: &Idx)
    ensures
        !r@.exhausted ==> *e == r@.end,
;

/// Why a compiled file does not pass.
#[derive(Debug, PartialEq, Eq)]
pub enum ValidateError {
    /// The command cannot be started.
    CommandNotFound { command: String, reason: String },
    /// `stanc` reports errors in the file at `path`.
    TypeCheckFailed { path: String, annotated: String },
}

/// What a `ValidateError` says.
#[verifier::ext_equal]
pub enum ValidateFault {
    CommandNotFound { command: Seq<char>, reason: Seq<char> },
    TypeCheckFailed { path: Seq<char>, annotated: Seq<char> },
}

impl DeepView for ValidateError {
    type V = ValidateFault;

    open spec fn deep_view(&self) -> ValidateFault {
        match self {
            ValidateError::CommandNotFound { command, reason } => ValidateFault::CommandNotFound {
                command: command@,
                reason: reason@,
            },
            ValidateError::TypeCheckFailed { path, annotated } => ValidateFault::TypeCheckFailed {
                path: path@,
                annotated: annotated@,
            },
        }
    }
}

/// The message of a validation fault.
pub open spec fn validate_message(fault: ValidateFault) -> Seq<char> {
    match fault {
        ValidateFault::CommandNotFound { command, reason } => "`"@ + command
            + "` was not found on PATH -- install cmdstan/stanc, or omit --validate: "@ + reason,
        ValidateFault::TypeCheckFailed { path, annotated } => "stanc reported errors in "@ + path
            + ":\n"@ + annotated,
    }
}

impl ValidateError {
    /// The message of the error.
    pub fn message(&self) -> (r: String)
        ensures
            r@ == validate_message(self.deep_view()),
    {
        match self {
            ValidateError::CommandNotFound { command, reason } => concat4(
                "`",
                command.as_str(),
                "` was not found on PATH -- install cmdstan/stanc, or omit --validate: ",
                reason.as_str(),
            ),
            ValidateError::TypeCheckFailed { path, annotated } => concat4(
                "stanc reported errors in ",
                path.as_str(),
                ":\n",
                annotated.as_str(),
            ),
        }
    }
}

/// How the `stanc` command ended.
pub enum StancOutcome {
    /// It was not started.
    NotStarted { reason: String },
    /// It ended, with success or not, having written `stdout` and `stderr`.
    Ended { success: bool, stdout: String, stderr: String },
}

/// The fault, if any, that the outcome of the command shows: errors are what it wrote to
/// `stderr`, or to `stdout` where `stderr` is blank.
pub open spec fn validation_fault(
    command: Seq<char>,
    path: Seq<char>,
    outcome: StancOutcome,
    ranges: Seq<PackageLines>,
) -> Option<ValidateFault> {
    match outcome {
        StancOutcome::NotStarted { reason } => Some(
            ValidateFault::CommandNotFound { command, reason: reason@ },
        ),
        StancOutcome::Ended { success, stdout, stderr } => if success {
            None
        } else {
            Some(
                ValidateFault::TypeCheckFailed {
                    path,
                    annotated: annotated(
                        if trim(stderr@).len() == 0 {
                            stdout@
                        } else {
                            stderr@
                        },
                        ranges,
                    ),
                },
            )
        },
    }
}

/// What comes of running `stanc` (or whatever `command` names) against the just-written file
/// at `path`. `generated` is the result of code generation that produced it, used to annotate
/// any error output with likely-culprit packages.
pub fn validate(
    command: &str,
    path: &str,
    outcome: StancOutcome,
    generated: &GeneratedStan,
) -> (r: Result<(), ValidateError>)
    requires
        ranges_are_fresh(generated.package_line_ranges@),
    ensures
        ({
            let ranges = deep(generated.package_line_ranges@);
            match r {
                Ok(()) => validation_fault(command@, path@, outcome, ranges) is None,
                Err(e) => validation_fault(command@, path@, outcome, ranges) == Some(e.deep_view()),
            }
        }),
{
    match outcome {
        StancOutcome::NotStarted { reason } => Err(
            ValidateError::CommandNotFound { command: command.to_string(), reason },
        ),
        StancOutcome::Ended { success, stdout, stderr } => {
            if success {
                return Ok(());
            }
            let raw = if trimmed(stderr.as_str()).as_str().is_empty() {
                stdout
            } else {
                stderr
            };
            Err(
                ValidateError::TypeCheckFailed {
                    path: path.to_string(),
                    annotated: annotate_with_packages(
                        raw.as_str(),
                        generated.package_line_ranges.as_slice(),
                    ),
                },
            )
        },
    }
}

/// One of `numbers` is a line of the range.
pub open spec fn names_line_of(numbers: Seq<usize>, range: PackageLines) -> bool {
    exists|i: int| 0 <= i < numbers.len() && range.first <= #[trigger] numbers[i] <= range.last
}

/// The note that a range of lines came from a package.
pub open spec fn note_text(range: PackageLines) -> Seq<char> {
    "note: lines "@ + decimal(range.first as nat) + "-"@ + decimal(range.last as nat)
        + " of the compiled output came from package `"@ + range.package + "`"@
}

/// The notes on those of `ranges` that one of `numbers` is a line of, in order.
pub open spec fn notes(numbers: Seq<usize>, ranges: Seq<PackageLines>) -> Seq<Seq<char>>
    decreases ranges.len(),
{
    if ranges.len() == 0 {
        seq![]
    } else if names_line_of(numbers, ranges.last()) {
        notes(numbers, ranges.drop_last()).push(note_text(ranges.last()))
    } else {
        notes(numbers, ranges.drop_last())
    }
}

/// `raw` with the notes on the packages that the lines it names came from in front of it.
pub open spec fn annotated(raw: Seq<char>, ranges: Seq<PackageLines>) -> Seq<char> {
    let found = notes(line_numbers(raw), ranges);
    if found.len() == 0 {
        raw
    } else {
        join(found, "\n"@) + "\n"@ + raw
    }
}

/// Whether one of `numbers` is from `first` to `last`.
fn is_named(numbers: &Vec<usize>, first: usize, last: usize) -> (r: bool)
    ensures
        r == exists|i: int| 0 <= i < numbers@.len() && first <= #[trigger] numbers@[i] <= last,
{
    let mut i: usize = 0;
    while i < numbers.len()
        invariant
            i <= numbers@.len(),
            forall|j: int| 0 <= j < i ==> !(first <= #[trigger] numbers@[j] <= last),
        decreases numbers@.len() - i,
    {
        if first <= numbers[i] && numbers[i] <= last {
            return true;
        }
        i += 1;
    }
    false
}

/// Puts in front of `raw` which packages the lines that it names came from.
pub fn annotate_with_packages(raw: &str, package_line_ranges: &[PackageLineRange]) -> (r: String)
    requires
        ranges_are_fresh(package_line_ranges@),
    ensures
        r@ == annotated(raw@, deep(package_line_ranges@)),
{
    let numbers = extract_line_numbers(raw);
    let ghost all = deep(package_line_ranges@);
    let mut found: Vec<String> = Vec::new();
    assert(deep(found@) =~= notes(numbers@, all.take(0)));
    let mut i: usize = 0;
    while i < package_line_ranges.len()
        invariant
            ranges_are_fresh(package_line_ranges@),
            all == deep(package_line_ranges@),
            i <= package_line_ranges@.len(),
            deep(found@) == notes(numbers@, all.take(i as int)),
        decreases package_line_ranges@.len() - i,
    {
        let ghost held = found@;
        let range = &package_line_ranges[i];
        proof {
            assert(all.take(i + 1).drop_last() =~= all.take(i as int));
            assert(all.take(i + 1).last() == range.deep_view());
        }
        let first: usize = *range.lines.start();
        let last: usize = *range.lines.end();
        if is_named(&numbers, first, last) {
            let note = concat7(
                "note: lines ",
                decimal_of(first).as_str(),
                "-",
                decimal_of(last).as_str(),
                " of the compiled output came from package `",
                range.package.as_str(),
                "`",
            );
            found.push(note);
            assert(deep(found@) =~= deep(held).push(note@));
        }
        i += 1;
    }
    assert(all.take(i as int) =~= all);
    assert(found@.len() == notes(numbers@, all).len());
    if found.len() == 0 {
        raw.to_string()
    } else {
        concat3(joined(&found, "\n").as_str(), "\n", raw)
    }
}

// Line numbers ------------------------------------------------------------

/// The end of the run of digits that begins at position `i` of `s`.
pub open spec fn digits_end(s: Seq<char>, i: int) -> int
    decreases s.len() - i,
{
    if 0 <= i < s.len() && is_digit(s[i]) {
        digits_end(s, i + 1)
    } else {
        i
    }
}

/// The number that the digits of `s` from `from` to before `to` spell.
pub open spec fn digits_value(s: Seq<char>, from: int, to: int) -> nat
    decreases to - from,
{
    if to <= from {
        0
    } else {
        digits_value(s, from, to - 1) * 10 + (s[to - 1] as int - '0' as int) as nat
    }
}

/// The numbers that `s` names from position `i` on: the digits behind each `line `, where
/// they spell one that a `usize` can hold. Behind a `line ` without digits one character is
/// skipped before the next is looked for, so that `line line 5` names none.
pub open spec fn line_numbers_from(s: Seq<char>, i: int) -> Seq<usize>
    decreases s.len() - i,
{
    proof {
        lemma_first_found(occurrence(s, "line "@), i, s.len() as int);
        if let Some(k) = find_text(s, "line "@, i) {
            lemma_digits_end(s, k + "line "@.len());
        }
    }
    match find_text(s, "line "@, i) {
        None => seq![],
        Some(k) => {
            let start = k + "line "@.len();
            let end = digits_end(s, start);
            let next = if end > start {
                end
            } else if start < s.len() {
                start + 1
            } else {
                start
            };
            let value = digits_value(s, start, end);
            (if end > start && value <= usize::MAX {
                seq![value as usize]
            } else {
                seq![]
            }) + line_numbers_from(s, next)
        },
    }
}

/// The numbers that `s` names.
pub open spec fn line_numbers(s: Seq<char>) -> Seq<usize> {
    line_numbers_from(s, 0)
}

/// A run of digits does not end before it begins.
pub proof fn lemma_digits_end(s: Seq<char>, i: int)
    ensures
        i <= digits_end(s, i),
        0 <= i <= s.len() ==> digits_end(s, i) <= s.len(),
        forall|j: int| 0 <= i <= j < digits_end(s, i) ==> is_digit(#[trigger] s[j]),
    decreases s.len() - i,
{
    if 0 <= i < s.len() && is_digit(s[i]) {
        lemma_digits_end(s, i + 1);
    }
}

/// A number grows with its digits.
proof fn lemma_value_grows(s: Seq<char>, from: int, mid: int, to: int)
    requires
        from <= mid <= to,
    ensures
        digits_value(s, from, mid) <= digits_value(s, from, to),
    decreases to - mid,
{
    if mid < to {
        lemma_value_grows(s, from, mid, to - 1);
    }
}

/// The number that the digits of `s` from `from` to before `to` spell, where a `usize` can
/// hold it.
fn parse_digits(s: &[char], from: usize, to: usize) -> (r: Option<usize>)
    requires
        from <= to <= s@.len(),
        forall|j: int| from <= j < to ==> is_digit(#[trigger] s@[j]),
    ensures
        match r {
            Some(n) => n == digits_value(s@, from as int, to as int),
            None => digits_value(s@, from as int, to as int) > usize::MAX,
        },
{
    let mut n: usize = 0;
    let mut i: usize = from;
    while i < to
        invariant
            from <= i <= to <= s@.len(),
            forall|j: int| from <= j < to ==> is_digit(#[trigger] s@[j]),
            n == digits_value(s@, from as int, i as int),
        decreases to - i,
    {
        assert(is_digit(s@[i as int]));
        let d: usize = (code_point(s[i]) - code_point('0')) as usize;
        proof {
            lemma_value_grows(s@, from as int, i + 1, to as int);
        }
        match n.checked_mul(10) {
            None => {
                return None;
            },
            Some(tens) => match tens.checked_add(d) {
                None => {
                    return None;
                },
                Some(sum) => {
                    n = sum;
                },
            },
        }
        i += 1;
    }
    Some(n)
}

/// Best-effort scan for `line <N>` occurrences in stanc's (format-unstable) error text.
pub fn extract_line_numbers(text: &str) -> (r: Vec<usize>)
    ensures
        r@ == line_numbers(text@),
{
    let chars = chars_of(text);
    let word = chars_of("line ");
    proof {
        reveal_strlit("line ");
    }
    let n: usize = chars.len();
    let ghost p = occurrence(text@, "line "@);
    let mut out: Vec<usize> = Vec::new();
    let mut from: usize = 0;
    let mut i: usize = 0;
    while i < n
        invariant
            chars@ == text@,
            word@ == "line "@,
            word@.len() == 5,
            p == occurrence(text@, "line "@),
            n == chars@.len(),
            from <= i,
            first_from(p, from as int, n as int) == first_from(p, i as int, n as int),
            out@ + line_numbers_from(text@, from as int) == line_numbers(text@),
        decreases n - i,
    {
        if matches_at(chars.as_slice(), word.as_slice(), i) {
            assert(p(i as int));
            let start: usize = i + word.len();
            let mut end: usize = start;
            while end < n && '0' <= chars[end] && chars[end] <= '9'
                invariant
                    chars@ == text@,
                    n == chars@.len(),
                    start <= end <= n,
                    digits_end(text@, start as int) == digits_end(text@, end as int),
                decreases n - end,
            {
                end += 1;
            }
            let ghost held = out@;
            proof {
                lemma_digits_end(text@, start as int);
            }
            if end > start {
                if let Some(number) = parse_digits(chars.as_slice(), start, end) {
                    out.push(number);
                }
                from = end;
            } else if start < n {
                from = start + 1;
            } else {
                from = start;
            }
            assert(out@ + line_numbers_from(text@, from as int) =~= held + line_numbers_from(
                text@,
                i as int,
            ));
            i = from;
        } else {
            assert(!p(i as int));
            i += 1;
        }
    }
    assert(out@ + line_numbers_from(text@, from as int) =~= out@);
    out
}

} // verus!
