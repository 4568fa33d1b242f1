//! What `stanc` says, and whose lines it speaks of.
use vstd::prelude::*;

use crate::codegen::line_ranges::PackageLines;
use crate::laws::importing::lemma_blank_is_trimmed_away;
use crate::laws::joining::is_blank;
use crate::laws::texts::{
    in_turn, law_joined_parts_stand_in_turn, lemma_in_turn_next, lemma_in_turn_one, total_len,
};
use crate::parser::brace_match::is_digit;
use crate::text::{decimal, find_text, join, lemma_first_found, occurrence, occurs_at};
use crate::validate::{
    annotated, digits_end, digits_value, lemma_digits_end, line_numbers, line_numbers_from,
    note_text, notes, validation_fault, StancOutcome, ValidateFault,
};

verus! {

// Line numbers ------------------------------------------------------------

/// `line ` stands nowhere in `s` before position `n`.
pub open spec fn no_line_before(s: Seq<char>, n: int) -> bool {
    forall|j: int| 0 <= j < n ==> !#[trigger] occurs_at(s, "line "@, j)
}

/// The characters of `s` are all digits.
pub open spec fn are_digits(s: Seq<char>) -> bool {
    forall|i: int| 0 <= i < s.len() ==> '0' <= #[trigger] s[i] <= '9'
}

/// The number that digits spell.
pub open spec fn spelled(digits: Seq<char>) -> nat
    decreases digits.len(),
{
    if digits.len() == 0 {
        0
    } else {
        spelled(digits.drop_last()) * 10 + (digits.last() as int - '0' as int) as nat
    }
}

/// The number that the first of some digits spell.
proof fn lemma_spelled(s: Seq<char>, from: int, to: int)
    requires
        0 <= from <= to <= s.len(),
    ensures
        digits_value(s, from, to) == spelled(s.subrange(from, to)),
    decreases to - from,
{
    if from < to {
        lemma_spelled(s, from, to - 1);
        assert(s.subrange(from, to).drop_last() =~= s.subrange(from, to - 1));
    }
}

/// Digits end where something else begins.
proof fn lemma_digits_end_at(s: Seq<char>, from: int, end: int)
    requires
        0 <= from <= end <= s.len(),
        forall|j: int| from <= j < end ==> is_digit(#[trigger] s[j]),
        end < s.len() ==> !is_digit(s[end]),
    ensures
        digits_end(s, from) == end,
    decreases end - from,
{
    if from < end {
        assert(is_digit(s[from]));
        lemma_digits_end_at(s, from + 1, end);
    }
}

/// What stands in front does not change where digits end, and what they spell.
proof fn lemma_digits_shift(u: Seq<char>, b: Seq<char>, i: int)
    requires
        0 <= i <= b.len(),
    ensures
        digits_end(u + b, u.len() + i) == u.len() + digits_end(b, i),
    decreases b.len() - i,
{
    if i < b.len() {
        assert((u + b)[u.len() + i] == b[i]);
        lemma_digits_shift(u, b, i + 1);
    }
}

/// What stands in front does not change what is found behind it.
proof fn lemma_find_shift(u: Seq<char>, b: Seq<char>, i: int)
    requires
        0 <= i <= b.len(),
    ensures
        find_text(u + b, "line "@, u.len() + i) == (match find_text(b, "line "@, i) {
            Some(k) => Some(u.len() + k),
            None => None::<int>,
        }),
{
    let s = u + b;
    let d = u.len() as int;
    let p = occurrence(s, "line "@);
    let q = occurrence(b, "line "@);
    let m = "line "@.len() as int;
    assert forall|k: int| i <= k < b.len() implies #[trigger] q(k) == p(d + k) by {
        if k + m <= b.len() {
            assert(s.subrange(d + k, d + k + m) =~= b.subrange(k, k + m));
        }
    }
    lemma_first_found(p, d + i, s.len() as int);
    lemma_first_found(q, i, b.len() as int);
    match find_text(b, "line "@, i) {
        Some(k) => {
            assert(q(k));
            assert(p(d + k));
            let at = find_text(s, "line "@, d + i)->0;
            if at < d + k {
                assert(p(at));
                assert(q(at - d) == p(d + (at - d)));
            }
        },
        None => {
            if let Some(at) = find_text(s, "line "@, d + i) {
                assert(p(at));
                assert(q(at - d) == p(d + (at - d)));
            }
        },
    }
}

/// What stands in front does not change the numbers named behind it.
proof fn lemma_numbers_shift(u: Seq<char>, b: Seq<char>, i: int)
    requires
        0 <= i <= b.len(),
    ensures
        line_numbers_from(u + b, u.len() + i) == line_numbers_from(b, i),
    decreases b.len() - i,
{
    reveal_strlit("line ");
    let s = u + b;
    let d = u.len() as int;
    lemma_find_shift(u, b, i);
    lemma_first_found(occurrence(b, "line "@), i, b.len() as int);
    if let Some(k) = find_text(b, "line "@, i) {
        assert(occurrence(b, "line "@)(k));
        let start = k + 5;
        lemma_digits_end(b, start);
        let end = digits_end(b, start);
        lemma_digits_shift(u, b, start);
        lemma_spelled(b, start, end);
        lemma_spelled(s, d + start, d + end);
        assert(s.subrange(d + start, d + end) =~= b.subrange(start, end));
        let next = if end > start {
            end
        } else if start < b.len() {
            start + 1
        } else {
            start
        };
        lemma_numbers_shift(u, b, next);
    }
}

/// A text without `line ` names no lines.
pub proof fn law_no_line_is_named_without_the_word(s: Seq<char>)
    requires
        no_line_before(s, s.len() as int),
    ensures
        line_numbers(s).len() == 0,
{
    let p = occurrence(s, "line "@);
    lemma_first_found(p, 0, s.len() as int);
    if let Some(k) = find_text(s, "line "@, 0) {
        assert(p(k));
        assert(!occurs_at(s, "line "@, k));
    }
}

/// The number behind the first `line ` of a text is named first, if it is one that a `usize` can
/// hold, and then what the rest of the text names.
pub proof fn law_line_number_is_named(a: Seq<char>, digits: Seq<char>, rest: Seq<char>)
    requires
        digits.len() > 0,
        are_digits(digits),
        rest.len() > 0 ==> !('0' <= rest[0] <= '9'),
        no_line_before(a + "line "@ + digits + rest, a.len() as int),
    ensures
        line_numbers(a + "line "@ + digits + rest) == (if spelled(digits) <= usize::MAX {
            seq![spelled(digits) as usize]
        } else {
            Seq::empty()
        }) + line_numbers(rest),
{
    reveal_strlit("line ");
    let s = a + "line "@ + digits + rest;
    let n = a.len() as int;
    let p = occurrence(s, "line "@);
    lemma_first_found(p, 0, s.len() as int);
    assert(s.subrange(n, n + 5) =~= "line "@);
    assert(p(n));
    let k = find_text(s, "line "@, 0)->0;
    assert(p(k));
    if k < n {
        assert(!occurs_at(s, "line "@, k));
    }
    assert(k == n);
    let start = n + 5;
    let end = start + digits.len();
    assert forall|j: int| start <= j < end implies is_digit(#[trigger] s[j]) by {
        assert(s[j] == digits[j - start]);
    }
    if end < s.len() {
        assert(s[end] == rest[0]);
    }
    lemma_digits_end_at(s, start, end);
    lemma_spelled(s, start, end);
    assert(s.subrange(start, end) =~= digits);
    let front = a + "line "@ + digits;
    lemma_numbers_shift(front, rest, 0);
    assert(front + rest =~= s);
    assert(front.len() == end);
}

/// Behind a `line ` without a number the search goes on one character later.
pub proof fn law_line_without_number_names_none(a: Seq<char>, c: char, rest: Seq<char>)
    requires
        !('0' <= c <= '9'),
        no_line_before(a + "line "@ + seq![c] + rest, a.len() as int),
    ensures
        line_numbers(a + "line "@ + seq![c] + rest) == line_numbers(rest),
{
    reveal_strlit("line ");
    let s = a + "line "@ + seq![c] + rest;
    let n = a.len() as int;
    let p = occurrence(s, "line "@);
    lemma_first_found(p, 0, s.len() as int);
    assert(s.subrange(n, n + 5) =~= "line "@);
    assert(p(n));
    let k = find_text(s, "line "@, 0)->0;
    assert(p(k));
    if k < n {
        assert(!occurs_at(s, "line "@, k));
    }
    assert(k == n);
    let start = n + 5;
    assert(s[start] == c);
    lemma_digits_end_at(s, start, start);
    let front = a + "line "@ + seq![c];
    lemma_numbers_shift(front, rest, 0);
    assert(front + rest =~= s);
    assert(front.len() == start + 1);
    assert(line_numbers(s) =~= line_numbers(rest));
}

// Notes -------------------------------------------------------------------

/// One of the numbers is a line of the range.
pub open spec fn speaks_of(numbers: Seq<usize>, range: PackageLines) -> bool {
    exists|i: int| 0 <= i < numbers.len() && range.first <= #[trigger] numbers[i] <= range.last
}

/// Noted are the packages whose lines are named, all of them and no others, in order.
pub proof fn law_notes_are_of_the_named_packages(numbers: Seq<usize>, ranges: Seq<PackageLines>)
    ensures
        notes(numbers, ranges) == ranges.filter(
            |range: PackageLines| speaks_of(numbers, range),
        ).map_values(|range: PackageLines| note_text(range)),
    decreases ranges.len(),
{
    reveal(Seq::filter);
    if ranges.len() > 0 {
        law_notes_are_of_the_named_packages(numbers, ranges.drop_last());
    }
    assert(notes(numbers, ranges) =~= ranges.filter(
        |range: PackageLines| speaks_of(numbers, range),
    ).map_values(|range: PackageLines| note_text(range)));
}

/// The notes stand in front of what `stanc` said, each on lines of its own.
pub proof fn law_notes_stand_in_front(raw: Seq<char>, ranges: Seq<PackageLines>)
    ensures
        in_turn(annotated(raw, ranges), notes(line_numbers(raw), ranges).push(raw)),
        annotated(raw, ranges).len() == raw.len() + total_len(notes(line_numbers(raw), ranges))
            + notes(line_numbers(raw), ranges).len(),
{
    reveal_strlit("\n");
    let found = notes(line_numbers(raw), ranges);
    if found.len() == 0 {
        lemma_in_turn_one(raw);
        assert(found.push(raw) =~= seq![raw]);
        assert(total_len(found) == 0);
    } else {
        let all = join(found, "\n"@);
        law_joined_parts_stand_in_turn(found, "\n"@);
        lemma_in_turn_next(all, found, "\n"@);
        lemma_in_turn_next(all + "\n"@, found, raw);
        assert(found + seq![raw] =~= found.push(raw));
        assert((found.len() - 1) * "\n"@.len() == found.len() - 1) by (nonlinear_arith)
            requires
                "\n"@.len() == 1,
        ;
    }
}

/// A note names the package and its first and last line.
pub proof fn law_note_names_package_and_lines(range: PackageLines)
    ensures
        in_turn(
            note_text(range),
            seq![decimal(range.first as nat), decimal(range.last as nat), range.package],
        ),
{
    let none = Seq::<Seq<char>>::empty();
    let first = decimal(range.first as nat);
    let last = decimal(range.last as nat);
    let t0 = "note: lines "@;
    let t1 = " of the compiled output came from package `"@;
    lemma_in_turn_one(t0);
    lemma_in_turn_next(t0, none, first);
    lemma_in_turn_next(t0 + first, none + seq![first], "-"@);
    lemma_in_turn_next(t0 + first + "-"@, none + seq![first], last);
    lemma_in_turn_next(t0 + first + "-"@ + last, none + seq![first] + seq![last], t1);
    let pieces = none + seq![first] + seq![last];
    lemma_in_turn_next(t0 + first + "-"@ + last + t1, pieces, range.package);
    lemma_in_turn_next(
        t0 + first + "-"@ + last + t1 + range.package,
        pieces + seq![range.package],
        "`"@,
    );
    assert(pieces + seq![range.package] =~= seq![first, last, range.package]);
}

/// An output is accepted exactly if `stanc` could be run and succeeded. Otherwise it is said that it
/// could not, or what it wrote to `stderr`, or to `stdout` where `stderr` is blank, with the notes.
pub proof fn law_output_is_accepted_if_stanc_accepts_it(
    command: Seq<char>,
    path: Seq<char>,
    outcome: StancOutcome,
    ranges: Seq<PackageLines>,
)
    ensures
        match outcome {
            StancOutcome::NotStarted { reason } => validation_fault(command, path, outcome, ranges)
                == Some(ValidateFault::CommandNotFound { command, reason: reason@ }),
            StancOutcome::Ended { success, stdout, stderr } => {
                &&& validation_fault(command, path, outcome, ranges) is None <==> success
                &&& !success && is_blank(stderr@) ==> validation_fault(
                    command,
                    path,
                    outcome,
                    ranges,
                ) == Some(
                    ValidateFault::TypeCheckFailed { path, annotated: annotated(stdout@, ranges) },
                )
                &&& !success && !is_blank(stderr@) ==> validation_fault(
                    command,
                    path,
                    outcome,
                    ranges,
                ) == Some(
                    ValidateFault::TypeCheckFailed { path, annotated: annotated(stderr@, ranges) },
                )
            },
        },
{
    if let StancOutcome::Ended { success, stdout, stderr } = outcome {
        lemma_blank_is_trimmed_away(stderr@);
    }
}

} // verus!
