//! Texts: what they are made of, and how they are taken apart.
use vstd::prelude::*;

use crate::laws::building::lemma_lines_concat;
use crate::laws::joining::is_blank;
use crate::manifest::concatenated;
use crate::order::text_less;
use crate::parser::brace_match::is_digit;
use crate::resolve::checksum::hex;
use crate::text::{
    decimal, digit_char, find_char, find_last, is_char_at, is_space, join, lemma_first_found,
    lemma_skip_space_bounds, lines, occurs_at, skip_space, split, split_first, split_last, trim,
    trim_end, trim_start, trimmed_len, word_end, words, words_from,
};
use crate::validate::digits_value;

verus! {

// Texts made of pieces ----------------------------------------------------

/// The pieces stand in the text at the given positions, one behind the other.
pub open spec fn are_placed(text: Seq<char>, pieces: Seq<Seq<char>>, at: Seq<int>) -> bool {
    &&& at.len() == pieces.len()
    &&& forall|k: int| 0 <= k < pieces.len() ==> occurs_at(text, #[trigger] pieces[k], at[k])
    &&& forall|k: int, m: int|
        0 <= k < m < pieces.len() ==> #[trigger] at[k] + pieces[k].len() <= #[trigger] at[m]
}

/// The pieces stand in the text one behind the other.
pub open spec fn in_turn(text: Seq<char>, pieces: Seq<Seq<char>>) -> bool {
    exists|at: Seq<int>| are_placed(text, pieces, at)
}

/// How long the pieces are together.
pub open spec fn total_len(pieces: Seq<Seq<char>>) -> int
    decreases pieces.len(),
{
    if pieces.len() == 0 {
        0
    } else {
        total_len(pieces.drop_last()) + pieces.last().len()
    }
}

/// The pieces of two texts stand one behind the other in the two one behind the other.
pub proof fn lemma_in_turn_concat(a: Seq<char>, p: Seq<Seq<char>>, b: Seq<char>, q: Seq<Seq<char>>)
    requires
        in_turn(a, p),
        in_turn(b, q),
    ensures
        in_turn(a + b, p + q),
{
    let at = choose|at: Seq<int>| are_placed(a, p, at);
    let to = choose|to: Seq<int>| are_placed(b, q, to);
    let n = p.len() as int;
    let both = at + Seq::new(to.len(), |k: int| a.len() + to[k]);
    let all = p + q;
    assert forall|k: int| 0 <= k < all.len() implies occurs_at(a + b, #[trigger] all[k], both[k]) by {
        if k < n {
            assert(all[k] == p[k] && both[k] == at[k]);
            assert(occurs_at(a, p[k], at[k]));
            assert((a + b).subrange(at[k], at[k] + p[k].len()) =~= a.subrange(
                at[k],
                at[k] + p[k].len(),
            ));
        } else {
            let m = k - n;
            assert(all[k] == q[m] && both[k] == a.len() + to[m]);
            assert(occurs_at(b, q[m], to[m]));
            assert((a + b).subrange(both[k], both[k] + q[m].len()) =~= b.subrange(
                to[m],
                to[m] + q[m].len(),
            ));
        }
    }
    assert forall|k: int, m: int| 0 <= k < m < all.len() implies #[trigger] both[k] + all[k].len()
        <= #[trigger] both[m] by {
        if m < n {
            assert(all[k] == p[k] && both[k] == at[k] && both[m] == at[m]);
        } else if k < n {
            assert(all[k] == p[k] && both[k] == at[k] && both[m] == a.len() + to[m - n]);
            assert(occurs_at(a, p[k], at[k]));
            assert(occurs_at(b, q[m - n], to[m - n]));
        } else {
            assert(all[k] == q[k - n]);
            assert(both[k] == a.len() + to[k - n] && both[m] == a.len() + to[m - n]);
            assert(to[k - n] + q[k - n].len() <= to[m - n]);
        }
    }
    assert(are_placed(a + b, all, both));
}

/// A text has itself as its one piece, and none as no pieces.
pub proof fn lemma_in_turn_one(a: Seq<char>)
    ensures
        in_turn(a, seq![a]),
        in_turn(a, Seq::<Seq<char>>::empty()),
{
    assert(a.subrange(0, a.len() as int) =~= a);
    assert(are_placed(a, seq![a], seq![0int]));
    assert(are_placed(a, Seq::<Seq<char>>::empty(), Seq::<int>::empty()));
}

/// A text that holds some pieces, with a text behind it that is one more or none.
pub proof fn lemma_in_turn_next(a: Seq<char>, p: Seq<Seq<char>>, b: Seq<char>)
    requires
        in_turn(a, p),
    ensures
        in_turn(a + b, p + seq![b]),
        in_turn(a + b, p),
{
    lemma_in_turn_one(b);
    lemma_in_turn_concat(a, p, b, seq![b]);
    lemma_in_turn_concat(a, p, b, Seq::empty());
    assert(p + Seq::<Seq<char>>::empty() =~= p);
}

/// Lengths add up.
pub proof fn lemma_total_len_concat(p: Seq<Seq<char>>, q: Seq<Seq<char>>)
    ensures
        total_len(p + q) == total_len(p) + total_len(q),
    decreases q.len(),
{
    if q.len() == 0 {
        assert(p + q =~= p);
    } else {
        assert((p + q).drop_last() =~= p + q.drop_last());
        lemma_total_len_concat(p, q.drop_last());
    }
}

/// The length of one piece.
pub proof fn lemma_total_len_one(a: Seq<char>)
    ensures
        total_len(seq![a]) == a.len(),
        total_len(Seq::<Seq<char>>::empty()) == 0,
{
    assert(total_len(seq![a].drop_last()) == 0);
}

// Joining and splitting ---------------------------------------------------

/// The characters of `s` are all other than `c`.
pub open spec fn lacks(s: Seq<char>, c: char) -> bool {
    forall|i: int| 0 <= i < s.len() ==> #[trigger] s[i] != c
}

/// Joined parts stand one behind the other, and there is nothing else but the separators.
pub proof fn law_joined_parts_stand_in_turn(parts: Seq<Seq<char>>, sep: Seq<char>)
    ensures
        in_turn(join(parts, sep), parts),
        parts.len() > 0 ==> join(parts, sep).len() == total_len(parts) + (parts.len() - 1)
            * sep.len(),
        parts.len() == 0 ==> join(parts, sep).len() == 0,
    decreases parts.len(),
{
    if parts.len() == 0 {
        lemma_in_turn_one(join(parts, sep));
        assert(parts =~= Seq::empty());
    } else if parts.len() == 1 {
        lemma_in_turn_one(parts[0]);
        lemma_total_len_one(parts[0]);
        assert(parts =~= seq![parts[0]]);
        assert(0 * sep.len() == 0);
    } else {
        let front = parts.drop_last();
        let begun = join(front, sep);
        law_joined_parts_stand_in_turn(front, sep);
        lemma_in_turn_next(begun, front, sep);
        lemma_in_turn_next(begun + sep, front, parts.last());
        assert(front + seq![parts.last()] =~= parts);
        assert((parts.len() - 1) * sep.len() == (front.len() - 1) * sep.len() + sep.len())
            by (nonlinear_arith)
            requires
                front.len() == parts.len() - 1,
        ;
    }
}

/// Joining two lists is joining each, with the separator in between.
pub proof fn law_joining_goes_over_concatenation(
    a: Seq<Seq<char>>,
    b: Seq<Seq<char>>,
    sep: Seq<char>,
)
    requires
        a.len() > 0,
        b.len() > 0,
    ensures
        join(a + b, sep) == join(a, sep) + sep + join(b, sep),
    decreases b.len(),
{
    let front = b.drop_last();
    assert((a + b).drop_last() =~= a + front);
    assert((a + b).last() == b.last());
    if b.len() == 1 {
        assert(a + front =~= a);
    } else {
        law_joining_goes_over_concatenation(a, front, sep);
        assert(join(a + b, sep) =~= join(a, sep) + sep + join(b, sep));
    }
}

/// Splitting undoes joining, and joining undoes splitting: the parts of a text hold no separator,
/// and give the text back when they are joined.
pub proof fn law_splitting_undoes_joining(s: Seq<char>, c: char)
    ensures
        join(split(s, c), seq![c]) == s,
        split(s, c).len() > 0,
        forall|k: int| 0 <= k < split(s, c).len() ==> lacks(#[trigger] split(s, c)[k], c),
    decreases s.len(),
{
    let p = is_char_at(s, c);
    lemma_first_found(p, 0, s.len() as int);
    match find_char(s, c) {
        None => {
            assert(split(s, c) =~= seq![s]);
            assert forall|i: int| 0 <= i < s.len() implies #[trigger] s[i] != c by {
                assert(!p(i));
            }
        },
        Some(i) => {
            assert(p(i));
            let rest = split(s.skip(i + 1), c);
            law_splitting_undoes_joining(s.skip(i + 1), c);
            law_joining_goes_over_concatenation(seq![s.take(i)], rest, seq![c]);
            assert(split(s, c) == seq![s.take(i)] + rest);
            assert(join(seq![s.take(i)], seq![c]) == s.take(i));
            assert(s =~= s.take(i) + seq![c] + s.skip(i + 1));
            assert forall|j: int| 0 <= j < i implies #[trigger] s.take(i)[j] != c by {
                assert(!p(j));
            }
            assert forall|k: int| 0 <= k < split(s, c).len() implies lacks(
                #[trigger] split(s, c)[k],
                c,
            ) by {
                if k > 0 {
                    assert(split(s, c)[k] == rest[k - 1]);
                }
            }
        },
    }
}

/// What stands before and behind the first of a character: the two, with it in between, are the
/// text, and the first lacks it; and there are none exactly if the text lacks it.
pub proof fn law_split_at_the_first(s: Seq<char>, c: char)
    ensures
        match split_first(s, c) {
            Some((a, b)) => s == a + seq![c] + b && lacks(a, c),
            None => lacks(s, c),
        },
{
    let p = is_char_at(s, c);
    lemma_first_found(p, 0, s.len() as int);
    match find_char(s, c) {
        None => {
            assert forall|i: int| 0 <= i < s.len() implies #[trigger] s[i] != c by {
                assert(!p(i));
            }
        },
        Some(i) => {
            assert(p(i));
            assert(s =~= s.take(i) + seq![c] + s.skip(i + 1));
            assert forall|j: int| 0 <= j < i implies #[trigger] s.take(i)[j] != c by {
                assert(!p(j));
            }
        },
    }
}

/// What stands before and behind the last of a character: the two, with it in between, are the
/// text, and the second lacks it; and there are none exactly if the text lacks it.
pub proof fn law_split_at_the_last(s: Seq<char>, c: char)
    ensures
        match split_last(s, c) {
            Some((a, b)) => s == a + seq![c] + b && lacks(b, c),
            None => lacks(s, c),
        },
{
    let n = s.len() as int;
    lemma_last_found(s, c, n);
    if let Some(i) = find_last(s, c, n) {
        assert(s =~= s.take(i) + seq![c] + s.skip(i + 1));
        assert forall|j: int| 0 <= j < s.skip(i + 1).len() implies #[trigger] s.skip(i + 1)[j]
            != c by {
            assert(s.skip(i + 1)[j] == s[i + 1 + j]);
        }
    }
}

/// The last position of a character is one behind which it does not occur.
pub proof fn lemma_last_found(s: Seq<char>, c: char, n: int)
    requires
        0 <= n <= s.len(),
    ensures
        match find_last(s, c, n) {
            Some(i) => 0 <= i < n && s[i] == c && forall|j: int| i < j < n ==> s[j] != c,
            None => forall|j: int| 0 <= j < n ==> s[j] != c,
        },
    decreases n,
{
    if n > 0 {
        lemma_last_found(s, c, n - 1);
    }
}

// White space -------------------------------------------------------------

/// `s` is a word: not empty, and without white space.
pub open spec fn is_one_word(s: Seq<char>) -> bool {
    s.len() > 0 && forall|i: int| 0 <= i < s.len() ==> !is_space(#[trigger] s[i])
}

/// `s` is trimmed: it neither begins nor ends with white space.
pub open spec fn is_trim(s: Seq<char>) -> bool {
    s.len() > 0 ==> !is_space(s[0]) && !is_space(s.last())
}

/// Where the white space at the end begins.
pub proof fn lemma_trimmed_len(s: Seq<char>, n: int)
    requires
        0 <= n <= s.len(),
    ensures
        0 <= trimmed_len(s, n) <= n,
        trimmed_len(s, n) > 0 ==> !is_space(s[trimmed_len(s, n) - 1]),
        forall|j: int| trimmed_len(s, n) <= j < n ==> is_space(#[trigger] s[j]),
    decreases n,
{
    if 0 < n && is_space(s[n - 1]) {
        lemma_trimmed_len(s, n - 1);
    }
}

/// Trimming takes white space away at both ends, all of it, and nothing else.
pub proof fn law_trimming_takes_blanks_away(s: Seq<char>)
    ensures
        is_trim(trim(s)),
        exists|a: Seq<char>, b: Seq<char>| #[trigger]
            is_around(a, trim(s), b, s) && is_blank(a) && is_blank(b),
{
    lemma_skip_space_bounds(s, 0);
    let t = trim_start(s);
    let k = skip_space(s, 0);
    let n = t.len() as int;
    lemma_trimmed_len(t, n);
    let m = trimmed_len(t, n);
    let a = s.take(k);
    let b = t.skip(m);
    assert forall|i: int| 0 <= i < b.len() implies is_space(#[trigger] b[i]) by {
        assert(b[i] == t[m + i]);
    }
    assert(s =~= a + trim(s) + b);
    assert(is_around(a, trim(s), b, s));
    if trim(s).len() > 0 {
        assert(trim(s)[0] == s[k]);
        assert(trim(s).last() == t[m - 1]);
    }
}

/// Trimming at the end takes white space away there, all of it, and nothing else.
pub proof fn law_trimming_the_end_takes_blanks_away(s: Seq<char>)
    ensures
        trim_end(s).len() > 0 ==> !is_space(trim_end(s).last()),
        trim_end(s).len() <= s.len(),
        trim_end(s) == s.take(trim_end(s).len() as int),
        is_blank(s.skip(trim_end(s).len() as int)),
{
    let n = s.len() as int;
    lemma_trimmed_len(s, n);
    let m = trimmed_len(s, n);
    let b = s.skip(m);
    assert forall|i: int| 0 <= i < b.len() implies is_space(#[trigger] b[i]) by {
        assert(b[i] == s[m + i]);
    }
}

/// `s` is `a`, `mid` and `b`.
pub open spec fn is_around(a: Seq<char>, mid: Seq<char>, b: Seq<char>, s: Seq<char>) -> bool {
    s == a + mid + b
}

/// A trimmed text with blanks around it is what trimming gives back.
pub proof fn law_trimming_undoes_padding(a: Seq<char>, s: Seq<char>, b: Seq<char>)
    requires
        is_blank(a),
        is_blank(b),
        is_trim(s),
    ensures
        trim(a + s + b) == s,
{
    let t = a + s + b;
    let k = skip_space(t, 0);
    lemma_skip_space_bounds(t, 0);
    let rest = trim_start(t);
    let n = rest.len() as int;
    lemma_trimmed_len(rest, n);
    let m = trimmed_len(rest, n);
    if s.len() == 0 {
        if k < t.len() {
            assert(t[k] == if k < a.len() {
                a[k]
            } else {
                b[k - a.len()]
            });
        }
        assert(rest.len() == 0);
        assert(trim(t) =~= s);
    } else {
        if k < a.len() {
            assert(t[k] == a[k]);
        }
        if k > a.len() {
            assert(t[a.len() as int] == s[0]);
            assert(is_space(t[a.len() as int]));
        }
        assert(k == a.len());
        assert(rest =~= s + b);
        if m > s.len() {
            assert(rest[m - 1] == b[m - 1 - s.len()]);
        }
        if m < s.len() {
            assert(rest[s.len() - 1] == s.last());
            assert(is_space(rest[s.len() - 1]));
        }
        assert(trim(t) =~= s);
    }
}

/// Words end where white space begins.
pub proof fn lemma_word_end(s: Seq<char>, i: int)
    requires
        0 <= i <= s.len(),
    ensures
        i <= word_end(s, i) <= s.len(),
        word_end(s, i) < s.len() ==> is_space(s[word_end(s, i)]),
        forall|j: int| i <= j < word_end(s, i) ==> !is_space(#[trigger] s[j]),
    decreases s.len() - i,
{
    if i < s.len() && !is_space(s[i]) {
        lemma_word_end(s, i + 1);
    }
}

/// What stands in front does not change the words behind it.
proof fn lemma_words_shift(a: Seq<char>, s: Seq<char>, i: int)
    requires
        0 <= i <= s.len(),
    ensures
        skip_space(a + s, a.len() + i) == a.len() + skip_space(s, i),
        word_end(a + s, a.len() + i) == a.len() + word_end(s, i),
    decreases s.len() - i,
{
    if i < s.len() {
        assert((a + s)[a.len() + i] == s[i]);
        lemma_words_shift(a, s, i + 1);
    }
}

/// What stands in front does not change the words behind it.
proof fn lemma_words_from_shift(a: Seq<char>, s: Seq<char>, i: int)
    requires
        0 <= i <= s.len(),
    ensures
        words_from(a + s, a.len() + i) == words_from(s, i),
    decreases s.len() - i,
{
    lemma_words_shift(a, s, i);
    lemma_skip_space_bounds(s, i);
    let b = skip_space(s, i);
    lemma_words_shift(a, s, b);
    lemma_word_end(s, b);
    if b < s.len() {
        let e = word_end(s, b);
        assert(e > b);
        lemma_words_from_shift(a, s, e);
        assert((a + s).subrange(a.len() + b, a.len() + e) =~= s.subrange(b, e));
    }
}

/// A word, with what stands behind it separated by white space, is the first of the words.
pub proof fn law_words_are_what_blanks_separate(w: Seq<char>, blank: Seq<char>, rest: Seq<char>)
    requires
        is_one_word(w),
        is_blank(blank),
        blank.len() > 0 || rest.len() == 0,
    ensures
        words(blank + rest) == words(rest),
        words(w + blank + rest) == seq![w] + words(rest),
{
    let behind = blank + rest;
    let s = w + blank + rest;
    assert(s =~= w + behind);
    lemma_blank_skipped(blank, rest);
    lemma_words_from_shift(w, behind, 0);
    lemma_skip_space_bounds(s, 0);
    assert(s[0] == w[0]);
    assert(skip_space(s, 0) == 0);
    lemma_word_end(s, 0);
    let e = word_end(s, 0);
    if e < w.len() {
        assert(s[e] == w[e]);
    }
    if e > w.len() {
        assert(s[w.len() as int] == behind[0]);
        assert(behind[0] == blank[0]);
    }
    assert(e == w.len());
    assert(s.subrange(0, e) =~= w);
}

/// White space in front does not change the words.
proof fn lemma_blank_skipped(blank: Seq<char>, rest: Seq<char>)
    requires
        is_blank(blank),
    ensures
        words(blank + rest) == words(rest),
{
    let s = blank + rest;
    lemma_skip_over(s, 0, blank.len() as int);
    lemma_words_from_shift(blank, rest, 0);
    assert(words_from(s, 0) == words_from(s, blank.len() as int));
}

/// A stretch of white space is skipped.
proof fn lemma_skip_over(s: Seq<char>, i: int, n: int)
    requires
        0 <= i <= n <= s.len(),
        forall|j: int| i <= j < n ==> is_space(#[trigger] s[j]),
    ensures
        skip_space(s, i) == skip_space(s, n),
        words_from(s, i) == words_from(s, n),
    decreases n - i,
{
    if i < n {
        assert(is_space(s[i]));
        lemma_skip_over(s, i + 1, n);
    }
}

/// The words of a text hold no white space, and a text without words is blank.
pub proof fn law_words_are_words(s: Seq<char>)
    ensures
        forall|k: int| 0 <= k < words(s).len() ==> is_one_word(#[trigger] words(s)[k]),
        words(s).len() == 0 <==> is_blank(s),
{
    lemma_words_from_are_words(s, 0);
    if is_blank(s) {
        lemma_skip_space_bounds(s, 0);
    }
}

/// The words of a text from a position on hold no white space.
proof fn lemma_words_from_are_words(s: Seq<char>, i: int)
    requires
        0 <= i <= s.len(),
    ensures
        forall|k: int| 0 <= k < words_from(s, i).len() ==> is_one_word(#[trigger] words_from(s, i)[k]),
        words_from(s, i).len() == 0 ==> forall|j: int|
            i <= j < s.len() ==> is_space(#[trigger] s[j]),
    decreases s.len() - i,
{
    lemma_skip_space_bounds(s, i);
    let b = skip_space(s, i);
    lemma_word_end(s, b);
    if b < s.len() {
        let e = word_end(s, b);
        let w = s.subrange(b, e);
        lemma_words_from_are_words(s, e);
        assert forall|j: int| 0 <= j < w.len() implies !is_space(#[trigger] w[j]) by {
            assert(w[j] == s[b + j]);
        }
        assert forall|k: int| 0 <= k < words_from(s, i).len() implies is_one_word(
            #[trigger] words_from(s, i)[k],
        ) by {
            if k > 0 {
                assert(words_from(s, i)[k] == words_from(s, e)[k - 1]);
            }
        }
    }
}

/// Words joined by spaces are read back.
pub proof fn law_joined_words_are_read(all: Seq<Seq<char>>)
    requires
        forall|k: int| 0 <= k < all.len() ==> is_one_word(#[trigger] all[k]),
    ensures
        words(join(all, " "@)) == all,
    decreases all.len(),
{
    reveal_strlit(" ");
    if all.len() == 0 {
        assert(words(join(all, " "@)) =~= all);
    } else {
        let first = all[0];
        let rest = all.drop_first();
        assert forall|k: int| 0 <= k < rest.len() implies is_one_word(#[trigger] rest[k]) by {
            assert(rest[k] == all[k + 1]);
        }
        law_joined_words_are_read(rest);
        if rest.len() == 0 {
            let none = Seq::<char>::empty();
            law_words_are_what_blanks_separate(first, none, none);
            law_words_are_words(none);
            assert(first + none + none =~= first);
            assert(words(first) =~= all);
        } else {
            law_joining_goes_over_concatenation(seq![first], rest, " "@);
            assert(seq![first] + rest =~= all);
            assert(join(seq![first], " "@) == first);
            law_words_are_what_blanks_separate(first, " "@, join(rest, " "@));
            assert(seq![first] + rest =~= all);
        }
    }
}

// Lines -------------------------------------------------------------------

/// The lines of a text: a stretch without line feeds, up to a line feed, is the first of them, but
/// for a carriage return at its end; and what stands behind the last line feed is one, unless it is
/// empty.
pub proof fn law_lines_are_what_line_feeds_end(a: Seq<char>, rest: Seq<char>)
    requires
        lacks(a, '\n'),
    ensures
        lines(a + seq!['\n'] + rest) == seq![
            if a.len() > 0 && a.last() == '\r' {
                a.drop_last()
            } else {
                a
            },
        ] + lines(rest),
        a.len() > 0 ==> lines(a) == seq![a],
        a.len() == 0 ==> lines(a).len() == 0,
{
    let s = a + seq!['\n'] + rest;
    let n = a.len() as int;
    let p = is_char_at(s, '\n');
    lemma_first_found(p, 0, s.len() as int);
    assert(s[n] == '\n');
    assert(p(n));
    let i = find_char(s, '\n')->0;
    if i < n {
        assert(p(i));
        assert(s[i] == a[i]);
    }
    assert(i == n);
    assert(s.take(n) =~= a);
    assert(s.skip(n + 1) =~= rest);
    let q = is_char_at(a, '\n');
    lemma_first_found(q, 0, n);
    if let Some(j) = find_char(a, '\n') {
        assert(q(j));
        assert(a[j] == '\n');
    }
}

/// Lines that are written one by one, each with a line feed, are read back.
pub proof fn law_written_lines_are_read(all: Seq<Seq<char>>)
    requires
        forall|k: int|
            0 <= k < all.len() ==> lacks(#[trigger] all[k], '\n') && (all[k].len() > 0
                ==> all[k].last() != '\r'),
    ensures
        lines(concatenated(all)) == all,
    decreases all.len(),
{
    reveal_strlit("\n");
    if all.len() > 0 {
        let front = all.drop_last();
        assert forall|k: int| 0 <= k < front.len() implies lacks(#[trigger] front[k], '\n') && (
        front[k].len() > 0 ==> front[k].last() != '\r') by {
            assert(front[k] == all[k]);
        }
        law_written_lines_are_read(front);
        let begun = concatenated(front);
        let last = all[all.len() - 1];
        let none = Seq::<char>::empty();
        law_lines_are_what_line_feeds_end(last, none);
        law_lines_are_what_line_feeds_end(none, none);
        lemma_lines_concat(begun, last + seq!['\n'] + none);
        assert(concatenated(all) =~= begun + (last + seq!['\n'] + none));
        assert(lines(concatenated(all)) =~= all);
    } else {
        assert(lines(concatenated(all)) =~= all);
    }
}

// Numbers -----------------------------------------------------------------

/// A number is written in decimal digits that read as it, without leading zeros.
pub proof fn law_decimal_reads_back(n: nat)
    ensures
        decimal(n).len() > 0,
        forall|i: int| 0 <= i < decimal(n).len() ==> is_digit(#[trigger] decimal(n)[i]),
        digits_value(decimal(n), 0, decimal(n).len() as int) == n,
        decimal(n).len() > 1 ==> decimal(n)[0] != '0',
    decreases n,
{
    let s = decimal(n);
    if n < 10 {
        assert(digits_value(s, 0, 0) == 0);
        assert(s[0] as int == '0' as int + n);
    } else {
        let front = decimal(n / 10);
        law_decimal_reads_back(n / 10);
        let m = front.len() as int;
        let d = n % 10;
        assert(s == front.push(digit_char(d as int)));
        assert(digit_char(d as int) as int == '0' as int + d);
        lemma_same_digits(s, front, m);
        assert(s.len() == m + 1);
        assert(digits_value(s, 0, m + 1) == digits_value(s, 0, m) * 10 + d);
        assert(n / 10 * 10 + n % 10 == n);
        assert forall|i: int| 0 <= i < s.len() implies is_digit(#[trigger] s[i]) by {
            if i < m {
                assert(s[i] == front[i]);
            }
        }
        assert(s[0] == front[0]);
        if m == 1 {
            assert(n / 10 < 10) by {
                if n / 10 >= 10 {
                    assert(decimal(n / 10).len() == decimal(n / 10 / 10).len() + 1);
                    law_decimal_reads_back(n / 10 / 10);
                }
            }
        }
    }
}

/// The value of digits depends on these alone.
proof fn lemma_same_digits(s: Seq<char>, t: Seq<char>, n: int)
    requires
        0 <= n <= s.len(),
        n <= t.len(),
        forall|i: int| 0 <= i < n ==> s[i] == t[i],
    ensures
        digits_value(s, 0, n) == digits_value(t, 0, n),
    decreases n,
{
    if n > 0 {
        lemma_same_digits(s, t, n - 1);
    }
}

/// Bytes are written in hexadecimal one by one: those of two lists as those of the one and then the
/// other, and a single one by two digits, of which the first counts for sixteen.
pub proof fn law_hex_goes_over_concatenation(a: Seq<u8>, b: Seq<u8>, byte: u8)
    ensures
        hex(a + b) == hex(a) + hex(b),
        hex(seq![byte]).len() == 2,
        hex_value(hex(seq![byte])[0]) * 16 + hex_value(hex(seq![byte])[1]) == byte,
        hex(Seq::<u8>::empty()).len() == 0,
    decreases b.len(),
{
    assert(hex(seq![byte].drop_last()) =~= Seq::empty());
    if b.len() == 0 {
        assert(a + b =~= a);
        assert(hex(a) + hex(b) =~= hex(a));
    } else {
        assert((a + b).drop_last() =~= a + b.drop_last());
        law_hex_goes_over_concatenation(a, b.drop_last(), byte);
        assert(hex(a + b) =~= hex(a) + hex(b));
    }
}

/// The value of a hexadecimal digit, written in lower case.
pub open spec fn hex_value(c: char) -> int {
    if '0' <= c <= '9' {
        c as int - '0' as int
    } else if 'a' <= c <= 'f' {
        c as int - 'a' as int + 10
    } else {
        -1
    }
}

// Order -------------------------------------------------------------------

/// At position `i` the texts first differ, and there `a` has the smaller code point.
pub open spec fn is_less_at(a: Seq<char>, b: Seq<char>, i: int) -> bool {
    &&& 0 <= i < a.len()
    &&& i < b.len()
    &&& (a[i] as int) < (b[i] as int)
    &&& forall|j: int| 0 <= j < i ==> #[trigger] a[j] == b[j]
}

/// Texts are ordered as in a dictionary, by code points: one comes before another exactly if it has
/// the smaller one where they first differ, or is a part of it, from its start on.
pub proof fn law_texts_are_ordered_as_in_a_dictionary(a: Seq<char>, b: Seq<char>)
    ensures
        text_less(a, b) <==> ((a.len() < b.len() && b.take(a.len() as int) == a) || exists|i: int|
            #[trigger] is_less_at(a, b, i)),
    decreases a.len(),
{
    if a.len() == 0 {
        assert(b.take(0) =~= a);
    } else if b.len() == 0 {
    } else if a[0] != b[0] {
        if text_less(a, b) {
            assert(is_less_at(a, b, 0));
        } else {
            if a.len() < b.len() && b.take(a.len() as int) == a {
                assert(b.take(a.len() as int)[0] == b[0]);
            }
            if exists|i: int| #[trigger] is_less_at(a, b, i) {
                let i = choose|i: int| #[trigger] is_less_at(a, b, i);
                if i > 0 {
                    assert(a[0] == b[0]);
                }
            }
        }
    } else {
        let x = a.drop_first();
        let y = b.drop_first();
        law_texts_are_ordered_as_in_a_dictionary(x, y);
        if text_less(a, b) {
            if x.len() < y.len() && y.take(x.len() as int) == x {
                assert(b.take(a.len() as int) =~= a) by {
                    assert forall|j: int| 0 <= j < a.len() implies b[j] == a[j] by {
                        if j > 0 {
                            assert(y.take(x.len() as int)[j - 1] == x[j - 1]);
                        }
                    }
                }
            } else {
                let i = choose|i: int| #[trigger] is_less_at(x, y, i);
                assert forall|j: int| 0 <= j < i + 1 implies #[trigger] a[j] == b[j] by {
                    if j > 0 {
                        assert(x[j - 1] == y[j - 1]);
                    }
                }
                assert(is_less_at(a, b, i + 1));
            }
        } else {
            if a.len() < b.len() && b.take(a.len() as int) == a {
                assert(y.take(x.len() as int) =~= x) by {
                    assert forall|j: int| 0 <= j < x.len() implies y[j] == x[j] by {
                        assert(b.take(a.len() as int)[j + 1] == a[j + 1]);
                    }
                }
            }
            if exists|i: int| #[trigger] is_less_at(a, b, i) {
                let i = choose|i: int| #[trigger] is_less_at(a, b, i);
                assert(i > 0);
                assert forall|j: int| 0 <= j < i - 1 implies #[trigger] x[j] == y[j] by {
                    assert(a[j + 1] == b[j + 1]);
                }
                assert(is_less_at(x, y, i - 1));
            }
        }
    }
}

} // verus!
