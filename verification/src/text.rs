//! Text as a sequence of characters: searching, trimming, splitting, joining
//! and ordering.
//!
//! A string is modelled by its view, a `Seq<char>`. A position is the number of
//! characters before it; a byte offset is the number of UTF-8 bytes before it.
use vstd::prelude::*;
use vstd::string::*;
use vstd::utf8::*;

verus! {

/// `String::push` puts one character behind the text.
pub assume_specification[ String::push ](s: &mut String, ch: char)
    ensures
        final(s)@ == old(s)@.push(ch),
;

/// The characters of `s`, in order.
pub fn chars_of(s: &str) -> (r: Vec<char>)
    ensures
        r@ == s@,
{
    let mut out: Vec<char> = Vec::new();
    for c in it: s.chars()
        invariant
            out@ == s@.take(it.index() as int),
            it.seq() == s@,
    {
        out.push(c);
    }
    out
}

/// The text that `chars` spells.
fn string_of(chars: &[char]) -> (r: String)
    ensures
        r@ == chars@,
{
    let mut out = String::new();
    let mut i: usize = 0;
    while i < chars.len()
        invariant
            i <= chars.len(),
            out@ == chars@.take(i as int),
        decreases chars.len() - i,
    {
        out.push(chars[i]);
        i += 1;
    }
    out
}

/// The text of `chars` from position `from` to before position `to`.
pub fn slice_of(chars: &[char], from: usize, to: usize) -> (r: String)
    requires
        from <= to <= chars@.len(),
    ensures
        r@ == chars@.subrange(from as int, to as int),
{
    let mut out = String::new();
    let mut i: usize = from;
    while i < to
        invariant
            from <= i <= to <= chars@.len(),
            out@ == chars@.subrange(from as int, i as int),
        decreases to - i,
    {
        out.push(chars[i]);
        i += 1;
    }
    out
}

/// Whether two character sequences are the same.
fn same_chars(a: &[char], b: &[char]) -> (r: bool)
    ensures
        r == (a@ == b@),
{
    if a.len() != b.len() {
        return false;
    }
    let mut i: usize = 0;
    while i < a.len()
        invariant
            a@.len() == b@.len(),
            i <= a@.len(),
            a@.take(i as int) == b@.take(i as int),
        decreases a@.len() - i,
    {
        if a[i] != b[i] {
            return false;
        }
        i += 1;
        assert(a@.take(i as int) =~= b@.take(i as int));
    }
    assert(a@ =~= a@.take(i as int));
    assert(b@ =~= b@.take(i as int));
    true
}

/// Whether two texts are the same.
pub fn same(a: &str, b: &str) -> (r: bool)
    ensures
        r == (a@ == b@),
{
    same_chars(chars_of(a).as_slice(), chars_of(b).as_slice())
}

/// The text of `a` followed by that of `b`.
pub fn concat2(a: &str, b: &str) -> (r: String)
    ensures
        r@ == a@ + b@,
{
    let mut out = a.to_string();
    out.append(b);
    out
}

/// The text of `a`, `b` and `c`, one after the other.
pub fn concat3(a: &str, b: &str, c: &str) -> (r: String)
    ensures
        r@ == a@ + b@ + c@,
{
    let mut out = a.to_string();
    out.append(b);
    out.append(c);
    out
}

/// The text of the 4 arguments, one after the other.
pub fn concat4(a: &str, b: &str, c: &str, d: &str) -> (r: String)
    ensures
        r@ == a@ + b@ + c@ + d@,
{
    let mut out = a.to_string();
    out.append(b);
    out.append(c);
    out.append(d);
    out
}

/// The text of the 5 arguments, one after the other.
pub fn concat5(a: &str, b: &str, c: &str, d: &str, e: &str) -> (r: String)
    ensures
        r@ == a@ + b@ + c@ + d@ + e@,
{
    let mut out = a.to_string();
    out.append(b);
    out.append(c);
    out.append(d);
    out.append(e);
    out
}

/// The text of the 6 arguments, one after the other.
pub fn concat6(a: &str, b: &str, c: &str, d: &str, e: &str, f: &str) -> (r: String)
    ensures
        r@ == a@ + b@ + c@ + d@ + e@ + f@,
{
    let mut out = a.to_string();
    out.append(b);
    out.append(c);
    out.append(d);
    out.append(e);
    out.append(f);
    out
}

/// The text of the 7 arguments, one after the other.
pub fn concat7(a: &str, b: &str, c: &str, d: &str, e: &str, f: &str, g: &str) -> (r: String)
    ensures
        r@ == a@ + b@ + c@ + d@ + e@ + f@ + g@,
{
    let mut out = a.to_string();
    out.append(b);
    out.append(c);
    out.append(d);
    out.append(e);
    out.append(f);
    out.append(g);
    out
}

/// The code point of `c`.
pub fn code_point(c: char) -> (r: u32)
    ensures
        r == c as int,
{
    c as u32
}

// Searching ---------------------------------------------------------------

/// The first position from `from` on and before `end` at which `p` holds.
pub open spec fn first_from(p: spec_fn(int) -> bool, from: int, end: int) -> Option<int>
    decreases end - from,
{
    if from >= end {
        None
    } else if p(from) {
        Some(from)
    } else {
        first_from(p, from + 1, end)
    }
}

/// `first_from` skips a stretch of positions at which `p` fails.
pub proof fn lemma_first_skip(p: spec_fn(int) -> bool, from: int, mid: int, end: int)
    requires
        from <= mid,
        mid <= end || from == mid,
        forall|j: int| from <= j < mid ==> !#[trigger] p(j),
    ensures
        first_from(p, from, end) == first_from(p, mid, end),
    decreases mid - from,
{
    if from < mid {
        lemma_first_skip(p, from + 1, mid, end);
    }
}

/// What `first_from` returns is a position in range at which `p` holds, the first
/// such; it returns none only if there is none.
pub proof fn lemma_first_found(p: spec_fn(int) -> bool, from: int, end: int)
    ensures
        match first_from(p, from, end) {
            Some(i) => from <= i < end && p(i) && forall|j: int|
                from <= j < i ==> !#[trigger] p(j),
            None => forall|j: int| from <= j < end ==> !#[trigger] p(j),
        },
    decreases end - from,
{
    if from < end && !p(from) {
        lemma_first_found(p, from + 1, end);
    }
}

/// Where two predicates agree on a range, so do their first positions in it.
pub proof fn lemma_first_agrees(
    p: spec_fn(int) -> bool,
    q: spec_fn(int) -> bool,
    from: int,
    end: int,
)
    requires
        forall|i: int| from <= i < end ==> #[trigger] p(i) == q(i),
    ensures
        first_from(p, from, end) == first_from(q, from, end),
    decreases end - from,
{
    if from < end {
        assert(p(from) == q(from));
        lemma_first_agrees(p, q, from + 1, end);
    }
}

/// A first position found in a range is the first position in a longer one.
pub proof fn lemma_first_extends(p: spec_fn(int) -> bool, from: int, end: int, longer: int)
    requires
        end <= longer,
        first_from(p, from, end) is Some,
    ensures
        first_from(p, from, longer) == first_from(p, from, end),
    decreases end - from,
{
    if from < end && !p(from) {
        lemma_first_extends(p, from + 1, end, longer);
    }
}

/// A predicate that holds one position further on is found one position further on.
pub proof fn lemma_first_shifts(q: spec_fn(int) -> bool, p: spec_fn(int) -> bool, from: int, end: int)
    requires
        forall|i: int| from <= i < end ==> #[trigger] q(i) == p(i + 1),
    ensures
        match first_from(q, from, end) {
            Some(i) => first_from(p, from + 1, end + 1) == Some(i + 1),
            None => first_from(p, from + 1, end + 1) is None,
        },
    decreases end - from,
{
    if from < end {
        assert(q(from) == p(from + 1));
        lemma_first_shifts(q, p, from + 1, end);
    }
}

/// The character at a position is `c`.
pub open spec fn is_char_at(s: Seq<char>, c: char) -> spec_fn(int) -> bool {
    |i: int| s[i] == c
}

/// `pat` stands in `s` at position `i`.
pub open spec fn occurs_at(s: Seq<char>, pat: Seq<char>, i: int) -> bool {
    0 <= i && i + pat.len() <= s.len() && s.subrange(i, i + pat.len()) == pat
}

/// `pat` stands in `s` at a position.
pub open spec fn occurrence(s: Seq<char>, pat: Seq<char>) -> spec_fn(int) -> bool {
    |i: int| occurs_at(s, pat, i)
}

/// The first position of `c` in `s`.
pub open spec fn find_char(s: Seq<char>, c: char) -> Option<int> {
    first_from(is_char_at(s, c), 0, s.len() as int)
}

/// The first position from `from` on at which `pat` stands in `s`.
pub open spec fn find_text(s: Seq<char>, pat: Seq<char>, from: int) -> Option<int> {
    first_from(occurrence(s, pat), from, s.len() as int)
}

/// `s` begins with `prefix`.
pub open spec fn has_prefix(s: Seq<char>, prefix: Seq<char>) -> bool {
    occurs_at(s, prefix, 0)
}

/// An optional position as the number that holds it.
pub open spec fn as_position(r: Option<usize>) -> Option<int> {
    match r {
        Some(i) => Some(i as int),
        None => None,
    }
}

/// The first position of `c` in `s`.
pub fn position_of(s: &[char], c: char) -> (r: Option<usize>)
    ensures
        as_position(r) == find_char(s@, c),
        r matches Some(i) ==> i < s@.len() <= usize::MAX && s@[i as int] == c,
{
    let ghost p = is_char_at(s@, c);
    let mut i: usize = 0;
    while i < s.len()
        invariant
            i <= s@.len(),
            p == is_char_at(s@, c),
            first_from(p, 0, s@.len() as int) == first_from(p, i as int, s@.len() as int),
        decreases s@.len() - i,
    {
        if s[i] == c {
            return Some(i);
        }
        i += 1;
    }
    None
}

/// Whether `pat` stands in `s` at position `i`.
pub fn matches_at(s: &[char], pat: &[char], i: usize) -> (r: bool)
    ensures
        r == occurs_at(s@, pat@, i as int),
{
    let n: usize = s.len();
    if i > n || pat.len() > n - i {
        return false;
    }
    let mut k: usize = 0;
    while k < pat.len()
        invariant
            i + pat@.len() <= n == s@.len(),
            k <= pat@.len(),
            s@.subrange(i as int, i + k) == pat@.take(k as int),
        decreases pat@.len() - k,
    {
        if s[i + k] != pat[k] {
            assert(s@.subrange(i as int, i + pat@.len())[k as int] != pat@[k as int]);
            return false;
        }
        k += 1;
        assert(s@.subrange(i as int, i + k) =~= pat@.take(k as int));
    }
    assert(pat@.take(k as int) =~= pat@);
    true
}

/// Whether `s` begins with `prefix`.
pub fn starts_with(s: &str, prefix: &str) -> (r: bool)
    ensures
        r == has_prefix(s@, prefix@),
{
    matches_at(chars_of(s).as_slice(), chars_of(prefix).as_slice(), 0)
}

/// What follows `prefix` in `s`, where `s` begins with it.
pub open spec fn without_prefix(s: Seq<char>, prefix: Seq<char>) -> Option<Seq<char>> {
    if has_prefix(s, prefix) {
        Some(s.skip(prefix.len() as int))
    } else {
        None
    }
}

/// What follows `prefix` in `s`, where `s` begins with it.
pub fn strip_prefix(s: &str, prefix: &str) -> (r: Option<String>)
    ensures
        r.deep_view() == without_prefix(s@, prefix@),
{
    let chars = chars_of(s);
    let pat = chars_of(prefix);
    if matches_at(chars.as_slice(), pat.as_slice(), 0) {
        Some(slice_of(chars.as_slice(), pat.len(), chars.len()))
    } else {
        None
    }
}

// Byte offsets ------------------------------------------------------------

/// The number of bytes that the characters of `s` before position `i` take in UTF-8.
pub open spec fn byte_offset(s: Seq<char>, i: int) -> int {
    encode_utf8(s.take(i)).len() as int
}

/// The number of bytes that `c` takes in UTF-8.
pub open spec fn char_width(c: char) -> int {
    let n = c as int;
    if n < 0x80 {
        1
    } else if n < 0x800 {
        2
    } else if n < 0x10000 {
        3
    } else {
        4
    }
}

/// The encoding of a concatenation is the concatenation of the encodings.
pub proof fn lemma_encode_concat(a: Seq<char>, b: Seq<char>)
    ensures
        encode_utf8(a + b) == encode_utf8(a) + encode_utf8(b),
    decreases a.len(),
{
    if a.len() == 0 {
        assert(a + b =~= b);
        assert(encode_utf8(a) + encode_utf8(b) =~= encode_utf8(b));
    } else {
        assert((a + b).drop_first() =~= a.drop_first() + b);
        lemma_encode_concat(a.drop_first(), b);
        assert((a + b)[0] == a[0]);
        assert(encode_utf8(a + b) =~= encode_utf8(a) + encode_utf8(b));
    }
}

/// A character alone is encoded in as many bytes as its width says.
proof fn lemma_encode_one(c: char)
    ensures
        encode_utf8(seq![c]).len() == char_width(c),
{
    reveal_with_fuel(encode_utf8, 2);
    char_is_scalar(c);
    char_u32_cast(c, c as u32);
    assert(encode_utf8(seq![c]) =~= encode_scalar(c as u32));
}

/// A character adds its width to the byte offset.
proof fn lemma_byte_offset_step(s: Seq<char>, i: int)
    requires
        0 <= i < s.len(),
    ensures
        byte_offset(s, i + 1) == byte_offset(s, i) + char_width(s[i]),
{
    assert(s.take(i + 1) =~= s.take(i) + seq![s[i]]);
    lemma_encode_concat(s.take(i), seq![s[i]]);
    lemma_encode_one(s[i]);
}

/// A later position has a larger byte offset.
pub proof fn lemma_byte_offset_monotonic(s: Seq<char>, i: int, j: int)
    requires
        0 <= i <= j <= s.len(),
    ensures
        byte_offset(s, i) + (j - i) <= byte_offset(s, j),
    decreases j - i,
{
    if i < j {
        lemma_byte_offset_monotonic(s, i, j - 1);
        lemma_byte_offset_step(s, j - 1);
    }
}

/// The number of bytes that `c` takes in UTF-8.
pub fn width_of(c: char) -> (r: usize)
    ensures
        r == char_width(c),
{
    let n: u32 = code_point(c);
    if n < 0x80 {
        1
    } else if n < 0x800 {
        2
    } else if n < 0x10000 {
        3
    } else {
        4
    }
}

/// The byte offset of position `i` of `source`, whose characters are `chars`.
pub fn byte_offset_of(source: &str, chars: &[char], i: usize) -> (r: usize)
    requires
        chars@ == source@,
        i <= chars@.len(),
    ensures
        r == byte_offset(source@, i as int),
{
    let total: usize = source.as_bytes().len();
    assert(source@.take(source@.len() as int) =~= source@);
    assert(total == byte_offset(source@, source@.len() as int));
    let mut k: usize = 0;
    let mut n: usize = 0;
    assert(byte_offset(source@, 0) == 0);
    while k < i
        invariant
            chars@ == source@,
            k <= i <= chars@.len(),
            n == byte_offset(source@, k as int),
            total == byte_offset(source@, source@.len() as int),
        decreases i - k,
    {
        proof {
            lemma_byte_offset_step(source@, k as int);
            lemma_byte_offset_monotonic(source@, k + 1, source@.len() as int);
        }
        n += width_of(chars[k]);
        k += 1;
    }
    n
}

/// A position whose byte offset in `s` is `b`.
pub open spec fn at_byte(s: Seq<char>, b: int) -> spec_fn(int) -> bool {
    |i: int| byte_offset(s, i) == b
}

/// The position whose byte offset in `s` is `b`, if a character or the end of `s` has it.
pub open spec fn position_of_byte(s: Seq<char>, b: int) -> Option<int> {
    first_from(at_byte(s, b), 0, s.len() as int + 1)
}

/// The position whose byte offset in `source` is `b`.
pub fn position_at_byte(source: &str, chars: &[char], b: usize) -> (r: Option<usize>)
    requires
        chars@ == source@,
    ensures
        as_position(r) == position_of_byte(source@, b as int),
        r matches Some(i) ==> i <= chars@.len(),
{
    let total: usize = source.as_bytes().len();
    assert(source@.take(source@.len() as int) =~= source@);
    let ghost p = at_byte(source@, b as int);
    let ghost end = source@.len() as int + 1;
    let mut k: usize = 0;
    let mut n: usize = 0;
    assert(byte_offset(source@, 0) == 0);
    while k < chars.len()
        invariant
            chars@ == source@,
            k <= chars@.len(),
            p == at_byte(source@, b as int),
            end == source@.len() + 1,
            n == byte_offset(source@, k as int),
            total == byte_offset(source@, source@.len() as int),
            first_from(p, 0, end) == first_from(p, k as int, end),
        decreases chars@.len() - k,
    {
        if n == b {
            assert(p(k as int));
            return Some(k);
        }
        assert(!p(k as int));
        proof {
            lemma_byte_offset_step(source@, k as int);
            lemma_byte_offset_monotonic(source@, k + 1, source@.len() as int);
        }
        n += width_of(chars[k]);
        k += 1;
    }
    if n == b {
        assert(p(k as int));
        Some(k)
    } else {
        assert(!p(k as int));
        assert(first_from(p, k + 1, end) is None);
        None
    }
}

// White space -------------------------------------------------------------

/// `c` is one of the characters that Unicode lists as white space.
pub open spec fn is_space(c: char) -> bool {
    let n = c as int;
    ||| 0x09 <= n <= 0x0d
    ||| n == 0x20
    ||| n == 0x85
    ||| n == 0xa0
    ||| n == 0x1680
    ||| 0x2000 <= n <= 0x200a
    ||| n == 0x2028
    ||| n == 0x2029
    ||| n == 0x202f
    ||| n == 0x205f
    ||| n == 0x3000
}

/// Whether `c` is one of the characters that Unicode lists as white space.
pub fn is_white_space(c: char) -> (r: bool)
    ensures
        r == is_space(c),
{
    let n: u32 = code_point(c);
    (0x09 <= n && n <= 0x0d) || n == 0x20 || n == 0x85 || n == 0xa0 || n == 0x1680 || (0x2000 <= n
        && n <= 0x200a) || n == 0x2028 || n == 0x2029 || n == 0x202f || n == 0x205f || n == 0x3000
}

/// The first position from `i` on that holds no white space, or the end of `s`.
pub open spec fn skip_space(s: Seq<char>, i: int) -> int
    decreases s.len() - i,
{
    if 0 <= i < s.len() && is_space(s[i]) {
        skip_space(s, i + 1)
    } else {
        i
    }
}

/// The length of the first `n` characters of `s` without the white space at their end.
pub open spec fn trimmed_len(s: Seq<char>, n: int) -> int
    decreases n,
{
    if 0 < n <= s.len() && is_space(s[n - 1]) {
        trimmed_len(s, n - 1)
    } else {
        n
    }
}

/// `s` without the white space at its start.
pub open spec fn trim_start(s: Seq<char>) -> Seq<char> {
    s.skip(skip_space(s, 0))
}

/// `s` without the white space at its end.
pub open spec fn trim_end(s: Seq<char>) -> Seq<char> {
    s.take(trimmed_len(s, s.len() as int))
}

/// `s` without the white space at either end.
pub open spec fn trim(s: Seq<char>) -> Seq<char> {
    trim_end(trim_start(s))
}

/// White space is skipped up to the first other character.
pub proof fn lemma_skip_space_bounds(s: Seq<char>, i: int)
    requires
        0 <= i <= s.len(),
    ensures
        i <= skip_space(s, i) <= s.len(),
        skip_space(s, i) < s.len() ==> !is_space(s[skip_space(s, i)]),
        forall|j: int| i <= j < skip_space(s, i) ==> is_space(#[trigger] s[j]),
    decreases s.len() - i,
{
    if i < s.len() && is_space(s[i]) {
        lemma_skip_space_bounds(s, i + 1);
    }
}

/// The first position from `from` on that holds no white space, or the end of `s`.
pub fn after_space(s: &[char], from: usize) -> (r: usize)
    requires
        from <= s@.len(),
    ensures
        r == skip_space(s@, from as int),
        from <= r <= s@.len(),
{
    let mut i: usize = from;
    while i < s.len() && is_white_space(s[i])
        invariant
            from <= i <= s@.len(),
            skip_space(s@, from as int) == skip_space(s@, i as int),
        decreases s@.len() - i,
    {
        i += 1;
    }
    i
}

/// The length of `s` without the white space at its end.
fn before_space(s: &[char]) -> (r: usize)
    ensures
        r == trimmed_len(s@, s@.len() as int),
        r <= s@.len(),
{
    let mut n: usize = s.len();
    while n > 0 && is_white_space(s[n - 1])
        invariant
            n <= s@.len(),
            trimmed_len(s@, s@.len() as int) == trimmed_len(s@, n as int),
        decreases n,
    {
        n -= 1;
    }
    n
}

/// `s` without the white space at either end.
pub fn trimmed(s: &str) -> (r: String)
    ensures
        r@ == trim(s@),
{
    let chars = chars_of(s);
    let from = after_space(chars.as_slice(), 0);
    let rest = slice_of(chars.as_slice(), from, chars.len());
    proof {
        assert(rest@ == trim_start(s@));
    }
    trimmed_end(rest.as_str())
}

/// `s` without the white space at its start.
pub fn trimmed_start(s: &str) -> (r: String)
    ensures
        r@ == trim_start(s@),
{
    let chars = chars_of(s);
    let from = after_space(chars.as_slice(), 0);
    slice_of(chars.as_slice(), from, chars.len())
}

/// `s` without the white space at its end.
pub fn trimmed_end(s: &str) -> (r: String)
    ensures
        r@ == trim_end(s@),
{
    let chars = chars_of(s);
    let end = before_space(chars.as_slice());
    slice_of(chars.as_slice(), 0, end)
}

// Splitting and joining ---------------------------------------------------

/// A line without the carriage return that a line feed may follow.
pub open spec fn drop_carriage_return(s: Seq<char>) -> Seq<char> {
    if s.len() > 0 && s.last() == '\r' {
        s.drop_last()
    } else {
        s
    }
}

/// The lines of `s`: what stands before each line feed, a carriage return just before
/// it left out, and what stands behind the last one unless that is empty.
pub open spec fn lines(s: Seq<char>) -> Seq<Seq<char>>
    decreases s.len(),
{
    if s.len() == 0 {
        seq![]
    } else {
        match find_char(s, '\n') {
            None => seq![s],
            Some(i) => if 0 <= i < s.len() {
                seq![drop_carriage_return(s.take(i))] + lines(s.skip(i + 1))
            } else {
                seq![]
            },
        }
    }
}

/// The stretches of `s` between the occurrences of `c`, one more than there are of these.
pub open spec fn split(s: Seq<char>, c: char) -> Seq<Seq<char>>
    decreases s.len(),
{
    match find_char(s, c) {
        None => seq![s],
        Some(i) => if 0 <= i < s.len() {
            seq![s.take(i)] + split(s.skip(i + 1), c)
        } else {
            seq![]
        },
    }
}

/// The end of the stretch without white space that begins at position `i`.
pub open spec fn word_end(s: Seq<char>, i: int) -> int
    decreases s.len() - i,
{
    if 0 <= i < s.len() && !is_space(s[i]) {
        word_end(s, i + 1)
    } else {
        i
    }
}

/// A word ends inside the text, and is not empty.
pub proof fn lemma_word_end_bounds(s: Seq<char>, i: int)
    requires
        0 <= i <= s.len(),
    ensures
        i <= word_end(s, i) <= s.len(),
        i < s.len() && !is_space(s[i]) ==> i < word_end(s, i),
    decreases s.len() - i,
{
    if i < s.len() && !is_space(s[i]) {
        lemma_word_end_bounds(s, i + 1);
    }
}

/// The words of `s` from position `i` on: its longest stretches without white space.
pub open spec fn words_from(s: Seq<char>, i: int) -> Seq<Seq<char>>
    decreases s.len() - i,
    when 0 <= i <= s.len()
{
    proof {
        lemma_skip_space_bounds(s, i);
        lemma_word_end_bounds(s, skip_space(s, i));
    }
    let b = skip_space(s, i);
    if b >= s.len() {
        seq![]
    } else {
        seq![s.subrange(b, word_end(s, b))] + words_from(s, word_end(s, b))
    }
}

/// The words of `s`.
pub open spec fn words(s: Seq<char>) -> Seq<Seq<char>> {
    words_from(s, 0)
}

/// The texts of `parts` one after the other, with `sep` between each two.
pub open spec fn join(parts: Seq<Seq<char>>, sep: Seq<char>) -> Seq<char>
    decreases parts.len(),
{
    if parts.len() == 0 {
        seq![]
    } else if parts.len() == 1 {
        parts[0]
    } else {
        join(parts.drop_last(), sep) + sep + parts.last()
    }
}

/// The views of the elements of a sequence.
pub open spec fn deep<T: DeepView>(s: Seq<T>) -> Seq<T::V> {
    Seq::new(s.len(), |i: int| s[i].deep_view())
}

/// The view of what a result holds.
pub open spec fn deep_result<T: DeepView, E: DeepView>(r: Result<T, E>) -> Result<T::V, E::V> {
    match r {
        Ok(t) => Ok(t.deep_view()),
        Err(e) => Err(e.deep_view()),
    }
}

/// The lines of `s`.
pub fn lines_of(s: &str) -> (r: Vec<String>)
    ensures
        deep(r@) == lines(s@),
{
    let mut rest = chars_of(s);
    let mut out: Vec<String> = Vec::new();
    while rest.len() > 0
        invariant
            deep(out@) + lines(rest@) == lines(s@),
        decreases rest@.len(),
    {
        let ghost before = out@;
        let ghost tail = rest@;
        match position_of(rest.as_slice(), '\n') {
            None => {
                out.push(string_of(rest.as_slice()));
                rest = Vec::new();
                assert(deep(out@) + lines(rest@) =~= deep(before) + lines(tail));
            },
            Some(i) => {
                let end: usize = if i > 0 && rest[i - 1] == '\r' {
                    i - 1
                } else {
                    i
                };
                let line = slice_of(rest.as_slice(), 0, end);
                assert(line@ =~= drop_carriage_return(tail.take(i as int)));
                out.push(line);
                rest = rest.split_off(i + 1);
                assert(rest@ =~= tail.skip(i + 1));
                assert(deep(out@) + lines(rest@) =~= deep(before) + lines(tail));
            },
        }
    }
    assert(deep(out@) + lines(rest@) =~= deep(out@));
    out
}

/// The stretches of `s` between the occurrences of `c`.
pub fn split_at_each(s: &str, c: char) -> (r: Vec<String>)
    ensures
        deep(r@) == split(s@, c),
{
    let mut rest = chars_of(s);
    let mut out: Vec<String> = Vec::new();
    loop
        invariant
            deep(out@) + split(rest@, c) == split(s@, c),
        decreases rest@.len(),
    {
        let ghost before = out@;
        let ghost tail = rest@;
        match position_of(rest.as_slice(), c) {
            None => {
                out.push(string_of(rest.as_slice()));
                assert(deep(out@) =~= deep(before) + split(tail, c));
                return out;
            },
            Some(i) => {
                out.push(slice_of(rest.as_slice(), 0, i));
                rest = rest.split_off(i + 1);
                assert(rest@ =~= tail.skip(i + 1));
                assert(deep(out@) + split(rest@, c) =~= deep(before) + split(tail, c));
            },
        }
    }
}

/// The words of `s`.
pub fn words_of(s: &str) -> (r: Vec<String>)
    ensures
        deep(r@) == words(s@),
{
    let chars = chars_of(s);
    let mut out: Vec<String> = Vec::new();
    let mut i: usize = after_space(chars.as_slice(), 0);
    proof {
        lemma_skip_space_idem(s@, 0);
    }
    while i < chars.len()
        invariant
            chars@ == s@,
            i <= chars@.len(),
            i == skip_space(s@, i as int),
            deep(out@) + words_from(s@, i as int) == words(s@),
        decreases chars@.len() - i,
    {
        let mut end: usize = i;
        while end < chars.len() && !is_white_space(chars[end])
            invariant
                chars@ == s@,
                i <= end <= chars@.len(),
                word_end(s@, i as int) == word_end(s@, end as int),
            decreases chars@.len() - end,
        {
            end += 1;
        }
        let ghost before = out@;
        out.push(slice_of(chars.as_slice(), i, end));
        let next = after_space(chars.as_slice(), end);
        proof {
            lemma_skip_space_idem(s@, end as int);
            lemma_word_end_bounds(s@, i as int);
            assert(deep(out@) + words_from(s@, end as int) =~= deep(before) + words_from(
                s@,
                i as int,
            ));
        }
        i = next;
    }
    assert(deep(out@) + words_from(s@, i as int) =~= deep(out@));
    out
}

/// Words start behind white space: skipping it does not change them.
proof fn lemma_skip_space_idem(s: Seq<char>, i: int)
    requires
        0 <= i <= s.len(),
    ensures
        skip_space(s, skip_space(s, i)) == skip_space(s, i),
        words_from(s, skip_space(s, i)) == words_from(s, i),
{
    lemma_skip_space_bounds(s, i);
}

/// The texts of `parts` one after the other, with `sep` between each two.
pub fn joined(parts: &Vec<String>, sep: &str) -> (r: String)
    ensures
        r@ == join(deep(parts@), sep@),
{
    let ghost all = deep(parts@);
    let mut out = String::new();
    let mut i: usize = 0;
    while i < parts.len()
        invariant
            i <= parts@.len(),
            all == deep(parts@),
            out@ == join(all.take(i as int), sep@),
        decreases parts@.len() - i,
    {
        if i > 0 {
            out.append(sep);
        }
        out.append(parts[i].as_str());
        assert(all.take(i + 1).drop_last() =~= all.take(i as int));
        assert(all.take(i + 1).last() == parts@[i as int]@);
        i += 1;
    }
    assert(all.take(i as int) =~= all);
    out
}

/// The texts of `v` from position `from` to before position `to`.
pub fn slice_texts(v: &Vec<String>, from: usize, to: usize) -> (r: Vec<String>)
    requires
        from <= to <= v@.len(),
    ensures
        deep(r@) == deep(v@).subrange(from as int, to as int),
{
    let mut out: Vec<String> = Vec::new();
    let mut i: usize = from;
    while i < to
        invariant
            from <= i <= to <= v@.len(),
            deep(out@) == deep(v@).subrange(from as int, i as int),
        decreases to - i,
    {
        let ghost before = out@;
        out.push(v[i].clone());
        assert(deep(out@) =~= deep(before).push(v@[i as int]@));
        i += 1;
    }
    out
}

/// A copy of `v`.
pub fn clone_texts(v: &Vec<String>) -> (r: Vec<String>)
    ensures
        deep(r@) == deep(v@),
{
    slice_texts(v, 0, v.len())
}

/// A copy of `v`.
pub fn clone_pairs(v: &Vec<(String, String)>) -> (r: Vec<(String, String)>)
    ensures
        deep(r@) == deep(v@),
{
    let mut out: Vec<(String, String)> = Vec::new();
    let mut i: usize = 0;
    while i < v.len()
        invariant
            i <= v@.len(),
            deep(out@) == deep(v@).take(i as int),
        decreases v@.len() - i,
    {
        let ghost before = out@;
        out.push((v[i].0.clone(), v[i].1.clone()));
        assert(deep(out@) =~= deep(before).push(v@[i as int].deep_view()));
        i += 1;
    }
    out
}

/// A copy of `v`.
pub fn clone_option(v: &Option<String>) -> (r: Option<String>)
    ensures
        r.deep_view() == v.deep_view(),
{
    match v {
        Some(s) => Some(s.clone()),
        None => None,
    }
}

/// Whether one of the texts of `v` is `s`.
pub fn contains_text(v: &Vec<String>, s: &str) -> (r: bool)
    ensures
        r == deep(v@).contains(s@),
{
    let mut i: usize = 0;
    while i < v.len()
        invariant
            i <= v@.len(),
            forall|j: int| 0 <= j < i ==> #[trigger] deep(v@)[j] != s@,
        decreases v@.len() - i,
    {
        if same(v[i].as_str(), s) {
            assert(deep(v@)[i as int] == s@);
            return true;
        }
        assert(deep(v@)[i as int] != s@);
        i += 1;
    }
    false
}

// Splitting once ----------------------------------------------------------

/// What stands in `s` before and behind the first `c`.
pub open spec fn split_first(s: Seq<char>, c: char) -> Option<(Seq<char>, Seq<char>)> {
    match find_char(s, c) {
        Some(i) => Some((s.take(i), s.skip(i + 1))),
        None => None,
    }
}

/// A position of `s` that holds white space.
pub open spec fn space_at(s: Seq<char>) -> spec_fn(int) -> bool {
    |i: int| is_space(s[i])
}

/// What stands in `s` before and behind the first white space character.
pub open spec fn split_space(s: Seq<char>) -> Option<(Seq<char>, Seq<char>)> {
    match first_from(space_at(s), 0, s.len() as int) {
        Some(i) => Some((s.take(i), s.skip(i + 1))),
        None => None,
    }
}

/// The last position of `c` before position `n` of `s`.
pub open spec fn find_last(s: Seq<char>, c: char, n: int) -> Option<int>
    decreases n,
{
    if n <= 0 {
        None
    } else if s[n - 1] == c {
        Some(n - 1)
    } else {
        find_last(s, c, n - 1)
    }
}

/// What stands in `s` before and behind the last `c`.
pub open spec fn split_last(s: Seq<char>, c: char) -> Option<(Seq<char>, Seq<char>)> {
    match find_last(s, c, s.len() as int) {
        Some(i) => Some((s.take(i), s.skip(i + 1))),
        None => None,
    }
}

/// What stands in `s` before and behind the first `c`.
pub fn split_at_first(s: &str, c: char) -> (r: Option<(String, String)>)
    ensures
        r.deep_view() == split_first(s@, c),
{
    let chars = chars_of(s);
    match position_of(chars.as_slice(), c) {
        Some(i) => {
            let head = slice_of(chars.as_slice(), 0, i);
            let tail = slice_of(chars.as_slice(), i + 1, chars.len());
            assert(head@ == s@.take(i as int));
            assert(tail@ == s@.skip(i + 1));
            Some((head, tail))
        },
        None => None,
    }
}

/// What stands in `s` before and behind the first white space character.
pub fn split_at_space(s: &str) -> (r: Option<(String, String)>)
    ensures
        r.deep_view() == split_space(s@),
{
    let chars = chars_of(s);
    let ghost p = space_at(s@);
    let ghost n = s@.len() as int;
    let mut i: usize = 0;
    while i < chars.len()
        invariant
            chars@ == s@,
            p == space_at(s@),
            n == s@.len(),
            i <= n,
            first_from(p, 0, n) == first_from(p, i as int, n),
        decreases n - i,
    {
        if is_white_space(chars[i]) {
            assert(p(i as int));
            let head = slice_of(chars.as_slice(), 0, i);
            let tail = slice_of(chars.as_slice(), i + 1, chars.len());
            assert(head@ == s@.take(i as int));
            assert(tail@ == s@.skip(i + 1));
            return Some((head, tail));
        }
        i += 1;
    }
    None
}

/// What stands in `s` before and behind the last `c`.
pub fn split_at_last(s: &str, c: char) -> (r: Option<(String, String)>)
    ensures
        r.deep_view() == split_last(s@, c),
{
    let chars = chars_of(s);
    let mut n: usize = chars.len();
    while n > 0
        invariant
            n <= chars@.len(),
            chars@ == s@,
            find_last(s@, c, n as int) == find_last(s@, c, s@.len() as int),
        decreases n,
    {
        if chars[n - 1] == c {
            let head = slice_of(chars.as_slice(), 0, n - 1);
            let tail = slice_of(chars.as_slice(), n, chars.len());
            assert(head@ == s@.take(n - 1));
            assert(tail@ == s@.skip(n as int));
            return Some((head, tail));
        }
        n -= 1;
    }
    None
}

// Numbers -----------------------------------------------------------------

/// The character of a digit, in base 16 or below.
pub open spec fn digit_char(d: int) -> char {
    if d <= 0 {
        '0'
    } else if d == 1 {
        '1'
    } else if d == 2 {
        '2'
    } else if d == 3 {
        '3'
    } else if d == 4 {
        '4'
    } else if d == 5 {
        '5'
    } else if d == 6 {
        '6'
    } else if d == 7 {
        '7'
    } else if d == 8 {
        '8'
    } else if d == 9 {
        '9'
    } else if d == 10 {
        'a'
    } else if d == 11 {
        'b'
    } else if d == 12 {
        'c'
    } else if d == 13 {
        'd'
    } else if d == 14 {
        'e'
    } else {
        'f'
    }
}

/// The character of a digit, in base 16 or below.
pub fn digit(d: usize) -> (r: char)
    ensures
        r == digit_char(d as int),
{
    if d == 0 {
        '0'
    } else if d == 1 {
        '1'
    } else if d == 2 {
        '2'
    } else if d == 3 {
        '3'
    } else if d == 4 {
        '4'
    } else if d == 5 {
        '5'
    } else if d == 6 {
        '6'
    } else if d == 7 {
        '7'
    } else if d == 8 {
        '8'
    } else if d == 9 {
        '9'
    } else if d == 10 {
        'a'
    } else if d == 11 {
        'b'
    } else if d == 12 {
        'c'
    } else if d == 13 {
        'd'
    } else if d == 14 {
        'e'
    } else {
        'f'
    }
}

/// `n` in decimal.
pub open spec fn decimal(n: nat) -> Seq<char>
    decreases n,
{
    if n < 10 {
        seq![digit_char(n as int)]
    } else {
        decimal(n / 10).push(digit_char((n % 10) as int))
    }
}

/// `n` in decimal.
pub fn decimal_of(n: usize) -> (r: String)
    ensures
        r@ == decimal(n as nat),
    decreases n,
{
    if n < 10 {
        let mut out = String::new();
        out.push(digit(n));
        assert(out@ =~= decimal(n as nat));
        out
    } else {
        let mut out = decimal_of(n / 10);
        out.push(digit(n % 10));
        out
    }
}

/// A text of `n` spaces.
pub open spec fn spaces(n: int) -> Seq<char> {
    Seq::new(
        if n < 0 {
            0
        } else {
            n as nat
        },
        |i: int| ' ',
    )
}

/// A text of `n` spaces.
pub fn spaces_of(n: usize) -> (r: String)
    ensures
        r@ == spaces(n as int),
{
    let mut out = String::new();
    let mut i: usize = 0;
    while i < n
        invariant
            i <= n,
            out@ == spaces(i as int),
        decreases n - i,
    {
        out.push(' ');
        i += 1;
        assert(out@ =~= spaces(i as int));
    }
    out
}

} // verus!
