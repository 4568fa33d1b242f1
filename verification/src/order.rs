//! Ordering of texts, and stable sorting.
use vstd::prelude::*;

use crate::text::{chars_of, code_point, deep};

verus! {

/// `a` comes strictly before `b`: at the first position where they differ it has
/// the smaller code point, or it ends there.
pub open spec fn text_less(a: Seq<char>, b: Seq<char>) -> bool
    decreases b.len(),
{
    if b.len() == 0 {
        false
    } else if a.len() == 0 {
        true
    } else if a[0] != b[0] {
        (a[0] as int) < (b[0] as int)
    } else {
        text_less(a.drop_first(), b.drop_first())
    }
}

/// `a` comes before `b` or is the same text.
pub open spec fn text_at_most(a: Seq<char>, b: Seq<char>) -> bool {
    !text_less(b, a)
}

/// Two different texts come one strictly before the other.
pub proof fn lemma_text_less_total(a: Seq<char>, b: Seq<char>)
    ensures
        text_less(a, b) || text_less(b, a) || a == b,
        !(text_less(a, b) && text_less(b, a)),
        !text_less(a, a),
    decreases a.len(),
{
    if a.len() > 0 {
        lemma_text_less_total(a.drop_first(), a.drop_first());
    }
    if a.len() > 0 && b.len() > 0 {
        lemma_text_less_total(a.drop_first(), b.drop_first());
        if a[0] == b[0] && a.drop_first() == b.drop_first() {
            assert(a =~= seq![a[0]] + a.drop_first());
            assert(b =~= seq![b[0]] + b.drop_first());
        }
    } else if a.len() == 0 && b.len() == 0 {
        assert(a =~= b);
    }
}

/// The strict order of texts is transitive.
pub proof fn lemma_text_less_transitive(a: Seq<char>, b: Seq<char>, c: Seq<char>)
    requires
        text_less(a, b),
        text_less(b, c),
    ensures
        text_less(a, c),
    decreases c.len(),
{
    if a.len() > 0 {
        if a[0] == b[0] && b[0] == c[0] {
            lemma_text_less_transitive(a.drop_first(), b.drop_first(), c.drop_first());
        }
    }
}

/// The order of texts is transitive.
pub proof fn lemma_text_at_most_transitive(a: Seq<char>, b: Seq<char>, c: Seq<char>)
    requires
        text_at_most(a, b),
        text_at_most(b, c),
    ensures
        text_at_most(a, c),
{
    lemma_text_less_total(a, b);
    lemma_text_less_total(b, c);
    lemma_text_less_total(a, c);
    if text_less(a, b) && text_less(b, c) {
        lemma_text_less_transitive(a, b, c);
    }
}

/// Whether `a` comes strictly before `b`.
pub fn is_text_less(a: &str, b: &str) -> (r: bool)
    ensures
        r == text_less(a@, b@),
{
    let x = chars_of(a);
    let y = chars_of(b);
    let mut i: usize = 0;
    assert(a@.skip(0) =~= a@);
    assert(b@.skip(0) =~= b@);
    while i < x.len() && i < y.len()
        invariant
            x@ == a@,
            y@ == b@,
            i <= x@.len(),
            i <= y@.len(),
            text_less(a@, b@) == text_less(a@.skip(i as int), b@.skip(i as int)),
        decreases x@.len() - i,
    {
        let p: char = x[i];
        let q: char = y[i];
        if p != q {
            return code_point(p) < code_point(q);
        }
        assert(a@.skip(i as int).drop_first() =~= a@.skip(i + 1));
        assert(b@.skip(i as int).drop_first() =~= b@.skip(i + 1));
        i += 1;
    }
    i < y.len()
}

/// Values that can be sorted by a key that their views hold.
pub trait Ranked: DeepView + Sized {
    /// `a` may stand before `b` in sorted order.
    spec fn ranks_at_most(a: Self::V, b: Self::V) -> bool;

    /// Whether `self` may stand before `other` in sorted order.
    fn at_most(&self, other: &Self) -> (r: bool)
        ensures
            r == Self::ranks_at_most(self.deep_view(), other.deep_view()),
    ;

    /// Of two values one may stand before the other.
    proof fn rank_is_total(a: Self::V, b: Self::V)
        ensures
            Self::ranks_at_most(a, b) || Self::ranks_at_most(b, a),
    ;

    /// The order is transitive.
    proof fn rank_is_transitive(a: Self::V, b: Self::V, c: Self::V)
        requires
            Self::ranks_at_most(a, b),
            Self::ranks_at_most(b, c),
        ensures
            Self::ranks_at_most(a, c),
    ;
}

impl Ranked for String {
    open spec fn ranks_at_most(a: Seq<char>, b: Seq<char>) -> bool {
        text_at_most(a, b)
    }

    fn at_most(&self, other: &Self) -> (r: bool) {
        !is_text_less(other.as_str(), self.as_str())
    }

    proof fn rank_is_total(a: Seq<char>, b: Seq<char>) {
        lemma_text_less_total(a, b);
    }

    proof fn rank_is_transitive(a: Seq<char>, b: Seq<char>, c: Seq<char>) {
        lemma_text_at_most_transitive(a, b, c);
    }
}

/// `s` with `x` put in before the first value that may follow it.
pub open spec fn insert_ranked<T: Ranked>(x: T::V, s: Seq<T::V>) -> Seq<T::V>
    decreases s.len(),
{
    if s.len() == 0 || T::ranks_at_most(x, s[0]) {
        seq![x] + s
    } else {
        seq![s[0]] + insert_ranked::<T>(x, s.drop_first())
    }
}

/// The values of `s` in ascending order, those of equal rank in the order they have in `s`.
pub open spec fn ranked<T: Ranked>(s: Seq<T::V>) -> Seq<T::V>
    decreases s.len(),
{
    if s.len() == 0 {
        s
    } else {
        insert_ranked::<T>(s[0], ranked::<T>(s.drop_first()))
    }
}

/// A value is put in before the first that may follow it.
proof fn lemma_insert_position<T: Ranked>(x: T::V, s: Seq<T::V>, i: int)
    requires
        0 <= i <= s.len(),
        forall|j: int| 0 <= j < i ==> !T::ranks_at_most(x, #[trigger] s[j]),
        i < s.len() ==> T::ranks_at_most(x, s[i]),
    ensures
        insert_ranked::<T>(x, s) == s.insert(i, x),
    decreases s.len(),
{
    if i == 0 {
        assert(seq![x] + s =~= s.insert(0, x));
    } else {
        assert(!T::ranks_at_most(x, s[0]));
        lemma_insert_position::<T>(x, s.drop_first(), i - 1);
        assert(seq![s[0]] + s.drop_first().insert(i - 1, x) =~= s.insert(i, x));
    }
}

/// Sorts `items`, keeping the order of those of equal rank.
pub fn sort<T: Ranked>(items: Vec<T>) -> (r: Vec<T>)
    ensures
        deep(r@) == ranked::<T>(deep(items@)),
{
    let ghost all = deep(items@);
    let mut left = items;
    let mut out: Vec<T> = Vec::new();
    assert(all.skip(all.len() as int) =~= Seq::empty());
    while left.len() > 0
        invariant
            left@.len() <= all.len(),
            deep(left@) == all.take(left@.len() as int),
            deep(out@) == ranked::<T>(all.skip(left@.len() as int)),
        decreases left@.len(),
    {
        let ghost held = deep(left@);
        let x = left.pop().unwrap();
        assert(held[left@.len() as int] == x.deep_view());
        assert(deep(left@) =~= held.drop_last());
        let mut i: usize = 0;
        while i < out.len() && !x.at_most(&out[i])
            invariant
                i <= out@.len(),
                forall|j: int|
                    0 <= j < i ==> !T::ranks_at_most(x.deep_view(), #[trigger] deep(out@)[j]),
            decreases out@.len() - i,
        {
            i += 1;
        }
        let ghost before = out@;
        let ghost n = left@.len() as int;
        proof {
            lemma_insert_position::<T>(x.deep_view(), deep(out@), i as int);
        }
        out.insert(i, x);
        proof {
            assert(all.skip(n)[0] == x.deep_view());
            assert(all.skip(n).drop_first() =~= all.skip(n + 1));
            assert(deep(out@) =~= deep(before).insert(i as int, x.deep_view()));
        }
    }
    assert(all.skip(0) =~= all);
    out
}

/// Sorting only reorders.
pub proof fn lemma_ranked_permutes<T: Ranked>(s: Seq<T::V>)
    ensures
        ranked::<T>(s).to_multiset() == s.to_multiset(),
        ranked::<T>(s).len() == s.len(),
    decreases s.len(),
{
    broadcast use vstd::seq_lib::group_to_multiset_ensures;

    if s.len() > 0 {
        let t = ranked::<T>(s.drop_first());
        lemma_ranked_permutes::<T>(s.drop_first());
        lemma_insert_permutes::<T>(s[0], t);
        assert(s =~= seq![s[0]] + s.drop_first());
        vstd::seq_lib::lemma_multiset_commutative(seq![s[0]], s.drop_first());
        vstd::seq_lib::lemma_multiset_commutative(seq![s[0]], t);
    }
}

/// Putting a value in adds it and nothing else.
proof fn lemma_insert_permutes<T: Ranked>(x: T::V, s: Seq<T::V>)
    ensures
        insert_ranked::<T>(x, s).to_multiset() == (seq![x] + s).to_multiset(),
        insert_ranked::<T>(x, s).len() == s.len() + 1,
    decreases s.len(),
{
    if s.len() > 0 && !T::ranks_at_most(x, s[0]) {
        let rest = s.drop_first();
        lemma_insert_permutes::<T>(x, rest);
        let inner = insert_ranked::<T>(x, rest);
        vstd::seq_lib::lemma_multiset_commutative(seq![s[0]], inner);
        vstd::seq_lib::lemma_multiset_commutative(seq![x], rest);
        vstd::seq_lib::lemma_multiset_commutative(seq![s[0]], rest);
        vstd::seq_lib::lemma_multiset_commutative(seq![x], s);
        assert(s =~= seq![s[0]] + rest);
        assert(insert_ranked::<T>(x, s).to_multiset() =~= (seq![x] + s).to_multiset());
    }
}

/// What sorting returns is in ascending order.
pub proof fn lemma_ranked_ascends<T: Ranked>(s: Seq<T::V>)
    ensures
        forall|i: int, j: int|
            0 <= i < j < ranked::<T>(s).len() ==> T::ranks_at_most(
                #[trigger] ranked::<T>(s)[i],
                #[trigger] ranked::<T>(s)[j],
            ),
    decreases s.len(),
{
    if s.len() > 0 {
        lemma_ranked_ascends::<T>(s.drop_first());
        lemma_insert_ascends::<T>(s[0], ranked::<T>(s.drop_first()));
    }
}

/// Putting a value in keeps ascending order.
proof fn lemma_insert_ascends<T: Ranked>(x: T::V, s: Seq<T::V>)
    requires
        forall|i: int, j: int|
            0 <= i < j < s.len() ==> T::ranks_at_most(#[trigger] s[i], #[trigger] s[j]),
    ensures
        forall|i: int, j: int|
            0 <= i < j < insert_ranked::<T>(x, s).len() ==> T::ranks_at_most(
                #[trigger] insert_ranked::<T>(x, s)[i],
                #[trigger] insert_ranked::<T>(x, s)[j],
            ),
        forall|y: T::V|
            T::ranks_at_most(y, x) && (forall|i: int|
                0 <= i < s.len() ==> T::ranks_at_most(y, #[trigger] s[i])) ==> forall|i: int|
                0 <= i < insert_ranked::<T>(x, s).len() ==> #[trigger] T::ranks_at_most(
                    y,
                    insert_ranked::<T>(x, s)[i],
                ),
    decreases s.len(),
{
    let r = insert_ranked::<T>(x, s);
    if s.len() == 0 {
    } else if T::ranks_at_most(x, s[0]) {
        assert forall|i: int, j: int| 0 <= i < j < r.len() implies T::ranks_at_most(
            #[trigger] r[i],
            #[trigger] r[j],
        ) by {
            if i == 0 && j > 1 {
                assert(r[j] == s[j - 1]);
                assert(T::ranks_at_most(s[0], s[j - 1]));
                T::rank_is_transitive(x, s[0], s[j - 1]);
            } else if i > 0 {
                assert(r[i] == s[i - 1] && r[j] == s[j - 1]);
            }
        }
    } else {
        let rest = s.drop_first();
        T::rank_is_total(x, s[0]);
        assert forall|i: int, j: int| 0 <= i < j < rest.len() implies T::ranks_at_most(
            #[trigger] rest[i],
            #[trigger] rest[j],
        ) by {
            assert(rest[i] == s[i + 1] && rest[j] == s[j + 1]);
        }
        lemma_insert_ascends::<T>(x, rest);
        assert forall|i: int| 0 <= i < rest.len() implies T::ranks_at_most(
            s[0],
            #[trigger] rest[i],
        ) by {
            assert(rest[i] == s[i + 1]);
        }
        let inner = insert_ranked::<T>(x, rest);
        assert forall|i: int, j: int| 0 <= i < j < r.len() implies T::ranks_at_most(
            #[trigger] r[i],
            #[trigger] r[j],
        ) by {
            assert(r[j] == inner[j - 1]);
            if i > 0 {
                assert(r[i] == inner[i - 1]);
            }
        }
        assert forall|y: T::V|
            T::ranks_at_most(y, x) && (forall|i: int|
                0 <= i < s.len() ==> T::ranks_at_most(y, #[trigger] s[i])) implies forall|i: int|
            0 <= i < r.len() ==> #[trigger] T::ranks_at_most(y, r[i]) by {
            assert forall|i: int| 0 <= i < rest.len() implies T::ranks_at_most(
                y,
                #[trigger] rest[i],
            ) by {
                assert(rest[i] == s[i + 1]);
            }
            assert forall|i: int| 0 <= i < r.len() implies #[trigger] T::ranks_at_most(y, r[i]) by {
                if i == 0 {
                    assert(r[0] == s[0]);
                } else {
                    assert(r[i] == inner[i - 1]);
                    assert(T::ranks_at_most(y, inner[i - 1]));
                }
            }
        }
    }
}

/// `a` and `b` have the same rank.
pub open spec fn same_rank<T: Ranked>(a: T::V, b: T::V) -> bool {
    T::ranks_at_most(a, b) && T::ranks_at_most(b, a)
}

/// The values of `s` that have the rank of `v`, in order.
pub open spec fn ties<T: Ranked>(s: Seq<T::V>, v: T::V) -> Seq<T::V>
    decreases s.len(),
{
    if s.len() == 0 {
        s
    } else if same_rank::<T>(s[0], v) {
        seq![s[0]] + ties::<T>(s.drop_first(), v)
    } else {
        ties::<T>(s.drop_first(), v)
    }
}

/// Sorting is stable: values of the same rank keep their order.
pub proof fn lemma_ranked_is_stable<T: Ranked>(s: Seq<T::V>, v: T::V)
    ensures
        ties::<T>(ranked::<T>(s), v) == ties::<T>(s, v),
    decreases s.len(),
{
    if s.len() > 0 {
        lemma_ranked_is_stable::<T>(s.drop_first(), v);
        lemma_insert_ties::<T>(s[0], ranked::<T>(s.drop_first()), v);
    }
}

/// Putting a value in puts it before those of its rank.
proof fn lemma_insert_ties<T: Ranked>(x: T::V, s: Seq<T::V>, v: T::V)
    ensures
        ties::<T>(insert_ranked::<T>(x, s), v) == (if same_rank::<T>(x, v) {
            seq![x] + ties::<T>(s, v)
        } else {
            ties::<T>(s, v)
        }),
    decreases s.len(),
{
    let r = insert_ranked::<T>(x, s);
    if s.len() == 0 || T::ranks_at_most(x, s[0]) {
        assert(r[0] == x);
        assert(r.drop_first() =~= s);
    } else {
        lemma_insert_ties::<T>(x, s.drop_first(), v);
        assert(r[0] == s[0]);
        assert(r.drop_first() =~= insert_ranked::<T>(x, s.drop_first()));
        if same_rank::<T>(x, v) && same_rank::<T>(s[0], v) {
            T::rank_is_transitive(x, v, s[0]);
        }
    }
}

/// No two values of `s` have the same rank.
pub open spec fn ranks_differ<T: Ranked>(s: Seq<T::V>) -> bool {
    forall|i: int, j: int|
        0 <= i < j < s.len() ==> !same_rank::<T>(#[trigger] s[i], #[trigger] s[j])
}

/// Where no two values have the same rank, the order in which they are given does not
/// matter to the sorted order.
pub proof fn lemma_ranked_is_unique<T: Ranked>(s: Seq<T::V>, t: Seq<T::V>)
    requires
        s.to_multiset() == t.to_multiset(),
        ranks_differ::<T>(s),
    ensures
        ranked::<T>(s) == ranked::<T>(t),
    decreases s.len(),
{
    broadcast use vstd::seq_lib::group_to_multiset_ensures;

    assert(s.len() == s.to_multiset().len());
    assert(t.len() == t.to_multiset().len());
    if s.len() == 0 {
        assert(s =~= t);
    } else {
        let x = s[0];
        let rest = s.drop_first();
        assert(s.contains(x));
        assert(t.to_multiset().contains(x));
        assert(t.contains(x));
        let i = choose|i: int| 0 <= i < t.len() && t[i] == x;
        let other = t.remove(i);
        assert(s.remove(0) =~= rest);
        assert(rest.to_multiset() =~= other.to_multiset());
        assert forall|a: int, b: int| 0 <= a < b < rest.len() implies !same_rank::<T>(
            #[trigger] rest[a],
            #[trigger] rest[b],
        ) by {
            assert(rest[a] == s[a + 1] && rest[b] == s[b + 1]);
        }
        lemma_ranked_is_unique::<T>(rest, other);
        assert forall|k: int| 0 <= k < other.len() implies !same_rank::<T>(
            x,
            #[trigger] other[k],
        ) by {
            assert(other.contains(other[k]));
            assert(other.to_multiset().contains(other[k]));
            assert(rest.to_multiset().contains(other[k]));
            assert(rest.contains(other[k]));
            let m = choose|m: int| 0 <= m < rest.len() && rest[m] == other[k];
            assert(rest[m] == s[m + 1]);
        }
        lemma_ranked_of_removed::<T>(t, i);
    }
}

/// Sorting may insert a value of a rank of its own last.
proof fn lemma_ranked_of_removed<T: Ranked>(t: Seq<T::V>, i: int)
    requires
        0 <= i < t.len(),
        forall|k: int| 0 <= k < t.len() - 1 ==> !same_rank::<T>(t[i], #[trigger] t.remove(i)[k]),
    ensures
        ranked::<T>(t) == insert_ranked::<T>(t[i], ranked::<T>(t.remove(i))),
    decreases t.len(),
{
    if i == 0 {
        assert(t.remove(0) =~= t.drop_first());
    } else {
        let rest = t.drop_first();
        assert forall|k: int| 0 <= k < rest.len() - 1 implies !same_rank::<T>(
            rest[i - 1],
            #[trigger] rest.remove(i - 1)[k],
        ) by {
            assert(rest.remove(i - 1)[k] == t.remove(i)[k + 1]);
        }
        lemma_ranked_of_removed::<T>(rest, i - 1);
        assert(t.remove(i)[0] == t[0]);
        assert(t.remove(i).drop_first() =~= rest.remove(i - 1));
        lemma_insert_commutes::<T>(t[0], t[i], ranked::<T>(rest.remove(i - 1)));
    }
}

/// Values of different rank can be inserted in either order.
proof fn lemma_insert_commutes<T: Ranked>(x: T::V, y: T::V, s: Seq<T::V>)
    requires
        !same_rank::<T>(x, y),
    ensures
        insert_ranked::<T>(x, insert_ranked::<T>(y, s)) == insert_ranked::<T>(
            y,
            insert_ranked::<T>(x, s),
        ),
    decreases s.len(),
{
    T::rank_is_total(x, y);
    let a = insert_ranked::<T>(x, s);
    let b = insert_ranked::<T>(y, s);
    if s.len() == 0 {
        assert(a.drop_first() =~= s);
        assert(b.drop_first() =~= s);
    } else {
        let z = s[0];
        T::rank_is_total(x, z);
        T::rank_is_total(y, z);
        if T::ranks_at_most(x, z) && T::ranks_at_most(y, z) {
            assert(a.drop_first() =~= s);
            assert(b.drop_first() =~= s);
        } else if T::ranks_at_most(x, z) {
            T::rank_is_transitive(x, z, y);
            assert(a.drop_first() =~= s);
            assert(b[0] == z);
        } else if T::ranks_at_most(y, z) {
            T::rank_is_transitive(y, z, x);
            assert(b.drop_first() =~= s);
            assert(a[0] == z);
        } else {
            lemma_insert_commutes::<T>(x, y, s.drop_first());
            assert(a[0] == z && b[0] == z);
            assert(a.drop_first() =~= insert_ranked::<T>(x, s.drop_first()));
            assert(b.drop_first() =~= insert_ranked::<T>(y, s.drop_first()));
        }
    }
}

/// Of any two values of `s`, the earlier is related to the later by `rel`.
pub open spec fn pairwise<V>(s: Seq<V>, rel: spec_fn(V, V) -> bool) -> bool {
    forall|i: int, j: int| 0 <= i < j < s.len() ==> rel(#[trigger] s[i], #[trigger] s[j])
}

/// `x` is related by `rel` to every value of `s`.
pub open spec fn relates_to_all<V>(x: V, s: Seq<V>, rel: spec_fn(V, V) -> bool) -> bool {
    forall|i: int| 0 <= i < s.len() ==> rel(x, #[trigger] s[i])
}

/// What holds of all pairs holds of those with the first value and of the others.
proof fn lemma_pairwise_split<V>(s: Seq<V>, rel: spec_fn(V, V) -> bool)
    requires
        s.len() > 0,
    ensures
        pairwise(s, rel) <==> (relates_to_all(s[0], s.drop_first(), rel) && pairwise(
            s.drop_first(),
            rel,
        )),
        forall|x: V|
            relates_to_all(x, s, rel) <==> (rel(x, s[0]) && #[trigger] relates_to_all(
                x,
                s.drop_first(),
                rel,
            )),
{
    let rest = s.drop_first();
    if pairwise(s, rel) {
        assert forall|i: int, j: int| 0 <= i < j < rest.len() implies rel(
            #[trigger] rest[i],
            #[trigger] rest[j],
        ) by {
            assert(rest[i] == s[i + 1] && rest[j] == s[j + 1]);
        }
        assert forall|i: int| 0 <= i < rest.len() implies rel(s[0], #[trigger] rest[i]) by {
            assert(rest[i] == s[i + 1]);
        }
    }
    if relates_to_all(s[0], rest, rel) && pairwise(rest, rel) {
        assert forall|i: int, j: int| 0 <= i < j < s.len() implies rel(
            #[trigger] s[i],
            #[trigger] s[j],
        ) by {
            assert(s[j] == rest[j - 1]);
            if i > 0 {
                assert(s[i] == rest[i - 1]);
            }
        }
    }
    assert forall|x: V|
        relates_to_all(x, s, rel) <==> (rel(x, s[0]) && #[trigger] relates_to_all(x, rest, rel)) by {
        if relates_to_all(x, s, rel) {
            assert forall|i: int| 0 <= i < rest.len() implies rel(x, #[trigger] rest[i]) by {
                assert(rest[i] == s[i + 1]);
            }
        }
        if rel(x, s[0]) && relates_to_all(x, rest, rel) {
            assert forall|i: int| 0 <= i < s.len() implies rel(x, #[trigger] s[i]) by {
                if i > 0 {
                    assert(s[i] == rest[i - 1]);
                }
            }
        }
    }
}

/// Sorting keeps a symmetric relation between all values.
pub proof fn lemma_ranked_pairwise<T: Ranked>(s: Seq<T::V>, rel: spec_fn(T::V, T::V) -> bool)
    requires
        pairwise(s, rel),
        forall|a: T::V, b: T::V| #[trigger] rel(a, b) ==> rel(b, a),
    ensures
        pairwise(ranked::<T>(s), rel),
    decreases s.len(),
{
    if s.len() > 0 {
        lemma_pairwise_split(s, rel);
        lemma_ranked_pairwise::<T>(s.drop_first(), rel);
        lemma_ranked_relates::<T>(s[0], s.drop_first(), rel);
        lemma_insert_pairwise::<T>(s[0], ranked::<T>(s.drop_first()), rel);
    }
}

/// What relates to all values relates to all of them sorted.
proof fn lemma_ranked_relates<T: Ranked>(
    x: T::V,
    s: Seq<T::V>,
    rel: spec_fn(T::V, T::V) -> bool,
)
    requires
        relates_to_all(x, s, rel),
    ensures
        relates_to_all(x, ranked::<T>(s), rel),
    decreases s.len(),
{
    if s.len() > 0 {
        lemma_pairwise_split(s, rel);
        lemma_ranked_relates::<T>(x, s.drop_first(), rel);
        lemma_insert_relates::<T>(x, s[0], ranked::<T>(s.drop_first()), rel);
    }
}

/// What relates to a value and to all others relates to all of them once it is put in.
proof fn lemma_insert_relates<T: Ranked>(
    x: T::V,
    y: T::V,
    s: Seq<T::V>,
    rel: spec_fn(T::V, T::V) -> bool,
)
    requires
        rel(x, y),
        relates_to_all(x, s, rel),
    ensures
        relates_to_all(x, insert_ranked::<T>(y, s), rel),
    decreases s.len(),
{
    let r = insert_ranked::<T>(y, s);
    if s.len() == 0 || T::ranks_at_most(y, s[0]) {
        assert(r.drop_first() =~= s);
    } else {
        lemma_pairwise_split(s, rel);
        lemma_insert_relates::<T>(x, y, s.drop_first(), rel);
        assert(r.drop_first() =~= insert_ranked::<T>(y, s.drop_first()));
    }
    lemma_pairwise_split(r, rel);
}

/// Putting in a value that relates to all others keeps what holds of all pairs.
proof fn lemma_insert_pairwise<T: Ranked>(
    x: T::V,
    s: Seq<T::V>,
    rel: spec_fn(T::V, T::V) -> bool,
)
    requires
        pairwise(s, rel),
        forall|a: T::V, b: T::V| #[trigger] rel(a, b) ==> rel(b, a),
        relates_to_all(x, s, rel),
    ensures
        pairwise(insert_ranked::<T>(x, s), rel),
    decreases s.len(),
{
    let r = insert_ranked::<T>(x, s);
    if s.len() == 0 || T::ranks_at_most(x, s[0]) {
        assert(r.drop_first() =~= s);
    } else {
        lemma_pairwise_split(s, rel);
        assert(rel(x, s[0]));
        lemma_insert_pairwise::<T>(x, s.drop_first(), rel);
        lemma_insert_relates::<T>(s[0], x, s.drop_first(), rel);
        assert(r.drop_first() =~= insert_ranked::<T>(x, s.drop_first()));
    }
    lemma_pairwise_split(r, rel);
}

} // verus!
