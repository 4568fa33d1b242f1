//! Edits of a source, made in one pass.
use vstd::prelude::*;
use vstd::string::*;

use crate::order::{lemma_ranked_permutes, ranked, sort, Ranked};
use crate::text::{deep, slice_of};

verus! {

/// A replacement of the text of a source from position `start` to before position `end`.
#[verifier::ext_equal]
pub struct Edit {
    pub start: int,
    pub end: int,
    pub text: Seq<char>,
    /// Whether `text` holds the code of the packages.
    pub splice: bool,
}

/// An edit, as a value of the program.
pub struct SourceEdit {
    pub start: usize,
    pub end: usize,
    pub text: String,
    pub splice: bool,
}

impl DeepView for SourceEdit {
    type V = Edit;

    open spec fn deep_view(&self) -> Edit {
        Edit {
            start: self.start as int,
            end: self.end as int,
            text: self.text@,
            splice: self.splice,
        }
    }
}

impl Ranked for SourceEdit {
    open spec fn ranks_at_most(a: Edit, b: Edit) -> bool {
        a.start < b.start || (a.start == b.start && a.end <= b.end)
    }

    fn at_most(&self, other: &Self) -> (r: bool) {
        self.start < other.start || (self.start == other.start && self.end <= other.end)
    }

    proof fn rank_is_total(a: Edit, b: Edit) {
    }

    proof fn rank_is_transitive(a: Edit, b: Edit, c: Edit) {
    }
}

/// The text of `s` from position `cursor` on with the edits made one after the other. An
/// edit that begins before the end of the last one made is left out.
pub open spec fn edited_from(s: Seq<char>, edits: Seq<Edit>, cursor: int) -> Seq<char>
    decreases edits.len(),
{
    if edits.len() == 0 {
        s.skip(cursor)
    } else if edits[0].start < cursor {
        edited_from(s, edits.drop_first(), cursor)
    } else {
        s.subrange(cursor, edits[0].start) + edits[0].text + edited_from(
            s,
            edits.drop_first(),
            edits[0].end,
        )
    }
}

/// What `edited_from` puts before the code of the packages, if that is put in at all.
pub open spec fn edited_before_splice(s: Seq<char>, edits: Seq<Edit>, cursor: int) -> Option<
    Seq<char>,
>
    decreases edits.len(),
{
    if edits.len() == 0 {
        None
    } else if edits[0].start < cursor {
        edited_before_splice(s, edits.drop_first(), cursor)
    } else if edits[0].splice {
        Some(s.subrange(cursor, edits[0].start))
    } else {
        match edited_before_splice(s, edits.drop_first(), edits[0].end) {
            Some(rest) => Some(s.subrange(cursor, edits[0].start) + edits[0].text + rest),
            None => None,
        }
    }
}

/// `s` with `edits`, given in any order, made in one pass in the order of their ranges.
pub open spec fn edited(s: Seq<char>, edits: Seq<Edit>) -> Seq<char> {
    edited_from(s, ranked::<SourceEdit>(edits), 0)
}

/// Every edit has its range in a source of length `n`.
pub open spec fn edits_fit(edits: Seq<Edit>, n: int) -> bool {
    forall|i: int|
        0 <= i < edits.len() ==> 0 <= (#[trigger] edits[i]).start <= n && 0 <= edits[i].end <= n
}

/// Sorting keeps the edits' ranges in the source.
proof fn lemma_ranked_fits(edits: Seq<Edit>, n: int)
    requires
        edits_fit(edits, n),
    ensures
        edits_fit(ranked::<SourceEdit>(edits), n),
{
    broadcast use vstd::seq_lib::group_to_multiset_ensures;

    let sorted = ranked::<SourceEdit>(edits);
    lemma_ranked_permutes::<SourceEdit>(edits);
    assert forall|i: int| 0 <= i < sorted.len() implies 0 <= (#[trigger] sorted[i]).start <= n && 0
        <= sorted[i].end <= n by {
        assert(sorted.contains(sorted[i]));
        assert(sorted.to_multiset().contains(sorted[i]));
        assert(edits.to_multiset().contains(sorted[i]));
        assert(edits.contains(sorted[i]));
    }
}

/// Apply a set of non-overlapping edits in one linear pass, so that offsets computed up
/// front never need adjusting for earlier edits. Also returns what stands before the code
/// of the packages in the result.
pub fn apply_edits(source: &[char], edits: Vec<SourceEdit>) -> (r: (String, Option<String>))
    requires
        edits_fit(deep(edits@), source@.len() as int),
    ensures
        r.0@ == edited(source@, deep(edits@)),
        r.1.deep_view() == edited_before_splice(
            source@,
            ranked::<SourceEdit>(deep(edits@)),
            0,
        ),
{
    let ghost all = ranked::<SourceEdit>(deep(edits@));
    proof {
        lemma_ranked_fits(deep(edits@), source@.len() as int);
    }
    let sorted = sort(edits);
    let mut out = String::new();
    let mut before: Option<String> = None;
    let mut cursor: usize = 0;
    let mut i: usize = 0;
    assert(all.skip(0) =~= all);
    while i < sorted.len()
        invariant
            all == deep(sorted@),
            edits_fit(all, source@.len() as int),
            i <= sorted@.len(),
            cursor <= source@.len(),
            out@ + edited_from(source@, all.skip(i as int), cursor as int) == edited_from(
                source@,
                all,
                0,
            ),
            match before {
                Some(b) => edited_before_splice(source@, all, 0) == Some(b@),
                None => edited_before_splice(source@, all, 0) == (match edited_before_splice(
                    source@,
                    all.skip(i as int),
                    cursor as int,
                ) {
                    Some(rest) => Some(out@ + rest),
                    None => None,
                }),
            },
        decreases sorted@.len() - i,
    {
        let edit = &sorted[i];
        let ghost rest = all.skip(i as int);
        let ghost written = out@;
        proof {
            assert(rest[0] == edit.deep_view());
            assert(rest.drop_first() =~= all.skip(i + 1));
        }
        if edit.start >= cursor {
            out.append(slice_of(source, cursor, edit.start).as_str());
            if edit.splice && before.is_none() {
                before = Some(out.clone());
            }
            out.append(edit.text.as_str());
            proof {
                let kept = source@.subrange(cursor as int, edit.start as int);
                let tail = edited_from(source@, all.skip(i + 1), edit.end as int);
                assert(written + (kept + edit.text@ + tail) =~= written + kept + edit.text@ + tail);
                if let Some(b) = edited_before_splice(source@, all.skip(i + 1), edit.end as int) {
                    assert(written + (kept + edit.text@ + b) =~= written + kept + edit.text@ + b);
                }
            }
            cursor = edit.end;
        }
        i += 1;
    }
    proof {
        assert(all.skip(i as int).len() == 0);
    }
    let ghost written = out@;
    out.append(slice_of(source, cursor, source.len()).as_str());
    assert(out@ =~= written + source@.skip(cursor as int));
    (out, before)
}

} // verus!
