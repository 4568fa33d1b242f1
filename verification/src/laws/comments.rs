//! What a doc comment documents.
use vstd::prelude::*;

use crate::laws::joining::is_blank;
use crate::laws::texts::{
    is_one_word, is_trim, law_trimming_takes_blanks_away, law_trimming_undoes_padding,
};
use crate::parser::signatures::{
    comment_text, continued, doc_of, doc_state, doc_step, param_doc, ActiveField, DocText,
};
use crate::text::{
    first_from, is_space, join, lemma_first_found, lemma_skip_space_bounds, occurs_at, skip_space,
    space_at, split_space, trim, without_prefix,
};

verus! {

// Tags --------------------------------------------------------------------

/// The tag that opens a field.
pub open spec fn tag_of(field: ActiveField) -> Seq<char> {
    match field {
        ActiveField::Brief => "@brief"@,
        ActiveField::Param => "@param"@,
        ActiveField::Return => "@return"@,
        ActiveField::Math => "@math"@,
        ActiveField::Example => "@example"@,
        ActiveField::Nothing => seq![],
    }
}

/// The line opens the field.
pub open spec fn opens(line: Seq<char>, field: ActiveField) -> bool {
    field != ActiveField::Nothing && occurs_at(trim(line), tag_of(field), 0)
}

/// The line opens a field.
pub open spec fn is_tagged(line: Seq<char>) -> bool {
    exists|field: ActiveField| opens(line, field)
}

/// What separates the lines of a field: those of a formula and of an example keep their line
/// breaks, those of prose are put on one line.
pub open spec fn separator_of(field: ActiveField) -> Seq<char> {
    match field {
        ActiveField::Math | ActiveField::Example => "\n"@,
        _ => " "@,
    }
}

/// Those of the lines that are not blank, without the white space around them.
pub open spec fn told(all: Seq<Seq<char>>) -> Seq<Seq<char>> {
    all.map_values(|line: Seq<char>| trim(line)).filter(|text: Seq<char>| text.len() > 0)
}

/// `doc` with the text in place of what the field held.
pub open spec fn with_field(doc: DocText, field: ActiveField, text: Seq<char>) -> DocText {
    match field {
        ActiveField::Brief => DocText { brief: Some(text), ..doc },
        ActiveField::Return => DocText { return_doc: Some(text), ..doc },
        ActiveField::Math => DocText { math: Some(text), ..doc },
        ActiveField::Example => DocText { example: Some(text), ..doc },
        _ => doc,
    }
}

/// A line opens at most one field.
proof fn lemma_tags_differ(line: Seq<char>, field: ActiveField, other: ActiveField)
    requires
        opens(line, field),
        opens(line, other),
    ensures
        field == other,
{
    reveal_strlit("@brief");
    reveal_strlit("@param");
    reveal_strlit("@return");
    reveal_strlit("@math");
    reveal_strlit("@example");
    let text = trim(line);
    let a = tag_of(field);
    let b = tag_of(other);
    assert(text.subrange(0, a.len() as int)[1] == text[1]);
    assert(text.subrange(0, b.len() as int)[1] == text[1]);
    assert(a[1] == b[1]);
}

/// What the state is behind a line that opens a field.
proof fn lemma_tag_step(state: (DocText, ActiveField), line: Seq<char>, field: ActiveField)
    requires
        opens(line, field),
    ensures
        ({
            let rest = trim(trim(line).skip(tag_of(field).len() as int));
            doc_step(state, trim(line)) == (
                if field == ActiveField::Param {
                    DocText { params: state.0.params.push(param_doc(rest)), ..state.0 }
                } else {
                    with_field(state.0, field, rest)
                },
                field,
            )
        }),
{
    if opens(line, ActiveField::Brief) {
        lemma_tags_differ(line, field, ActiveField::Brief);
    }
    if opens(line, ActiveField::Param) {
        lemma_tags_differ(line, field, ActiveField::Param);
    }
    if opens(line, ActiveField::Return) {
        lemma_tags_differ(line, field, ActiveField::Return);
    }
    if opens(line, ActiveField::Math) {
        lemma_tags_differ(line, field, ActiveField::Math);
    }
    if opens(line, ActiveField::Example) {
        lemma_tags_differ(line, field, ActiveField::Example);
    }
}

/// A line without a tag begins with none of them.
proof fn lemma_untagged(line: Seq<char>)
    requires
        !is_tagged(line),
    ensures
        without_prefix(trim(line), "@brief"@) is None,
        without_prefix(trim(line), "@param"@) is None,
        without_prefix(trim(line), "@return"@) is None,
        without_prefix(trim(line), "@math"@) is None,
        without_prefix(trim(line), "@example"@) is None,
{
    assert(!opens(line, ActiveField::Brief));
    assert(!opens(line, ActiveField::Param));
    assert(!opens(line, ActiveField::Return));
    assert(!opens(line, ActiveField::Math));
    assert(!opens(line, ActiveField::Example));
}

/// Texts that are not empty are not empty when they are joined.
proof fn lemma_join_not_empty(parts: Seq<Seq<char>>, sep: Seq<char>)
    requires
        parts.len() > 0,
        parts.last().len() > 0,
    ensures
        join(parts, sep).len() > 0,
{
}

/// What is told last is not empty.
proof fn lemma_told_last(all: Seq<Seq<char>>)
    ensures
        told(all).len() > 0 ==> told(all).last().len() > 0,
    decreases all.len(),
{
    reveal(Seq::filter);
    if all.len() > 0 {
        lemma_told_last(all.drop_last());
        lemma_told_step(all.drop_last(), all.last());
        assert(all.drop_last().push(all.last()) =~= all);
    }
}

/// One more line is told, unless it is blank.
proof fn lemma_told_step(all: Seq<Seq<char>>, line: Seq<char>)
    ensures
        told(all.push(line)) == (if trim(line).len() > 0 {
            told(all).push(trim(line))
        } else {
            told(all)
        }),
{
    reveal(Seq::filter);
    let f = |line: Seq<char>| trim(line);
    let more = all.push(line).map_values(f);
    assert(more.drop_last() =~= all.map_values(f));
    assert(more.last() == trim(line));
}

/// What is told in lines, joined, grows by one more line as a field does.
proof fn lemma_told_continues(all: Seq<Seq<char>>, line: Seq<char>, sep: Seq<char>, c: char)
    requires
        sep == seq![c],
    ensures
        trim(line).len() > 0 ==> join(told(all.push(line)), sep) == continued(
            join(told(all), sep),
            c,
            trim(line),
        ),
        trim(line).len() == 0 ==> join(told(all.push(line)), sep) == join(told(all), sep),
{
    lemma_told_step(all, line);
    lemma_told_last(all);
    if trim(line).len() > 0 {
        let before = told(all);
        if before.len() > 0 {
            lemma_join_not_empty(before, sep);
            assert(before.push(trim(line)).drop_last() =~= before);
            assert(join(before.push(trim(line)), sep) =~= join(before, sep).push(c) + trim(line));
        } else {
            assert(before.push(trim(line))[0] == trim(line));
        }
    }
}

/// No text of a doc comment is lost: what `@brief`, `@return`, `@math` or `@example` documents is
/// the text behind the tag and all lines below it up to the next tag, those that are not blank,
/// joined; and what was documented before is unchanged but for that field.
pub proof fn law_field_is_all_its_lines(
    before: Seq<Seq<char>>,
    line: Seq<char>,
    more: Seq<Seq<char>>,
    field: ActiveField,
)
    requires
        opens(line, field),
        field != ActiveField::Param,
        forall|k: int| 0 <= k < more.len() ==> !is_tagged(#[trigger] more[k]),
    ensures
        ({
            let first = trim(line).skip(tag_of(field).len() as int);
            doc_state(before + seq![line] + more) == (
                with_field(
                    doc_state(before).0,
                    field,
                    join(told(seq![first] + more), separator_of(field)),
                ),
                field,
            )
        }),
    decreases more.len(),
{
    reveal_strlit(" ");
    reveal_strlit("\n");
    let first = trim(line).skip(tag_of(field).len() as int);
    let sep = separator_of(field);
    let c = if field == ActiveField::Math || field == ActiveField::Example {
        '\n'
    } else {
        ' '
    };
    assert(sep =~= seq![c]);
    let all = before + seq![line] + more;
    if more.len() == 0 {
        assert(all.drop_last() =~= before);
        assert(all.last() == line);
        lemma_tag_step(doc_state(before), line, field);
        assert(seq![first] + more =~= Seq::empty().push(first));
        lemma_told_continues(Seq::empty(), first, sep, c);
        assert(told(Seq::empty()) =~= Seq::empty()) by {
            lemma_told_none();
        }
        assert(join(told(Seq::empty()), sep) =~= Seq::empty());
        assert(join(told(seq![first] + more), sep) =~= trim(first));
    } else {
        let rest = more.drop_last();
        let last = more[more.len() - 1];
        assert forall|k: int| 0 <= k < rest.len() implies !is_tagged(#[trigger] rest[k]) by {
            assert(rest[k] == more[k]);
        }
        law_field_is_all_its_lines(before, line, rest, field);
        assert(all.drop_last() =~= before + seq![line] + rest);
        assert(all.last() == last);
        lemma_untagged(last);
        assert(seq![first] + more =~= (seq![first] + rest).push(last));
        lemma_told_continues(seq![first] + rest, last, sep, c);
        assert(doc_state(all) == doc_step(doc_state(all.drop_last()), trim(last)));
    }
}

/// Of no lines nothing is told.
proof fn lemma_told_none()
    ensures
        told(Seq::empty()) == Seq::<Seq<char>>::empty(),
{
    reveal(Seq::filter);
    let f = |line: Seq<char>| trim(line);
    assert(Seq::<Seq<char>>::empty().map_values(f) =~= Seq::empty());
}

/// The name and the description that a `@param` line gives: its first word, and what is behind it.
pub open spec fn named_param(line: Seq<char>) -> (Seq<char>, Seq<char>) {
    param_doc(trim(trim(line).skip("@param"@.len() as int)))
}

/// No text of a doc comment is lost: each `@param` documents one more parameter, whose description
/// is the text behind its name and all lines below it up to the next tag, those that are not blank,
/// joined by spaces; and everything that was documented before is unchanged.
pub proof fn law_param_is_all_its_lines(
    before: Seq<Seq<char>>,
    line: Seq<char>,
    more: Seq<Seq<char>>,
)
    requires
        opens(line, ActiveField::Param),
        forall|k: int| 0 <= k < more.len() ==> !is_tagged(#[trigger] more[k]),
    ensures
        ({
            let doc = doc_state(before).0;
            let (name, first) = named_param(line);
            doc_state(before + seq![line] + more) == (
                DocText {
                    params: doc.params.push((name, join(told(seq![first] + more), " "@))),
                    ..doc
                },
                ActiveField::Param,
            )
        }),
    decreases more.len(),
{
    reveal_strlit(" ");
    let field = ActiveField::Param;
    let doc = doc_state(before).0;
    let (name, first) = named_param(line);
    let sep = " "@;
    assert(sep =~= seq![' ']);
    let all = before + seq![line] + more;
    if more.len() == 0 {
        assert(all.drop_last() =~= before);
        assert(all.last() == line);
        lemma_tag_step(doc_state(before), line, field);
        assert(seq![first] + more =~= Seq::empty().push(first));
        lemma_told_continues(Seq::empty(), first, sep, ' ');
        lemma_told_none();
        assert(join(told(Seq::empty()), sep) =~= Seq::empty());
        lemma_param_doc_is_trim(trim(trim(line).skip("@param"@.len() as int)));
        assert(join(told(seq![first] + more), sep) =~= first);
    } else {
        let rest = more.drop_last();
        let last = more[more.len() - 1];
        assert forall|k: int| 0 <= k < rest.len() implies !is_tagged(#[trigger] rest[k]) by {
            assert(rest[k] == more[k]);
        }
        law_param_is_all_its_lines(before, line, rest);
        assert(all.drop_last() =~= before + seq![line] + rest);
        assert(all.last() == last);
        lemma_untagged(last);
        assert(seq![first] + more =~= (seq![first] + rest).push(last));
        lemma_told_continues(seq![first] + rest, last, sep, ' ');
        let so_far = doc_state(all.drop_last());
        assert(doc_state(all) == doc_step(so_far, trim(last)));
        assert(so_far.0.params.drop_last() =~= doc.params);
        if trim(last).len() == 0 {
            assert(doc_state(all) == so_far);
        }
    }
}

/// A description is trimmed.
proof fn lemma_param_doc_is_trim(text: Seq<char>)
    ensures
        trim(param_doc(text).1) == param_doc(text).1,
{
    match split_space(text) {
        Some((name, desc)) => {
            lemma_trim_twice(desc);
        },
        None => {
            assert(trim(Seq::<char>::empty()) =~= Seq::empty());
        },
    }
}

/// Trimming twice is trimming once.
proof fn lemma_trim_twice(s: Seq<char>)
    ensures
        trim(trim(s)) == trim(s),
{
    let none = Seq::<char>::empty();
    law_trimming_takes_blanks_away(s);
    law_trimming_undoes_padding(none, trim(s), none);
    assert(none + trim(s) + none =~= trim(s));
}

/// The text of a `@param` tag is a name and, behind white space, a description.
pub proof fn law_param_has_name_and_description(
    name: Seq<char>,
    blank: Seq<char>,
    desc: Seq<char>,
)
    requires
        is_one_word(name),
        is_blank(blank),
        blank.len() > 0,
        is_trim(desc),
    ensures
        param_doc(name + blank + desc) == (name, desc),
        param_doc(name) == (name, Seq::<char>::empty()),
{
    let s = name + blank + desc;
    let n = name.len() as int;
    let p = space_at(s);
    lemma_first_found(p, 0, s.len() as int);
    assert(s[n] == blank[0]);
    assert(p(n));
    let i = first_from(p, 0, s.len() as int)->0;
    assert(p(i));
    if i < n {
        assert(s[i] == name[i]);
    }
    assert(i == n);
    assert(s.take(n) =~= name);
    let rest = s.skip(n + 1);
    let none = Seq::<char>::empty();
    let b = blank.skip(1);
    assert forall|j: int| 0 <= j < b.len() implies is_space(#[trigger] b[j]) by {
        assert(b[j] == blank[j + 1]);
    }
    law_trimming_undoes_padding(b, desc, none);
    assert(rest =~= b + desc + none);
    let q = space_at(name);
    lemma_first_found(q, 0, n);
    if let Some(j) = first_from(q, 0, n) {
        assert(q(j));
        assert(!is_space(name[j]));
    }
}

/// Lines before the first tag document nothing.
pub proof fn law_lines_before_tags_say_nothing(all: Seq<Seq<char>>)
    requires
        forall|k: int| 0 <= k < all.len() ==> !is_tagged(#[trigger] all[k]),
    ensures
        doc_state(all) == (
            DocText { brief: None, params: seq![], return_doc: None, math: None, example: None },
            ActiveField::Nothing,
        ),
    decreases all.len(),
{
    if all.len() > 0 {
        let front = all.drop_last();
        assert forall|k: int| 0 <= k < front.len() implies !is_tagged(#[trigger] front[k]) by {
            assert(front[k] == all[k]);
        }
        law_lines_before_tags_say_nothing(front);
        lemma_untagged(all[all.len() - 1]);
    }
}

// Comments ----------------------------------------------------------------

/// A comment line as it is written: white space, `//`, a space and the text.
pub open spec fn is_comment_of(line: Seq<char>, blank: Seq<char>, text: Seq<char>) -> bool {
    is_blank(blank) && line == blank + "// "@ + text
}

/// The text of a comment line is what stands behind `// `; without a space behind the `//` it is all
/// that stands behind that.
pub proof fn law_comment_text_is_read(blank: Seq<char>, text: Seq<char>)
    requires
        is_blank(blank),
    ensures
        comment_text(blank + "// "@ + text) == text,
        (text.len() > 0 ==> text[0] != ' ') ==> comment_text(blank + "//"@ + text) == text,
{
    reveal_strlit("// ");
    reveal_strlit("//");
    reveal_strlit(" ");
    let n = blank.len() as int;
    let s = blank + "// "@ + text;
    lemma_skips_to(s, n);
    let t = s.skip(n);
    assert(t.subrange(0, 2) =~= "//"@);
    let rest = t.skip(2);
    assert(rest[0] == ' ');
    assert(rest.subrange(0, 1) =~= " "@);
    assert(rest.skip(1) =~= text);
    let u = blank + "//"@ + text;
    lemma_skips_to(u, n);
    let v = u.skip(n);
    assert(v.subrange(0, 2) =~= "//"@);
    assert(v.skip(2) =~= text);
    if text.len() > 0 && occurs_at(text, " "@, 0) {
        assert(text.subrange(0, 1)[0] == text[0]);
    }
}

/// White space up to something else is skipped.
proof fn lemma_skips_to(s: Seq<char>, n: int)
    requires
        0 <= n < s.len(),
        forall|j: int| 0 <= j < n ==> is_space(#[trigger] s[j]),
        s[n] == '/',
    ensures
        skip_space(s, 0) == n,
{
    lemma_skip_space_bounds(s, 0);
    let k = skip_space(s, 0);
    if k < n {
        assert(is_space(s[k]));
    }
    if k > n {
        assert(is_space(s[n]));
    }
}

/// A comment documents a function exactly if its first line says `@laplace` and nothing else; then
/// what the lines below say is what it documents.
pub proof fn law_laplace_comment_documents(texts: Seq<Seq<char>>, comments: Seq<Seq<char>>)
    requires
        comments.len() == texts.len(),
        forall|k: int|
            0 <= k < comments.len() ==> exists|blank: Seq<char>| #[trigger]
                is_comment_of(#[trigger] comments[k], blank, texts[k]),
    ensures
        doc_of(comments) is Some <==> texts.len() > 0 && trim(texts[0]) == "@laplace"@,
        doc_of(comments) is Some ==> doc_of(comments)->0 == doc_state(texts.skip(1)).0,
{
    let stripped = comments.map_values(|line: Seq<char>| comment_text(line));
    assert forall|k: int| 0 <= k < comments.len() implies stripped[k] == texts[k] by {
        let blank = choose|blank: Seq<char>| #[trigger] is_comment_of(comments[k], blank, texts[k]);
        assert(is_comment_of(comments[k], blank, texts[k]));
        law_comment_text_is_read(blank, texts[k]);
    }
    assert(stripped =~= texts);
}

} // verus!
