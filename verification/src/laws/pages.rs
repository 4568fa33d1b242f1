//! What `laplace doc` shows of a function.
use vstd::prelude::*;
use vstd::utf8::encode_utf8;

use crate::docs::{
    escaped, field_section, html_items, html_params, html_section, indented, lines_section,
    name_width, param_rows, param_texts, params_section, rendered, rendered_html, signature_text,
    PAGE_ASSETS, PAGE_END, PAGE_HEAD,
};
use crate::laws::texts::{
    in_turn, lemma_in_turn_concat, lemma_in_turn_next, lemma_in_turn_one, lemma_total_len_concat,
    lemma_total_len_one, total_len,
};
use crate::parser::signatures::{DocText, Signature};
use crate::text::{join, lines, spaces};

verus! {

/// A section that a field may make, as the one piece that it is, or none.
pub open spec fn section(field: Option<Seq<char>>, head: Seq<char>, tail: Seq<char>) -> Seq<
    Seq<char>,
> {
    match field {
        Some(text) => seq![head + text + tail],
        None => seq![],
    }
}

// The signature line ------------------------------------------------------

/// A function without parameters is shown as `package::name() -> type`.
pub proof fn law_signature_line_without_params(package: Seq<char>, sig: Signature)
    requires
        sig.params.len() == 0,
    ensures
        signature_text(package, sig) == package + "::"@ + sig.name + "() -> "@ + sig.return_type,
{
    reveal_strlit("(");
    reveal_strlit(") -> ");
    reveal_strlit("() -> ");
    assert(param_texts(sig.params) =~= Seq::<Seq<char>>::empty());
    assert("("@ + join(param_texts(sig.params), ", "@) + ") -> "@ =~= "() -> "@);
    assert(signature_text(package, sig) =~= package + "::"@ + sig.name + "() -> "@
        + sig.return_type);
}

/// One more parameter is shown behind the others, as `name: type`, and changes nothing else.
pub proof fn law_signature_line_lists_params(
    package: Seq<char>,
    sig: Signature,
    name: Seq<char>,
    ty: Seq<char>,
)
    ensures
        ({
            let end = ") -> "@ + sig.return_type;
            let line = signature_text(package, sig);
            let more = Signature { params: sig.params.push((name, ty)), ..sig };
            &&& line.len() >= end.len()
            &&& line.skip(line.len() - end.len()) == end
            &&& signature_text(package, more) == line.take(line.len() - end.len()) + (
            if sig.params.len() > 0 {
                ", "@
            } else {
                seq![]
            }) + name + ": "@ + ty + end
        }),
{
    let end = ") -> "@ + sig.return_type;
    let line = signature_text(package, sig);
    let more = Signature { params: sig.params.push((name, ty)), ..sig };
    let texts = param_texts(sig.params);
    let next = name + ": "@ + ty;
    let begun = package + "::"@ + sig.name + "("@ + join(texts, ", "@);
    assert(param_texts(more.params) =~= texts.push(next));
    lemma_line_ends(begun, ") -> "@, sig.return_type);
    if texts.len() > 0 {
        assert(texts.push(next).drop_last() =~= texts);
        assert(join(texts.push(next), ", "@) == join(texts, ", "@) + ", "@ + next);
        lemma_line_goes_on(
            package + "::"@ + sig.name + "("@,
            join(texts, ", "@),
            ", "@,
            name,
            ": "@,
            ty,
        );
    } else {
        let none = Seq::<char>::empty();
        assert(join(texts, ", "@) =~= none);
        assert(texts.push(next)[0] == next);
        assert(join(texts.push(next), ", "@) == next);
        assert(none + none + next =~= next);
        lemma_line_goes_on(package + "::"@ + sig.name + "("@, none, none, name, ": "@, ty);
    }
    lemma_line_ends(
        package + "::"@ + sig.name + "("@ + join(texts.push(next), ", "@),
        ") -> "@,
        sig.return_type,
    );
}

/// A line ends as it is put together.
proof fn lemma_line_ends(begun: Seq<char>, arrow: Seq<char>, ty: Seq<char>)
    ensures
        ({
            let line = begun + arrow + ty;
            let end = arrow + ty;
            &&& line == begun + end
            &&& line.len() >= end.len()
            &&& line.skip(line.len() - end.len()) == end
            &&& line.take(line.len() - end.len()) == begun
        }),
{
    let line = begun + arrow + ty;
    let end = arrow + ty;
    assert(line =~= begun + end);
    assert(line.skip(line.len() - end.len()) =~= end);
    assert(line.take(line.len() - end.len()) =~= begun);
}

/// What is put in behind a beginning is put in piece by piece.
proof fn lemma_line_goes_on(
    head: Seq<char>,
    all: Seq<char>,
    sep: Seq<char>,
    name: Seq<char>,
    colon: Seq<char>,
    ty: Seq<char>,
)
    ensures
        head + (all + sep + (name + colon + ty)) == head + all + sep + name + colon + ty,
{
    assert(head + (all + sep + (name + colon + ty)) =~= head + all + sep + name + colon + ty);
}

// Plain text --------------------------------------------------------------

/// Lines are indented one by one: those of two lists as those of the one and then the other, and a
/// single one by two spaces, with its line end.
pub proof fn law_indenting_goes_over_concatenation(
    a: Seq<Seq<char>>,
    b: Seq<Seq<char>>,
    line: Seq<char>,
)
    ensures
        indented(a + b) == indented(a) + indented(b),
        indented(seq![line]) == "  "@ + line + "\n"@,
    decreases b.len(),
{
    assert(indented(seq![line].drop_last()) =~= Seq::empty());
    assert(indented(seq![line]) =~= "  "@ + line + "\n"@);
    if b.len() == 0 {
        assert(a + b =~= a);
        assert(indented(a) + indented(b) =~= indented(a));
    } else {
        assert((a + b).drop_last() =~= a + b.drop_last());
        law_indenting_goes_over_concatenation(a, b.drop_last(), line);
        assert(indented(a + b) =~= indented(a) + indented(b));
    }
}

/// The width of the names is that of the longest: none is longer, and one is as long.
pub proof fn law_name_width_is_the_greatest(params: Seq<(Seq<char>, Seq<char>)>)
    ensures
        forall|k: int|
            0 <= k < params.len() ==> encode_utf8((#[trigger] params[k]).0).len() <= name_width(
                params,
            ),
        params.len() > 0 ==> exists|k: int|
            0 <= k < params.len() && encode_utf8((#[trigger] params[k]).0).len() == name_width(
                params,
            ),
        params.len() == 0 ==> name_width(params) == 0,
    decreases params.len(),
{
    if params.len() > 0 {
        let front = params.drop_last();
        law_name_width_is_the_greatest(front);
        assert forall|k: int| 0 <= k < params.len() implies encode_utf8((#[trigger] params[k]).0).len()
            <= name_width(params) by {
            if k < front.len() {
                assert(front[k] == params[k]);
            }
        }
        let last = params.len() - 1;
        if encode_utf8(params[last].0).len() == name_width(params) {
        } else {
            let k = choose|k: int|
                0 <= k < front.len() && encode_utf8((#[trigger] front[k]).0).len() == name_width(
                    front,
                );
            assert(params[k] == front[k]);
        }
    }
}

/// A row of the parameters: the name, as many spaces as it is shorter than the width, two more, and
/// the description, indented by two.
pub open spec fn param_row(name: Seq<char>, desc: Seq<char>, width: int) -> Seq<char> {
    "  "@ + name + Seq::new(
        if width > name.len() {
            (width - name.len()) as nat
        } else {
            0
        },
        |i: int| ' ',
    ) + "  "@ + desc + "\n"@
}

/// The rows of all parameters.
pub open spec fn all_rows(params: Seq<(Seq<char>, Seq<char>)>, width: int) -> Seq<Seq<char>> {
    Seq::new(params.len(), |k: int| param_row(params[k].0, params[k].1, width))
}

/// The rows of the parameters stand one behind the other, and there is nothing else.
proof fn lemma_rows_in_turn(params: Seq<(Seq<char>, Seq<char>)>, width: int)
    ensures
        in_turn(param_rows(params, width), all_rows(params, width)),
        param_rows(params, width).len() == total_len(all_rows(params, width)),
    decreases params.len(),
{
    let rows = all_rows(params, width);
    if params.len() == 0 {
        assert(rows =~= Seq::empty());
        lemma_in_turn_one(param_rows(params, width));
    } else {
        let front = params.drop_last();
        let last = param_row(params.last().0, params.last().1, width);
        lemma_rows_in_turn(front, width);
        assert(spaces(width - params.last().0.len()) =~= Seq::new(
            if width > params.last().0.len() {
                (width - params.last().0.len()) as nat
            } else {
                0
            },
            |i: int| ' ',
        ));
        assert(param_rows(params, width) =~= param_rows(front, width) + last);
        assert(rows =~= all_rows(front, width) + seq![last]);
        lemma_in_turn_next(param_rows(front, width), all_rows(front, width), last);
        lemma_total_len_concat(all_rows(front, width), seq![last]);
        lemma_total_len_one(last);
    }
}

/// The lines of a text, each indented, with its line end.
pub open spec fn line_rows(text: Seq<char>) -> Seq<Seq<char>> {
    Seq::new(lines(text).len(), |k: int| "  "@ + lines(text)[k] + "\n"@)
}

/// Indented lines stand one behind the other, and there is nothing else.
proof fn lemma_indented_in_turn(all: Seq<Seq<char>>)
    ensures
        in_turn(indented(all), Seq::new(all.len(), |k: int| "  "@ + all[k] + "\n"@)),
        indented(all).len() == total_len(Seq::new(all.len(), |k: int| "  "@ + all[k] + "\n"@)),
    decreases all.len(),
{
    let rows = Seq::new(all.len(), |k: int| "  "@ + all[k] + "\n"@);
    if all.len() == 0 {
        assert(rows =~= Seq::empty());
        lemma_in_turn_one(indented(all));
    } else {
        let front = all.drop_last();
        let before = Seq::new(front.len(), |k: int| "  "@ + front[k] + "\n"@);
        let last = "  "@ + all.last() + "\n"@;
        lemma_indented_in_turn(front);
        assert(indented(all) =~= indented(front) + last);
        assert(rows =~= before + seq![last]);
        lemma_in_turn_next(indented(front), before, last);
        lemma_total_len_concat(before, seq![last]);
        lemma_total_len_one(last);
    }
}

/// A section of lines that a field may make: its head and its rows.
pub open spec fn line_section(field: Option<Seq<char>>, head: Seq<char>) -> Seq<Seq<char>> {
    match field {
        Some(text) => seq![head] + line_rows(text),
        None => seq![],
    }
}

/// The section of the parameters, if there are any: its head and its rows.
pub open spec fn param_section(params: Seq<(Seq<char>, Seq<char>)>) -> Seq<Seq<char>> {
    if params.len() == 0 {
        seq![]
    } else {
        seq!["\nParameters:\n"@] + all_rows(params, name_width(params))
    }
}

/// All that a documented function has to show, in the order in which it is shown.
pub open spec fn shown(package: Seq<char>, sig: Signature, doc: DocText) -> Seq<Seq<char>> {
    seq![signature_text(package, sig) + "\n"@] + section(doc.brief, "\n"@, "\n"@) + line_section(
        doc.math,
        "\nMath:\n"@,
    ) + param_section(doc.params) + section(doc.return_doc, "\nReturns:\n  "@, "\n"@)
        + line_section(doc.example, "\nExample:\n"@)
}

/// A section of a field stands in its text.
proof fn lemma_section(field: Option<Seq<char>>, head: Seq<char>, tail: Seq<char>)
    ensures
        in_turn(field_section(field, head, tail), section(field, head, tail)),
        field_section(field, head, tail).len() == total_len(section(field, head, tail)),
{
    lemma_in_turn_one(field_section(field, head, tail));
    lemma_total_len_one(field_section(field, head, tail));
    if field is None {
        assert(section(field, head, tail) =~= Seq::empty());
    }
}

/// A section of lines stands in its text.
proof fn lemma_line_section(field: Option<Seq<char>>, head: Seq<char>)
    ensures
        in_turn(lines_section(field, head), line_section(field, head)),
        lines_section(field, head).len() == total_len(line_section(field, head)),
{
    match field {
        Some(text) => {
            lemma_indented_in_turn(lines(text));
            lemma_in_turn_one(head);
            assert(line_rows(text) =~= Seq::new(
                lines(text).len(),
                |k: int| "  "@ + lines(text)[k] + "\n"@,
            ));
            lemma_in_turn_concat(head, seq![head], indented(lines(text)), line_rows(text));
            lemma_total_len_one(head);
            lemma_total_len_concat(seq![head], line_rows(text));
        },
        None => {
            lemma_in_turn_one(lines_section(field, head));
            lemma_total_len_one(head);
            assert(line_section(field, head) =~= Seq::empty());
        },
    }
}

/// The section of the parameters stands in its text.
proof fn lemma_param_section(params: Seq<(Seq<char>, Seq<char>)>)
    ensures
        in_turn(params_section(params), param_section(params)),
        params_section(params).len() == total_len(param_section(params)),
{
    let width = name_width(params);
    let head = "\nParameters:\n"@;
    lemma_rows_in_turn(params, width);
    lemma_in_turn_one(head);
    lemma_total_len_one(head);
    if params.len() == 0 {
        lemma_in_turn_one(params_section(params));
        assert(param_section(params) =~= Seq::empty());
    } else {
        lemma_in_turn_concat(head, seq![head], param_rows(params, width), all_rows(params, width));
        lemma_total_len_concat(seq![head], all_rows(params, width));
    }
}

/// Everything that is documented of a function is shown, in order: its signature, what it is for,
/// every line of its formula, every parameter with its description, what it returns and every line
/// of its example; and nothing else.
pub proof fn law_everything_documented_is_shown(package: Seq<char>, sig: Signature, doc: DocText)
    requires
        sig.doc == Some(doc),
    ensures
        in_turn(rendered(package, sig), shown(package, sig, doc)),
        rendered(package, sig).len() == total_len(shown(package, sig, doc)),
{
    let t0 = signature_text(package, sig) + "\n"@;
    let t1 = field_section(doc.brief, "\n"@, "\n"@);
    let t2 = lines_section(doc.math, "\nMath:\n"@);
    let t3 = params_section(doc.params);
    let t4 = field_section(doc.return_doc, "\nReturns:\n  "@, "\n"@);
    let t5 = lines_section(doc.example, "\nExample:\n"@);
    let p1 = section(doc.brief, "\n"@, "\n"@);
    let p2 = line_section(doc.math, "\nMath:\n"@);
    let p3 = param_section(doc.params);
    let p4 = section(doc.return_doc, "\nReturns:\n  "@, "\n"@);
    let p5 = line_section(doc.example, "\nExample:\n"@);
    lemma_in_turn_one(t0);
    lemma_total_len_one(t0);
    lemma_section(doc.brief, "\n"@, "\n"@);
    lemma_line_section(doc.math, "\nMath:\n"@);
    lemma_param_section(doc.params);
    lemma_section(doc.return_doc, "\nReturns:\n  "@, "\n"@);
    lemma_line_section(doc.example, "\nExample:\n"@);
    lemma_in_turn_concat(t0, seq![t0], t1, p1);
    lemma_in_turn_concat(t0 + t1, seq![t0] + p1, t2, p2);
    lemma_in_turn_concat(t0 + t1 + t2, seq![t0] + p1 + p2, t3, p3);
    lemma_in_turn_concat(t0 + t1 + t2 + t3, seq![t0] + p1 + p2 + p3, t4, p4);
    lemma_in_turn_concat(t0 + t1 + t2 + t3 + t4, seq![t0] + p1 + p2 + p3 + p4, t5, p5);
    lemma_total_len_concat(seq![t0], p1);
    lemma_total_len_concat(seq![t0] + p1, p2);
    lemma_total_len_concat(seq![t0] + p1 + p2, p3);
    lemma_total_len_concat(seq![t0] + p1 + p2 + p3, p4);
    lemma_total_len_concat(seq![t0] + p1 + p2 + p3 + p4, p5);
    assert(rendered(package, sig) == t0 + t1 + t2 + t3 + t4 + t5);
}

/// Of a function without documentation the signature is shown, and that it has none.
pub proof fn law_undocumented_function_is_shown(package: Seq<char>, sig: Signature)
    requires
        sig.doc is None,
    ensures
        rendered(package, sig) == signature_text(package, sig)
            + "\n\n(no @laplace documentation available for this function)\n"@,
        in_turn(
            rendered_html(package, sig),
            seq![
                "<h1>"@ + escaped(signature_text(package, sig)) + "</h1>\n"@,
                "<p><em>no @laplace documentation available for this function</em></p>\n"@,
            ],
        ),
{
    reveal_strlit("\n");
    reveal_strlit("\n(no @laplace documentation available for this function)\n");
    reveal_strlit("\n\n(no @laplace documentation available for this function)\n");
    assert("\n"@ + "\n(no @laplace documentation available for this function)\n"@
        =~= "\n\n(no @laplace documentation available for this function)\n"@);
    assert(rendered(package, sig) =~= signature_text(package, sig)
        + "\n\n(no @laplace documentation available for this function)\n"@);
    let title = signature_text(package, sig);
    let front = PAGE_HEAD@ + escaped(title) + PAGE_ASSETS@;
    let t0 = "<h1>"@ + escaped(title) + "</h1>\n"@;
    let t1 = "<p><em>no @laplace documentation available for this function</em></p>\n"@;
    lemma_in_turn_one(front);
    lemma_in_turn_next(front, Seq::empty(), t0);
    lemma_in_turn_next(front + t0, Seq::empty() + seq![t0], t1);
    let pieces = Seq::<Seq<char>>::empty() + seq![t0] + seq![t1];
    lemma_in_turn_next(front + t0 + t1, pieces, PAGE_END@);
    assert(pieces =~= seq![t0, t1]);
    assert(rendered_html(package, sig) =~= front + t0 + t1 + PAGE_END@);
}

// HTML --------------------------------------------------------------------

/// The item of a parameter.
pub open spec fn html_item(name: Seq<char>, desc: Seq<char>) -> Seq<char> {
    "<li><strong>"@ + escaped(name) + "</strong>: "@ + escaped(desc) + "</li>\n"@
}

/// The items of all parameters.
pub open spec fn all_items(params: Seq<(Seq<char>, Seq<char>)>) -> Seq<Seq<char>> {
    Seq::new(params.len(), |k: int| html_item(params[k].0, params[k].1))
}

/// The HTML of parameters goes over concatenation: the items of two lists are those of the one and
/// then those of the other, and a single parameter makes one item.
pub proof fn law_parameter_items_go_over_concatenation(
    a: Seq<(Seq<char>, Seq<char>)>,
    b: Seq<(Seq<char>, Seq<char>)>,
    name: Seq<char>,
    desc: Seq<char>,
)
    ensures
        html_items(a + b) == html_items(a) + html_items(b),
        html_items(seq![(name, desc)]) == "<li><strong>"@ + escaped(name) + "</strong>: "@
            + escaped(desc) + "</li>\n"@,
    decreases b.len(),
{
    let one = seq![(name, desc)];
    assert(html_items(one.drop_last()) =~= Seq::empty());
    assert(html_items(one) =~= html_item(name, desc));
    if b.len() == 0 {
        assert(a + b =~= a);
        assert(html_items(a) + html_items(b) =~= html_items(a));
    } else {
        assert((a + b).drop_last() =~= a + b.drop_last());
        law_parameter_items_go_over_concatenation(a, b.drop_last(), name, desc);
        assert(html_items(a + b) =~= html_items(a) + html_items(b));
    }
}

/// The items of the parameters stand one behind the other, and there is nothing else.
proof fn lemma_items_in_turn(params: Seq<(Seq<char>, Seq<char>)>)
    ensures
        in_turn(html_items(params), all_items(params)),
        html_items(params).len() == total_len(all_items(params)),
    decreases params.len(),
{
    if params.len() == 0 {
        assert(all_items(params) =~= Seq::empty());
        lemma_in_turn_one(html_items(params));
    } else {
        let front = params.drop_last();
        let last = html_item(params.last().0, params.last().1);
        lemma_items_in_turn(front);
        assert(html_items(params) =~= html_items(front) + last);
        assert(all_items(params) =~= all_items(front) + seq![last]);
        lemma_in_turn_next(html_items(front), all_items(front), last);
        lemma_total_len_concat(all_items(front), seq![last]);
        lemma_total_len_one(last);
    }
}

/// A field as it is written in HTML.
pub open spec fn escaped_field(field: Option<Seq<char>>) -> Option<Seq<char>> {
    match field {
        Some(text) => Some(escaped(text)),
        None => None,
    }
}

/// The list of the parameters, if there are any: its head, its items and its end.
pub open spec fn item_list(params: Seq<(Seq<char>, Seq<char>)>) -> Seq<Seq<char>> {
    if params.len() == 0 {
        seq![]
    } else {
        seq!["<h2>Parameters</h2>\n<ul>\n"@] + all_items(params) + seq!["</ul>\n"@]
    }
}

/// All that the page of a documented function has to show, in the order in which it is shown.
pub open spec fn shown_on_page(package: Seq<char>, sig: Signature, doc: DocText) -> Seq<Seq<char>> {
    seq!["<h1>"@ + escaped(signature_text(package, sig)) + "</h1>\n"@] + section(
        escaped_field(doc.brief),
        "<p>"@,
        "</p>\n"@,
    ) + section(escaped_field(doc.math), "<span class=\"math\">\\["@, "\\]</span>\n"@) + item_list(
        doc.params,
    ) + section(escaped_field(doc.return_doc), "<h2>Returns</h2>\n<p>"@, "</p>\n"@) + section(
        escaped_field(doc.example),
        "<h2>Example</h2>\n<pre><code>"@,
        "</code></pre>\n"@,
    )
}

/// A section of a field stands in its HTML.
proof fn lemma_html_section(field: Option<Seq<char>>, head: Seq<char>, tail: Seq<char>)
    ensures
        in_turn(html_section(field, head, tail), section(escaped_field(field), head, tail)),
        html_section(field, head, tail).len() == total_len(
            section(escaped_field(field), head, tail),
        ),
{
    lemma_in_turn_one(html_section(field, head, tail));
    lemma_total_len_one(html_section(field, head, tail));
    if field is None {
        assert(section(escaped_field(field), head, tail) =~= Seq::empty());
    }
}

/// The list of the parameters stands in its HTML.
proof fn lemma_item_list(params: Seq<(Seq<char>, Seq<char>)>)
    ensures
        in_turn(html_params(params), item_list(params)),
        html_params(params).len() == total_len(item_list(params)),
{
    let head = "<h2>Parameters</h2>\n<ul>\n"@;
    let end = "</ul>\n"@;
    lemma_items_in_turn(params);
    lemma_in_turn_one(head);
    lemma_total_len_one(head);
    lemma_total_len_one(end);
    if params.len() == 0 {
        lemma_in_turn_one(html_params(params));
        assert(item_list(params) =~= Seq::empty());
    } else {
        lemma_in_turn_concat(head, seq![head], html_items(params), all_items(params));
        lemma_in_turn_next(head + html_items(params), seq![head] + all_items(params), end);
        lemma_total_len_concat(seq![head], all_items(params));
        lemma_total_len_concat(seq![head] + all_items(params), seq![end]);
    }
}

/// Everything that is documented of a function is on its page, in order: its signature, what it is
/// for, its formula, an item for every parameter, what it returns and its example; and between the
/// head and the end of the page there is nothing else.
pub proof fn law_everything_documented_is_on_the_page(
    package: Seq<char>,
    sig: Signature,
    doc: DocText,
)
    requires
        sig.doc == Some(doc),
    ensures
        in_turn(rendered_html(package, sig), shown_on_page(package, sig, doc)),
        rendered_html(package, sig).len() == PAGE_HEAD@.len() + escaped(
            signature_text(package, sig),
        ).len() + PAGE_ASSETS@.len() + total_len(shown_on_page(package, sig, doc))
            + PAGE_END@.len(),
{
    let title = signature_text(package, sig);
    let front = PAGE_HEAD@ + escaped(title) + PAGE_ASSETS@;
    let t0 = "<h1>"@ + escaped(title) + "</h1>\n"@;
    let t1 = html_section(doc.brief, "<p>"@, "</p>\n"@);
    let t2 = html_section(doc.math, "<span class=\"math\">\\["@, "\\]</span>\n"@);
    let t3 = html_params(doc.params);
    let t4 = html_section(doc.return_doc, "<h2>Returns</h2>\n<p>"@, "</p>\n"@);
    let t5 = html_section(doc.example, "<h2>Example</h2>\n<pre><code>"@, "</code></pre>\n"@);
    let p1 = section(escaped_field(doc.brief), "<p>"@, "</p>\n"@);
    let p2 = section(escaped_field(doc.math), "<span class=\"math\">\\["@, "\\]</span>\n"@);
    let p3 = item_list(doc.params);
    let p4 = section(escaped_field(doc.return_doc), "<h2>Returns</h2>\n<p>"@, "</p>\n"@);
    let p5 = section(
        escaped_field(doc.example),
        "<h2>Example</h2>\n<pre><code>"@,
        "</code></pre>\n"@,
    );
    lemma_in_turn_one(t0);
    lemma_total_len_one(t0);
    lemma_html_section(doc.brief, "<p>"@, "</p>\n"@);
    lemma_html_section(doc.math, "<span class=\"math\">\\["@, "\\]</span>\n"@);
    lemma_item_list(doc.params);
    lemma_html_section(doc.return_doc, "<h2>Returns</h2>\n<p>"@, "</p>\n"@);
    lemma_html_section(doc.example, "<h2>Example</h2>\n<pre><code>"@, "</code></pre>\n"@);
    lemma_in_turn_concat(t0, seq![t0], t1, p1);
    lemma_in_turn_concat(t0 + t1, seq![t0] + p1, t2, p2);
    lemma_in_turn_concat(t0 + t1 + t2, seq![t0] + p1 + p2, t3, p3);
    lemma_in_turn_concat(t0 + t1 + t2 + t3, seq![t0] + p1 + p2 + p3, t4, p4);
    lemma_in_turn_concat(t0 + t1 + t2 + t3 + t4, seq![t0] + p1 + p2 + p3 + p4, t5, p5);
    lemma_total_len_concat(seq![t0], p1);
    lemma_total_len_concat(seq![t0] + p1, p2);
    lemma_total_len_concat(seq![t0] + p1 + p2, p3);
    lemma_total_len_concat(seq![t0] + p1 + p2 + p3, p4);
    lemma_total_len_concat(seq![t0] + p1 + p2 + p3 + p4, p5);
    let body = t0 + t1 + t2 + t3 + t4 + t5;
    let pieces = shown_on_page(package, sig, doc);
    lemma_in_turn_one(front);
    lemma_in_turn_concat(front, Seq::empty(), body, pieces);
    assert(Seq::<Seq<char>>::empty() + pieces =~= pieces);
    lemma_in_turn_next(front + body, pieces, PAGE_END@);
    assert(rendered_html(package, sig) == front + body + PAGE_END@);
}

} // verus!
