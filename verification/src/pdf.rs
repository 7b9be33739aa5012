//! Conversion of a post to Typst markup for the PDF export.
//!
//! The Markdown body is parsed into its document tree and the tree is walked
//! to emit Typst: each spec function below gives the markup of one kind of
//! node, and each executable function appends exactly that markup.
use vstd::prelude::*;
use crate::markdown::{markdown_tree, parse_markdown, Align, MdKind, MdNode};
use crate::posts::{Post, PostView};
use crate::text::{
    chars_of, decimal, push_char, push_chars, push_decimal, push_str, slice, strip_prefix,
    strip_prefix_chars, string_of, views, words, words_of,
};

verus! {

/// The Typst markup escape of one character: characters with a meaning in
/// markup mode get a backslash.
pub open spec fn markup_escape_char(c: char) -> Seq<char> {
    if c == '\\' || c == '[' || c == ']' || c == '*' || c == '_' || c == '`' || c == '#' || c
        == '$' || c == '<' || c == '@' || c == '~' {
        seq!['\\', c]
    } else {
        seq![c]
    }
}

/// `s` escaped for Typst markup mode.
pub open spec fn markup_escaped(s: Seq<char>) -> Seq<char>
    decreases s.len(),
{
    if s.len() == 0 {
        seq![]
    } else {
        markup_escaped(s.drop_last()) + markup_escape_char(s.last())
    }
}

/// The escape of one character inside a Typst string literal.
pub open spec fn lit_escape_char(c: char) -> Seq<char> {
    if c == '\\' {
        seq!['\\', '\\']
    } else if c == '"' {
        seq!['\\', '"']
    } else if c == '\n' {
        seq!['\\', 'n']
    } else if c == '\r' {
        seq!['\\', 'r']
    } else if c == '\t' {
        seq!['\\', 't']
    } else {
        seq![c]
    }
}

/// `s` escaped for use inside a `"..."` Typst string literal.
pub open spec fn lit_escaped(s: Seq<char>) -> Seq<char>
    decreases s.len(),
{
    if s.len() == 0 {
        seq![]
    } else {
        lit_escaped(s.drop_last()) + lit_escape_char(s.last())
    }
}

/// The character that a backslash followed by `c` stands for in a Typst
/// string literal.
pub open spec fn lit_unescape_char(c: char) -> char {
    if c == 'n' {
        '\n'
    } else if c == 'r' {
        '\r'
    } else if c == 't' {
        '\t'
    } else {
        c
    }
}

/// The text of the body of a Typst string literal, read from the front: a
/// backslash and the character after it stand for one character.
pub open spec fn lit_unescaped(t: Seq<char>) -> Seq<char>
    decreases t.len(),
{
    if t.len() == 0 {
        seq![]
    } else if t[0] == '\\' && t.len() >= 2 {
        seq![lit_unescape_char(t[1])] + lit_unescaped(t.skip(2))
    } else {
        seq![t[0]] + lit_unescaped(t.skip(1))
    }
}

fn push_markup_escaped(out: &mut String, s: &Vec<char>)
    ensures
        final(out)@ == old(out)@ + markup_escaped(s@),
{
    let mut i: usize = 0;
    assert(s@.take(0) =~= seq![]);
    while i < s.len()
        invariant
            i <= s.len(),
            out@ == old(out)@ + markup_escaped(s@.take(i as int)),
        decreases s.len() - i,
    {
        let c = s[i];
        assert(s@.take(i + 1).drop_last() =~= s@.take(i as int));
        if c == '\\' || c == '[' || c == ']' || c == '*' || c == '_' || c == '`' || c == '#' || c
            == '$' || c == '<' || c == '@' || c == '~' {
            push_char(out, '\\');
            push_char(out, c);
        } else {
            push_char(out, c);
        }
        assert(out@ =~= old(out)@ + markup_escaped(s@.take(i + 1)));
        i += 1;
    }
    assert(s@.take(s.len() as int) =~= s@);
}

fn push_lit_escaped(out: &mut String, s: &Vec<char>)
    ensures
        final(out)@ == old(out)@ + lit_escaped(s@),
{
    let mut i: usize = 0;
    assert(s@.take(0) =~= seq![]);
    while i < s.len()
        invariant
            i <= s.len(),
            out@ == old(out)@ + lit_escaped(s@.take(i as int)),
        decreases s.len() - i,
    {
        let c = s[i];
        assert(s@.take(i + 1).drop_last() =~= s@.take(i as int));
        if c == '\\' {
            push_char(out, '\\');
            push_char(out, '\\');
        } else if c == '"' {
            push_char(out, '\\');
            push_char(out, '"');
        } else if c == '\n' {
            push_char(out, '\\');
            push_char(out, 'n');
        } else if c == '\r' {
            push_char(out, '\\');
            push_char(out, 'r');
        } else if c == '\t' {
            push_char(out, '\\');
            push_char(out, 't');
        } else {
            push_char(out, c);
        }
        assert(out@ =~= old(out)@ + lit_escaped(s@.take(i + 1)));
        i += 1;
    }
    assert(s@.take(s.len() as int) =~= s@);
}

/// Backslash-escapes the characters with a meaning in Typst markup mode.
pub fn escape_markup(s: &str) -> (r: String)
    ensures
        r@ == markup_escaped(s@),
{
    let mut out = String::new();
    push_markup_escaped(&mut out, &chars_of(s));
    out
}

/// Escapes a string for use inside a `"..."` Typst string literal.
pub fn str_lit(s: &str) -> (r: String)
    ensures
        r@ == lit_escaped(s@),
{
    let mut out = String::new();
    push_lit_escaped(&mut out, &chars_of(s));
    out
}

/// The prefix that image URLs relative to the image directory may carry.
pub open spec fn images_prefix() -> Seq<char> {
    seq!['i', 'm', 'a', 'g', 'e', 's', '/']
}

/// An image URL without a leading `images/`.
pub open spec fn image_path(url: Seq<char>) -> Seq<char> {
    match strip_prefix(url, images_prefix()) {
        Some(rest) => rest,
        None => url,
    }
}

/// Removes a leading `images/` from an image URL.
pub fn strip_images_prefix(url: &str) -> (r: String)
    ensures
        r@ == image_path(url@),
{
    string_of(&strip_images_prefix_chars(&chars_of(url)))
}

fn strip_images_prefix_chars(u: &Vec<char>) -> (r: Vec<char>)
    ensures
        r@ == image_path(u@),
{
    let p: Vec<char> = vec!['i', 'm', 'a', 'g', 'e', 's', '/'];
    assert(p@ =~= images_prefix());
    match strip_prefix_chars(u, &p) {
        Some(rest) => rest,
        None => slice(u, 0, u.len()),
    }
}

// ---------------------------------------------------------------------------
// The markup of each kind of node.

/// The text of a node and its descendants: text and inline code only.
pub open spec fn plain_text(n: MdNode) -> Seq<char>
    decreases n,
{
    match n.kind {
        MdKind::Text(t) => t@,
        MdKind::Code(c) => c@,
        _ => plain_texts(n.children@),
    }
}

/// The concatenated [`plain_text`] of a list of nodes.
pub open spec fn plain_texts(cs: Seq<MdNode>) -> Seq<char>
    decreases cs,
{
    if cs.len() == 0 {
        seq![]
    } else {
        plain_texts(cs.drop_last()) + plain_text(cs.last())
    }
}

/// The markup of an inline node.
pub open spec fn inline_typst(n: MdNode) -> Seq<char>
    decreases n,
{
    match n.kind {
        MdKind::Text(t) => markup_escaped(t@),
        MdKind::SoftBreak => " "@,
        MdKind::LineBreak => " \\\n"@,
        MdKind::Code(c) => "#raw(\""@ + lit_escaped(c@) + "\")"@,
        MdKind::HtmlInline => seq![],
        MdKind::Emph => "#emph["@ + inlines_typst(n.children@) + "]"@,
        MdKind::Strong => "#strong["@ + inlines_typst(n.children@) + "]"@,
        MdKind::Strikethrough => "#strike["@ + inlines_typst(n.children@) + "]"@,
        MdKind::Link(url) => "#link(\""@ + lit_escaped(url@) + "\")["@ + inlines_typst(
            n.children@,
        ) + "]"@,
        MdKind::Image(url) => "#image(\"/content/images/"@ + lit_escaped(image_path(url@))
            + "\")"@,
        _ => inlines_typst(n.children@),
    }
}

/// The concatenated [`inline_typst`] of a list of nodes.
pub open spec fn inlines_typst(cs: Seq<MdNode>) -> Seq<char>
    decreases cs,
{
    if cs.len() == 0 {
        seq![]
    } else {
        inlines_typst(cs.drop_last()) + inline_typst(cs.last())
    }
}

/// A paragraph that holds a single image and nothing else.
pub open spec fn is_only_image(n: MdNode) -> bool {
    n.children@.len() == 1 && n.children@[0].kind is Image
}

/// The markup of an image that stands alone in a paragraph: centred, full
/// width, with its text as the alternative text.
pub open spec fn block_image_typst(img: MdNode) -> Seq<char> {
    let url = match img.kind {
        MdKind::Image(u) => u@,
        _ => seq![],
    };
    let alt = plain_texts(img.children@);
    "#align(center)[#image(\"/content/images/"@ + lit_escaped(image_path(url))
        + "\", width: 100%"@ + (if alt.len() > 0 {
        ", alt: \""@ + lit_escaped(alt) + "\""@
    } else {
        seq![]
    }) + ")]\n\n"@
}

/// `c` repeated `n` times.
pub open spec fn repeat(c: char, n: nat) -> Seq<char> {
    Seq::new(n, |i: int| c)
}

/// The first word of a code block's info string, or nothing.
pub open spec fn code_lang(info: Seq<char>) -> Seq<char> {
    if words(info).len() > 0 {
        words(info)[0]
    } else {
        seq![]
    }
}

/// The Typst name of the alignment of column `i`; columns without a stated
/// alignment are left-aligned.
pub open spec fn align_name(aligns: Seq<Align>, i: int) -> Seq<char> {
    if 0 <= i < aligns.len() {
        match aligns[i] {
            Align::Right => "right"@,
            Align::Center => "center"@,
            _ => "left"@,
        }
    } else {
        "left"@
    }
}

/// The alignment names of the first `k` columns, separated by `, `.
pub open spec fn align_names(aligns: Seq<Align>, k: nat) -> Seq<char>
    decreases k,
{
    if k == 0 {
        seq![]
    } else if k == 1 {
        align_name(aligns, 0)
    } else {
        align_names(aligns, (k - 1) as nat) + ", "@ + align_name(aligns, k - 1)
    }
}

/// The markup of the cells of a table row.
pub open spec fn cells_typst(cs: Seq<MdNode>) -> Seq<char>
    decreases cs,
{
    if cs.len() == 0 {
        seq![]
    } else {
        cells_typst(cs.drop_last()) + "  ["@ + inlines_typst(cs.last().children@) + "],\n"@
    }
}

/// The markup of the rows of a table.
pub open spec fn rows_typst(rs: Seq<MdNode>) -> Seq<char>
    decreases rs,
{
    if rs.len() == 0 {
        seq![]
    } else {
        rows_typst(rs.drop_last()) + cells_typst(rs.last().children@)
    }
}

/// The markup of a table: its column count is that of its first row, and a
/// table without rows or columns emits nothing.
pub open spec fn table_typst(rows: Seq<MdNode>, aligns: Seq<Align>) -> Seq<char> {
    if rows.len() == 0 || rows[0].children@.len() == 0 {
        seq![]
    } else {
        let columns = rows[0].children@.len();
        "#table(columns: "@ + decimal(columns) + ", align: ("@ + align_names(aligns, columns)
            + "),\n"@ + rows_typst(rows) + ")\n\n"@
    }
}

/// The markup of a block node.
pub open spec fn block_typst(n: MdNode) -> Seq<char>
    decreases n,
{
    match n.kind {
        MdKind::Document => blocks_typst(n.children@),
        MdKind::Paragraph => if is_only_image(n) {
            block_image_typst(n.children@[0])
        } else {
            inlines_typst(n.children@) + "\n\n"@
        },
        MdKind::Heading(level) => repeat('=', level as nat) + " "@ + inlines_typst(n.children@)
            + "\n\n"@,
        MdKind::List(ordered) => items_typst(n.children@, ordered) + "\n"@,
        MdKind::Item => seq![],
        MdKind::BlockQuote => "#quote(block: true)[\n"@ + blocks_typst(n.children@) + "]\n\n"@,
        MdKind::ThematicBreak => "#align(center)[#line(length: 30%, stroke: 0.5pt + gray)]\n\n"@,
        MdKind::CodeBlock(info, literal) => "#raw(block: true"@ + (if code_lang(info@).len()
            > 0 {
            ", lang: \""@ + lit_escaped(code_lang(info@)) + "\""@
        } else {
            seq![]
        }) + ", \""@ + lit_escaped(literal@) + "\")\n\n"@,
        MdKind::HtmlBlock => seq![],
        MdKind::Table(aligns) => table_typst(n.children@, aligns@),
        _ => blocks_typst(n.children@),
    }
}

/// The concatenated [`block_typst`] of a list of nodes.
pub open spec fn blocks_typst(cs: Seq<MdNode>) -> Seq<char>
    decreases cs,
{
    if cs.len() == 0 {
        seq![]
    } else {
        blocks_typst(cs.drop_last()) + block_typst(cs.last())
    }
}

/// The markup of a list item: a marker, its content, and a line end.
pub open spec fn item_typst(item: MdNode, ordered: bool) -> Seq<char>
    decreases item,
{
    (if ordered {
        "+ "@
    } else {
        "- "@
    }) + item_parts_typst(item.children@) + "\n"@
}

/// The markup of the items of a list.
pub open spec fn items_typst(cs: Seq<MdNode>, ordered: bool) -> Seq<char>
    decreases cs,
{
    if cs.len() == 0 {
        seq![]
    } else {
        items_typst(cs.drop_last(), ordered) + item_typst(cs.last(), ordered)
    }
}

/// The markup of the items of a list nested in a list item: each indented.
pub open spec fn nested_items_typst(cs: Seq<MdNode>, ordered: bool) -> Seq<char>
    decreases cs,
{
    if cs.len() == 0 {
        seq![]
    } else {
        nested_items_typst(cs.drop_last(), ordered) + "  "@ + item_typst(cs.last(), ordered)
    }
}

/// The markup of the content of a list item: paragraphs inline, nested lists
/// on a new line, anything else as a block.
pub open spec fn item_parts_typst(cs: Seq<MdNode>) -> Seq<char>
    decreases cs,
{
    if cs.len() == 0 {
        seq![]
    } else {
        let c = cs.last();
        item_parts_typst(cs.drop_last()) + match c.kind {
            MdKind::Paragraph => inlines_typst(c.children@),
            MdKind::List(ordered) => "\n"@ + nested_items_typst(c.children@, ordered),
            _ => block_typst(c),
        }
    }
}

// ---------------------------------------------------------------------------
// Emitting the markup.

/// Appends the text of a node and its descendants (text and inline code).
pub fn collect_text(node: &MdNode, buf: &mut String)
    ensures
        final(buf)@ == old(buf)@ + plain_text(*node),
    decreases node,
{
    match &node.kind {
        MdKind::Text(t) => push_str(buf, t.as_str()),
        MdKind::Code(c) => push_str(buf, c.as_str()),
        _ => collect_texts(&node.children, buf),
    }
}

fn collect_texts(cs: &Vec<MdNode>, buf: &mut String)
    ensures
        final(buf)@ == old(buf)@ + plain_texts(cs@),
    decreases cs,
{
    let mut i: usize = 0;
    assert(cs@.take(0) =~= seq![]);
    while i < cs.len()
        invariant
            i <= cs.len(),
            buf@ == old(buf)@ + plain_texts(cs@.take(i as int)),
        decreases cs.len() - i,
    {
        assert(cs@.take(i + 1).drop_last() =~= cs@.take(i as int));
        collect_text(&cs[i], buf);
        assert(buf@ =~= old(buf)@ + plain_texts(cs@.take(i + 1)));
        i += 1;
    }
    assert(cs@.take(cs.len() as int) =~= cs@);
}

/// Appends the inline markup of the children of `node` between `open` and
/// `close`.
pub fn wrap_inline(node: &MdNode, open: &str, close: &str, out: &mut String)
    ensures
        final(out)@ == old(out)@ + open@ + inlines_typst(node.children@) + close@,
    decreases node, 1nat,
{
    push_str(out, open);
    render_inlines(&node.children, out);
    push_str(out, close);
}

/// Appends the markup of an inline node.
pub fn render_inline(node: &MdNode, out: &mut String)
    ensures
        final(out)@ == old(out)@ + inline_typst(*node),
    decreases node, 2nat,
{
    match &node.kind {
        MdKind::Text(t) => push_markup_escaped(out, &chars_of(t.as_str())),
        MdKind::SoftBreak => push_str(out, " "),
        MdKind::LineBreak => push_str(out, " \\\n"),
        MdKind::Code(c) => {
            push_str(out, "#raw(\"");
            push_lit_escaped(out, &chars_of(c.as_str()));
            push_str(out, "\")");
        },
        MdKind::HtmlInline => {},
        MdKind::Emph => wrap_inline(node, "#emph[", "]", out),
        MdKind::Strong => wrap_inline(node, "#strong[", "]", out),
        MdKind::Strikethrough => wrap_inline(node, "#strike[", "]", out),
        MdKind::Link(url) => {
            push_str(out, "#link(\"");
            push_lit_escaped(out, &chars_of(url.as_str()));
            push_str(out, "\")[");
            render_inlines(&node.children, out);
            push_char(out, ']');
            assert("]"@ =~= seq![']']) by { reveal_strlit("]"); }
        },
        MdKind::Image(url) => {
            push_str(out, "#image(\"/content/images/");
            push_lit_escaped(out, &strip_images_prefix_chars(&chars_of(url.as_str())));
            push_str(out, "\")");
        },
        _ => render_inlines(&node.children, out),
    }
}

fn render_inlines(cs: &Vec<MdNode>, out: &mut String)
    ensures
        final(out)@ == old(out)@ + inlines_typst(cs@),
    decreases cs, 0nat,
{
    let mut i: usize = 0;
    assert(cs@.take(0) =~= seq![]);
    while i < cs.len()
        invariant
            i <= cs.len(),
            out@ == old(out)@ + inlines_typst(cs@.take(i as int)),
        decreases cs.len() - i,
    {
        assert(cs@.take(i + 1).drop_last() =~= cs@.take(i as int));
        render_inline(&cs[i], out);
        assert(out@ =~= old(out)@ + inlines_typst(cs@.take(i + 1)));
        i += 1;
    }
    assert(cs@.take(cs.len() as int) =~= cs@);
}

/// `true` when a paragraph holds a single image and nothing else.
pub fn is_paragraph_only_image(para: &MdNode) -> (r: bool)
    ensures
        r == is_only_image(*para),
{
    if para.children.len() != 1 {
        return false;
    }
    match &para.children[0].kind {
        MdKind::Image(_) => true,
        _ => false,
    }
}

/// Appends the markup of an image that stands alone in a paragraph.
pub fn emit_block_image(img: &MdNode, out: &mut String)
    requires
        img.kind is Image,
    ensures
        final(out)@ == old(out)@ + block_image_typst(*img),
{
    let url = match &img.kind {
        MdKind::Image(u) => strip_images_prefix_chars(&chars_of(u.as_str())),
        _ => Vec::new(),
    };
    let mut alt = String::new();
    collect_texts(&img.children, &mut alt);
    let alt_chars = chars_of(alt.as_str());
    push_str(out, "#align(center)[#image(\"/content/images/");
    push_lit_escaped(out, &url);
    push_str(out, "\", width: 100%");
    if alt_chars.len() > 0 {
        push_str(out, ", alt: \"");
        push_lit_escaped(out, &alt_chars);
        push_str(out, "\"");
    }
    push_str(out, ")]\n\n");
    assert(out@ =~= old(out)@ + block_image_typst(*img));
}

fn push_repeat(out: &mut String, c: char, n: u8)
    ensures
        final(out)@ == old(out)@ + repeat(c, n as nat),
{
    let mut i: u8 = 0;
    while i < n
        invariant
            i <= n,
            out@ == old(out)@ + repeat(c, i as nat),
        decreases n - i,
    {
        push_char(out, c);
        assert(repeat(c, i as nat).push(c) =~= repeat(c, (i + 1) as nat));
        i += 1;
    }
}

fn push_align_name(out: &mut String, aligns: &Vec<Align>, i: usize)
    ensures
        final(out)@ == old(out)@ + align_name(aligns@, i as int),
{
    if i < aligns.len() {
        match &aligns[i] {
            Align::Right => push_str(out, "right"),
            Align::Center => push_str(out, "center"),
            _ => push_str(out, "left"),
        }
    } else {
        push_str(out, "left");
    }
}

/// Appends the markup of a table whose rows are `rows`.
pub fn emit_table(rows: &Vec<MdNode>, alignments: &Vec<Align>, out: &mut String)
    ensures
        final(out)@ == old(out)@ + table_typst(rows@, alignments@),
{
    if rows.len() == 0 {
        return;
    }
    let columns = rows[0].children.len();
    if columns == 0 {
        return;
    }
    push_str(out, "#table(columns: ");
    push_decimal(out, columns);
    push_str(out, ", align: (");
    let ghost mid = out@;
    let mut i: usize = 0;
    while i < columns
        invariant
            i <= columns,
            out@ == mid + align_names(alignments@, i as nat),
        decreases columns - i,
    {
        if i > 0 {
            push_str(out, ", ");
        }
        push_align_name(out, alignments, i);
        assert(out@ =~= mid + align_names(alignments@, (i + 1) as nat));
        i += 1;
    }
    push_str(out, "),\n");
    let ghost mid2 = out@;
    let mut r: usize = 0;
    assert(rows@.take(0) =~= seq![]);
    while r < rows.len()
        invariant
            r <= rows.len(),
            out@ == mid2 + rows_typst(rows@.take(r as int)),
        decreases rows.len() - r,
    {
        assert(rows@.take(r + 1).drop_last() =~= rows@.take(r as int));
        let row = &rows[r];
        let ghost mid3 = out@;
        let mut c: usize = 0;
        assert(row.children@.take(0) =~= seq![]);
        while c < row.children.len()
            invariant
                c <= row.children.len(),
                out@ == mid3 + cells_typst(row.children@.take(c as int)),
            decreases row.children.len() - c,
        {
            assert(row.children@.take(c + 1).drop_last() =~= row.children@.take(c as int));
            push_str(out, "  [");
            render_inlines(&row.children[c].children, out);
            push_str(out, "],\n");
            assert(out@ =~= mid3 + cells_typst(row.children@.take(c + 1)));
            c += 1;
        }
        assert(row.children@.take(row.children.len() as int) =~= row.children@);
        assert(out@ =~= mid2 + rows_typst(rows@.take(r + 1)));
        r += 1;
    }
    assert(rows@.take(rows.len() as int) =~= rows@);
    push_str(out, ")\n\n");
    assert(out@ =~= old(out)@ + table_typst(rows@, alignments@));
}

/// Appends the markup of a block node.
pub fn render_block(node: &MdNode, out: &mut String)
    ensures
        final(out)@ == old(out)@ + block_typst(*node),
    decreases node, 3nat,
{
    match &node.kind {
        MdKind::Document => render_blocks(&node.children, out),
        MdKind::Paragraph => {
            if is_paragraph_only_image(node) {
                emit_block_image(&node.children[0], out);
            } else {
                render_inlines(&node.children, out);
                push_str(out, "\n\n");
            }
        },
        MdKind::Heading(level) => {
            push_repeat(out, '=', *level);
            push_char(out, ' ');
            assert(" "@ =~= seq![' ']) by { reveal_strlit(" "); }
            render_inlines(&node.children, out);
            push_str(out, "\n\n");
        },
        MdKind::List(ordered) => {
            emit_items(&node.children, *ordered, out);
            push_str(out, "\n");
        },
        MdKind::Item => {},
        MdKind::BlockQuote => {
            push_str(out, "#quote(block: true)[\n");
            render_blocks(&node.children, out);
            push_str(out, "]\n\n");
        },
        MdKind::ThematicBreak => push_str(
            out,
            "#align(center)[#line(length: 30%, stroke: 0.5pt + gray)]\n\n",
        ),
        MdKind::CodeBlock(info, literal) => {
            let ws = words_of(&chars_of(info.as_str()));
            push_str(out, "#raw(block: true");
            if ws.len() > 0 && ws[0].len() > 0 {
                push_str(out, ", lang: \"");
                push_lit_escaped(out, &ws[0]);
                push_char(out, '"');
                assert("\""@ =~= seq!['"']) by { reveal_strlit("\""); }
            }
            push_str(out, ", \"");
            push_lit_escaped(out, &chars_of(literal.as_str()));
            push_str(out, "\")\n\n");
        },
        MdKind::HtmlBlock => {},
        MdKind::Table(alignments) => emit_table(&node.children, alignments, out),
        _ => render_blocks(&node.children, out),
    }
}

fn render_blocks(cs: &Vec<MdNode>, out: &mut String)
    ensures
        final(out)@ == old(out)@ + blocks_typst(cs@),
    decreases cs, 0nat,
{
    let mut i: usize = 0;
    assert(cs@.take(0) =~= seq![]);
    while i < cs.len()
        invariant
            i <= cs.len(),
            out@ == old(out)@ + blocks_typst(cs@.take(i as int)),
        decreases cs.len() - i,
    {
        assert(cs@.take(i + 1).drop_last() =~= cs@.take(i as int));
        render_block(&cs[i], out);
        assert(out@ =~= old(out)@ + blocks_typst(cs@.take(i + 1)));
        i += 1;
    }
    assert(cs@.take(cs.len() as int) =~= cs@);
}

/// Appends the markup of a list item.
pub fn emit_list_item(item: &MdNode, ordered: bool, out: &mut String)
    ensures
        final(out)@ == old(out)@ + item_typst(*item, ordered),
    decreases item, 2nat,
{
    if ordered {
        push_str(out, "+ ");
    } else {
        push_str(out, "- ");
    }
    emit_item_parts(&item.children, out);
    push_str(out, "\n");
}

fn emit_items(cs: &Vec<MdNode>, ordered: bool, out: &mut String)
    ensures
        final(out)@ == old(out)@ + items_typst(cs@, ordered),
    decreases cs, 0nat,
{
    let mut i: usize = 0;
    assert(cs@.take(0) =~= seq![]);
    while i < cs.len()
        invariant
            i <= cs.len(),
            out@ == old(out)@ + items_typst(cs@.take(i as int), ordered),
        decreases cs.len() - i,
    {
        assert(cs@.take(i + 1).drop_last() =~= cs@.take(i as int));
        emit_list_item(&cs[i], ordered, out);
        assert(out@ =~= old(out)@ + items_typst(cs@.take(i + 1), ordered));
        i += 1;
    }
    assert(cs@.take(cs.len() as int) =~= cs@);
}

fn emit_nested_items(cs: &Vec<MdNode>, ordered: bool, out: &mut String)
    ensures
        final(out)@ == old(out)@ + nested_items_typst(cs@, ordered),
    decreases cs, 0nat,
{
    let mut i: usize = 0;
    assert(cs@.take(0) =~= seq![]);
    while i < cs.len()
        invariant
            i <= cs.len(),
            out@ == old(out)@ + nested_items_typst(cs@.take(i as int), ordered),
        decreases cs.len() - i,
    {
        assert(cs@.take(i + 1).drop_last() =~= cs@.take(i as int));
        push_str(out, "  ");
        emit_list_item(&cs[i], ordered, out);
        assert(out@ =~= old(out)@ + nested_items_typst(cs@.take(i + 1), ordered));
        i += 1;
    }
    assert(cs@.take(cs.len() as int) =~= cs@);
}

fn emit_item_parts(cs: &Vec<MdNode>, out: &mut String)
    ensures
        final(out)@ == old(out)@ + item_parts_typst(cs@),
    decreases cs, 0nat,
{
    let mut i: usize = 0;
    assert(cs@.take(0) =~= seq![]);
    while i < cs.len()
        invariant
            i <= cs.len(),
            out@ == old(out)@ + item_parts_typst(cs@.take(i as int)),
        decreases cs.len() - i,
    {
        assert(cs@.take(i + 1).drop_last() =~= cs@.take(i as int));
        let child = &cs[i];
        match &child.kind {
            MdKind::Paragraph => render_inlines(&child.children, out),
            MdKind::List(nested_ordered) => {
                push_str(out, "\n");
                emit_nested_items(&child.children, *nested_ordered, out);
            },
            _ => render_block(child, out),
        }
        assert(out@ =~= old(out)@ + item_parts_typst(cs@.take(i + 1)));
        i += 1;
    }
    assert(cs@.take(cs.len() as int) =~= cs@);
}

/// Converts a Markdown source to the Typst markup of its body.
pub fn typst_from_markdown(md: &str) -> (r: String)
    ensures
        r@ == block_typst(markdown_tree(md@)),
{
    let root = parse_markdown(md);
    let mut out = String::new();
    render_block(&root, &mut out);
    out
}

// ---------------------------------------------------------------------------
// The Typst document of a post.

/// A tag as a Typst string literal.
pub open spec fn quoted(t: Seq<char>) -> Seq<char> {
    "\""@ + lit_escaped(t) + "\""@
}

/// The tags as the items of a Typst array, separated by `, `.
pub open spec fn tag_items(tags: Seq<Seq<char>>) -> Seq<char>
    decreases tags.len(),
{
    if tags.len() == 0 {
        seq![]
    } else if tags.len() == 1 {
        quoted(tags[0])
    } else {
        tag_items(tags.drop_last()) + ", "@ + quoted(tags.last())
    }
}

/// The Typst source of a post: a call of the `render` function of the
/// `blog_post.typ` template with the post's fields and its Typst body.  A
/// single tag gets a trailing comma so that Typst reads an array.
pub open spec fn post_source(p: PostView) -> Seq<char> {
    "#import \"/templates/blog_post.typ\": render\n"@ + "#render(\n"@
        + "  title: \""@ + lit_escaped(p.title) + "\",\n"@
        + "  date: \""@ + lit_escaped(p.date) + "\",\n"@
        + "  read_time: "@ + decimal(p.read_time) + ",\n"@
        + "  tags: ("@ + tag_items(p.tags) + (if p.tags.len() == 1 { ","@ } else { seq![] }) + "),\n"@
        + "  description: \""@ + lit_escaped(p.description) + "\",\n"@
        + (if p.cover_image.len() == 0 {
            "  cover_image: none,\n"@
        } else {
            "  cover_image: \"/content/images/"@ + lit_escaped(p.cover_image) + "\",\n"@
        })
        + "  body: [\n"@ + p.body_typst + "\n  ],\n)\n"@
}

/// Wraps a post's Typst body in a call of the `blog_post.typ` template.
pub fn build_source(post: &Post) -> (r: String)
    ensures
        r@ == post_source(post@),
{
    let mut s = String::new();
    push_str(&mut s, "#import \"/templates/blog_post.typ\": render\n");
    push_str(&mut s, "#render(\n");
    push_str(&mut s, "  title: \"");
    push_lit_escaped(&mut s, &chars_of(post.title.as_str()));
    push_str(&mut s, "\",\n");
    push_str(&mut s, "  date: \"");
    push_lit_escaped(&mut s, &chars_of(post.date.as_str()));
    push_str(&mut s, "\",\n");
    push_str(&mut s, "  read_time: ");
    push_decimal(&mut s, post.read_time);
    push_str(&mut s, ",\n");
    push_str(&mut s, "  tags: (");
    let ghost start = s@;
    let ghost tv = post@.tags;
    let mut i: usize = 0;
    assert(tv.take(0) =~= seq![]);
    while i < post.tags.len()
        invariant
            i <= post.tags.len(),
            tv == post@.tags,
            s@ == start + tag_items(tv.take(i as int)),
        decreases post.tags.len() - i,
    {
        assert(tv.take(i + 1).drop_last() =~= tv.take(i as int));
        assert(tv[i as int] == post.tags@[i as int]@);
        if i > 0 {
            push_str(&mut s, ", ");
        }
        push_str(&mut s, "\"");
        push_lit_escaped(&mut s, &chars_of(post.tags[i].as_str()));
        push_str(&mut s, "\"");
        assert(s@ =~= start + tag_items(tv.take(i + 1)));
        i += 1;
    }
    assert(tv.take(post.tags.len() as int) =~= tv);
    if post.tags.len() == 1 {
        push_str(&mut s, ",");
    }
    push_str(&mut s, "),\n");
    push_str(&mut s, "  description: \"");
    push_lit_escaped(&mut s, &chars_of(post.description.as_str()));
    push_str(&mut s, "\",\n");
    if post.cover_image.as_str().is_empty() {
        push_str(&mut s, "  cover_image: none,\n");
    } else {
        push_str(&mut s, "  cover_image: \"/content/images/");
        push_lit_escaped(&mut s, &chars_of(post.cover_image.as_str()));
        push_str(&mut s, "\",\n");
    }
    push_str(&mut s, "  body: [\n");
    push_str(&mut s, post.body_typst.as_str());
    push_str(&mut s, "\n  ],\n)\n");
    assert(s@ =~= post_source(post@));
    s
}

// ---------------------------------------------------------------------------
// Diagnostics and file access of the Typst compiler.

/// A message of the Typst compiler with its hints.
pub struct Diagnostic {
    pub message: String,
    pub hints: Vec<String>,
}

/// The hints of a message, each on a line of its own after `  hint: `.
pub open spec fn hint_lines(hints: Seq<String>) -> Seq<char>
    decreases hints.len(),
{
    if hints.len() == 0 {
        seq![]
    } else {
        hint_lines(hints.drop_last()) + "\n  hint: "@ + hints.last()@
    }
}

/// The messages with their hints, a line break between two messages (none
/// before a message while nothing has been written yet).
pub open spec fn diagnostics_text(errs: Seq<Diagnostic>) -> Seq<char>
    decreases errs.len(),
{
    if errs.len() == 0 {
        seq![]
    } else {
        let s = diagnostics_text(errs.drop_last());
        let e = errs.last();
        (if s.len() > 0 { s + "\n"@ } else { s }) + e.message@ + hint_lines(e.hints@)
    }
}

/// The error text for the messages of a stage of the Typst compiler:
/// `typst <stage>: ` and the messages.
pub fn format_diagnostics(stage: &str, errs: &Vec<Diagnostic>) -> (r: String)
    ensures
        r@ == "typst "@ + stage@ + ": "@ + diagnostics_text(errs@),
{
    let mut s = String::new();
    let mut i: usize = 0;
    assert(errs@.take(0) =~= seq![]);
    while i < errs.len()
        invariant
            i <= errs.len(),
            s@ == diagnostics_text(errs@.take(i as int)),
        decreases errs.len() - i,
    {
        assert(errs@.take(i + 1).drop_last() =~= errs@.take(i as int));
        let e = &errs[i];
        if !s.as_str().is_empty() {
            push_str(&mut s, "\n");
        }
        push_str(&mut s, e.message.as_str());
        let ghost mid = s@;
        let mut j: usize = 0;
        assert(e.hints@.take(0) =~= seq![]);
        while j < e.hints.len()
            invariant
                j <= e.hints.len(),
                s@ == mid + hint_lines(e.hints@.take(j as int)),
            decreases e.hints.len() - j,
        {
            assert(e.hints@.take(j + 1).drop_last() =~= e.hints@.take(j as int));
            push_str(&mut s, "\n  hint: ");
            push_str(&mut s, e.hints[j].as_str());
            assert(s@ =~= mid + hint_lines(e.hints@.take(j + 1)));
            j += 1;
        }
        assert(e.hints@.take(e.hints.len() as int) =~= e.hints@);
        assert(s@ =~= diagnostics_text(errs@.take(i + 1)));
        i += 1;
    }
    assert(errs@.take(errs.len() as int) =~= errs@);
    let mut out = String::new();
    push_str(&mut out, "typst ");
    push_str(&mut out, stage);
    push_str(&mut out, ": ");
    push_str(&mut out, s.as_str());
    out
}

/// A path lies within a root when the root's components begin its own
/// (`Path::starts_with`); both are given by their components after
/// canonicalization.
pub fn path_within(path: &Vec<String>, root: &Vec<String>) -> (r: bool)
    ensures
        r == (root.len() <= path.len() && forall|i: int| 0 <= i < root.len() ==> path@[i]@ == root@[i]@),
{
    if root.len() > path.len() {
        return false;
    }
    let mut i: usize = 0;
    while i < root.len()
        invariant
            i <= root.len() <= path.len(),
            forall|j: int| 0 <= j < i ==> path@[j]@ == root@[j]@,
        decreases root.len() - i,
    {
        if path[i] != root[i] {
            return false;
        }
        i += 1;
    }
    true
}

} // verus!
