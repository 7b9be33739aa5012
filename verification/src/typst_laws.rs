//! What the Typst markup of a post means when Typst reads it back: text of
//! the document stays text, and every field placed in a string literal reads
//! back as the field.
use vstd::prelude::*;
use crate::markdown::{MdKind, MdNode};
use crate::pdf::{
    block_typst, code_lang, image_path, inline_typst, inlines_typst, is_only_image, lit_escape_char, lit_escaped,
    lit_unescape_char, lit_unescaped, markup_escape_char, markup_escaped, post_source,
    tag_items,
};
use crate::posts::PostView;
use crate::text::decimal;

verus! {

/// The characters that have a meaning in Typst markup mode.
pub open spec fn markup_special(c: char) -> bool {
    c == '\\' || c == '[' || c == ']' || c == '*' || c == '_' || c == '`' || c == '#' || c == '$'
        || c == '<' || c == '@' || c == '~'
}

/// Markup that Typst reads as plain text: every special character is
/// preceded by a backslash, and every backslash escapes a special character.
pub open spec fn markup_plain(u: Seq<char>) -> bool
    decreases u.len(),
{
    if u.len() == 0 {
        true
    } else if u[0] == '\\' {
        u.len() >= 2 && markup_special(u[1]) && markup_plain(u.skip(2))
    } else {
        !markup_special(u[0]) && markup_plain(u.skip(1))
    }
}

/// The text that Typst reads from plain-text markup: a backslash and the
/// character after it stand for that character.
pub open spec fn markup_read(u: Seq<char>) -> Seq<char>
    decreases u.len(),
{
    if u.len() == 0 {
        seq![]
    } else if u[0] == '\\' && u.len() >= 2 {
        seq![u[1]] + markup_read(u.skip(2))
    } else {
        seq![u[0]] + markup_read(u.skip(1))
    }
}

/// A body of a Typst string literal that ends nowhere before its closing
/// quote and holds no raw line break, return or tab: every backslash starts
/// one of the escapes `\\`, `\"`, `\n`, `\r`, `\t`.
pub open spec fn lit_closed(u: Seq<char>) -> bool
    decreases u.len(),
{
    if u.len() == 0 {
        true
    } else if u[0] == '\\' {
        u.len() >= 2 && (u[1] == '\\' || u[1] == '"' || u[1] == 'n' || u[1] == 'r' || u[1]
            == 't') && lit_closed(u.skip(2))
    } else {
        u[0] != '"' && u[0] != '\n' && u[0] != '\r' && u[0] != '\t' && lit_closed(u.skip(1))
    }
}

/// `u` is a string literal body that Typst reads as `s`.
pub open spec fn reads_as(u: Seq<char>, s: Seq<char>) -> bool {
    lit_closed(u) && lit_unescaped(u) == s
}

proof fn lemma_markup_escaped_concat(a: Seq<char>, b: Seq<char>)
    ensures
        markup_escaped(a + b) == markup_escaped(a) + markup_escaped(b),
    decreases b.len(),
{
    if b.len() == 0 {
        assert(a + b =~= a);
        assert(markup_escaped(a) + markup_escaped(b) =~= markup_escaped(a));
    } else {
        assert((a + b).drop_last() =~= a + b.drop_last());
        assert((a + b).last() == b.last());
        lemma_markup_escaped_concat(a, b.drop_last());
        assert(markup_escaped(a) + markup_escaped(b) =~= markup_escaped(a) + markup_escaped(
            b.drop_last(),
        ) + markup_escape_char(b.last()));
    }
}

proof fn lemma_markup_escaped_front(s: Seq<char>)
    requires
        s.len() > 0,
    ensures
        markup_escaped(s) == markup_escape_char(s[0]) + markup_escaped(s.drop_first()),
{
    let c = s[0];
    assert(s =~= seq![c] + s.drop_first());
    lemma_markup_escaped_concat(seq![c], s.drop_first());
    assert(seq![c].drop_last() =~= Seq::<char>::empty());
    assert(seq![c].last() == c);
    assert(markup_escaped(Seq::<char>::empty()) =~= Seq::<char>::empty());
    assert(markup_escaped(seq![c]) =~= markup_escape_char(c));
}

/// Escaped text is plain-text markup that reads back as the text.
pub proof fn lemma_escaped_text_reads_back(s: Seq<char>)
    ensures
        markup_plain(markup_escaped(s)),
        markup_read(markup_escaped(s)) == s,
    decreases s.len(),
{
    if s.len() == 0 {
        assert(markup_escaped(s) =~= Seq::<char>::empty());
    } else {
        let c = s[0];
        let rest = s.drop_first();
        lemma_markup_escaped_front(s);
        lemma_escaped_text_reads_back(rest);
        let r = markup_escaped(rest);
        let t = markup_escape_char(c) + r;
        if markup_special(c) {
            assert(t[0] == '\\' && t[1] == c);
            assert(t.skip(2) =~= r);
        } else {
            assert(t[0] == c);
            assert(t.skip(1) =~= r);
        }
        assert(seq![c] + rest =~= s);
    }
}

/// The text of a document reaches the Typst markup as plain text: the markup
/// of a text node is read by Typst as exactly that text, with no character
/// left to start code, emphasis, a label or a reference; and a paragraph of
/// one text node is that markup followed by a blank line.
pub proof fn lemma_text_stays_text(n: MdNode, p: MdNode)
    requires
        n.kind is Text,
        p.kind is Paragraph,
        p.children@.len() == 1,
        p.children@[0].kind is Text,
    ensures
        markup_plain(inline_typst(n)),
        n.kind matches MdKind::Text(t) && markup_read(inline_typst(n)) == t@,
        p.children@[0].kind matches MdKind::Text(t) && exists|u: Seq<char>|
            #[trigger] markup_plain(u) && markup_read(u) == t@ && block_typst(p) == u + "\n\n"@,
{
    if let MdKind::Text(t) = n.kind {
        lemma_escaped_text_reads_back(t@);
    }
    let c = p.children@[0];
    if let MdKind::Text(t) = c.kind {
        lemma_escaped_text_reads_back(t@);
        assert(!is_only_image(p));
        assert(p.children@.drop_last() =~= Seq::<MdNode>::empty());
        assert(inlines_typst(Seq::<MdNode>::empty()) =~= Seq::<char>::empty());
        assert(inlines_typst(p.children@) =~= inline_typst(c));
        let u = markup_escaped(t@);
        assert(markup_plain(u) && markup_read(u) == t@ && block_typst(p) == u + "\n\n"@);
    }
}

proof fn lemma_lit_escaped_concat(a: Seq<char>, b: Seq<char>)
    ensures
        lit_escaped(a + b) == lit_escaped(a) + lit_escaped(b),
    decreases b.len(),
{
    if b.len() == 0 {
        assert(a + b =~= a);
        assert(lit_escaped(a) + lit_escaped(b) =~= lit_escaped(a));
    } else {
        assert((a + b).drop_last() =~= a + b.drop_last());
        assert((a + b).last() == b.last());
        lemma_lit_escaped_concat(a, b.drop_last());
        assert(lit_escaped(a) + lit_escaped(b) =~= lit_escaped(a) + lit_escaped(b.drop_last())
            + lit_escape_char(b.last()));
    }
}

/// An escaped string is a closed literal body that Typst reads as the string.
pub proof fn lemma_escaped_literal_reads_back(s: Seq<char>)
    ensures
        reads_as(lit_escaped(s), s),
    decreases s.len(),
{
    if s.len() == 0 {
        assert(lit_escaped(s) =~= Seq::<char>::empty());
        assert(lit_unescaped(lit_escaped(s)) =~= s);
    } else {
        let c = s[0];
        let rest = s.drop_first();
        assert(s =~= seq![c] + rest);
        lemma_lit_escaped_concat(seq![c], rest);
        assert(seq![c].drop_last() =~= Seq::<char>::empty());
        assert(seq![c].last() == c);
        assert(lit_escaped(Seq::<char>::empty()) =~= Seq::<char>::empty());
        assert(lit_escaped(seq![c]) =~= lit_escape_char(c));
        lemma_escaped_literal_reads_back(rest);
        let r = lit_escaped(rest);
        let t = lit_escape_char(c) + r;
        if c == '\\' || c == '"' || c == '\n' || c == '\r' || c == '\t' {
            assert(t[0] == '\\' && t.len() >= 2);
            assert(t.skip(2) =~= r);
            assert(t[1] == '\\' || t[1] == '"' || t[1] == 'n' || t[1] == 'r' || t[1] == 't');
            assert(lit_unescape_char(t[1]) == c);
            assert(lit_closed(t));
            assert(lit_unescaped(t) == seq![c] + lit_unescaped(r));
        } else {
            assert(t[0] == c);
            assert(t.skip(1) =~= r);
            assert(lit_closed(t));
            assert(lit_unescaped(t) == seq![c] + lit_unescaped(r));
        }
        assert(lit_escaped(s) == t);
        assert(seq![c] + rest =~= s);
        assert(lit_unescaped(t) =~= s);
    }
}

/// String literals separated by `, `: the items of a Typst array.
pub open spec fn literal_items(us: Seq<Seq<char>>) -> Seq<char>
    decreases us.len(),
{
    if us.len() == 0 {
        seq![]
    } else if us.len() == 1 {
        "\""@ + us[0] + "\""@
    } else {
        literal_items(us.drop_last()) + ", "@ + "\""@ + us.last() + "\""@
    }
}

/// The Typst source of a post with the literal bodies `ut`, `ud`, `us`,
/// `ude`, `uc` for its title, date, tags, description and cover image, each
/// of which Typst reads as the field itself.
pub open spec fn source_reads_back(
    p: PostView,
    src: Seq<char>,
    ut: Seq<char>,
    ud: Seq<char>,
    us: Seq<Seq<char>>,
    ude: Seq<char>,
    uc: Seq<char>,
) -> bool {
    &&& reads_as(ut, p.title)
    &&& reads_as(ud, p.date)
    &&& reads_as(ude, p.description)
    &&& us.len() == p.tags.len()
    &&& forall|i: int| 0 <= i < us.len() ==> reads_as(#[trigger] us[i], p.tags[i])
    &&& p.cover_image.len() > 0 ==> reads_as(uc, p.cover_image)
    &&& src == "#import \"/templates/blog_post.typ\": render\n"@ + "#render(\n"@ + "  title: \""@ + ut
        + "\",\n"@ + "  date: \""@ + ud + "\",\n"@ + "  read_time: "@ + decimal(p.read_time)
        + ",\n"@ + "  tags: ("@ + literal_items(us) + (if us.len() == 1 {
        ","@
    } else {
        seq![]
    }) + "),\n"@ + "  description: \""@ + ude + "\",\n"@ + (if p.cover_image.len() == 0 {
        "  cover_image: none,\n"@
    } else {
        "  cover_image: \"/content/images/"@ + uc + "\",\n"@
    }) + "  body: [\n"@ + p.body_typst + "\n  ],\n)\n"@
}

proof fn lemma_tag_items_literals(tags: Seq<Seq<char>>)
    ensures
        tag_items(tags) == literal_items(tags.map_values(|t: Seq<char>| lit_escaped(t))),
    decreases tags.len(),
{
    let us = tags.map_values(|t: Seq<char>| lit_escaped(t));
    if tags.len() >= 2 {
        lemma_tag_items_literals(tags.drop_last());
        assert(us.drop_last() =~= tags.drop_last().map_values(|t: Seq<char>| lit_escaped(t)));
        assert(us.last() == lit_escaped(tags.last()));
    } else if tags.len() == 1 {
        assert(us[0] == lit_escaped(tags[0]));
    }
}

/// Every field that the Typst source of a post places in a string literal
/// is read back by Typst as that field: the title, date, each tag, the
/// description and the cover image, each in a literal that nothing in the
/// field can close early.
pub proof fn lemma_source_fields_read_back(p: PostView)
    ensures
        exists|ut: Seq<char>, ud: Seq<char>, us: Seq<Seq<char>>, ude: Seq<char>, uc: Seq<char>|
            #[trigger] source_reads_back(p, post_source(p), ut, ud, us, ude, uc),
{
    let ut = lit_escaped(p.title);
    let ud = lit_escaped(p.date);
    let ude = lit_escaped(p.description);
    let uc = lit_escaped(p.cover_image);
    let us = p.tags.map_values(|t: Seq<char>| lit_escaped(t));
    lemma_escaped_literal_reads_back(p.title);
    lemma_escaped_literal_reads_back(p.date);
    lemma_escaped_literal_reads_back(p.description);
    lemma_escaped_literal_reads_back(p.cover_image);
    assert forall|i: int| 0 <= i < us.len() implies reads_as(#[trigger] us[i], p.tags[i]) by {
        lemma_escaped_literal_reads_back(p.tags[i]);
    }
    lemma_tag_items_literals(p.tags);
    assert(post_source(p) =~= "#import \"/templates/blog_post.typ\": render\n"@ + "#render(\n"@
        + "  title: \""@ + ut + "\",\n"@ + "  date: \""@ + ud + "\",\n"@ + "  read_time: "@
        + decimal(p.read_time) + ",\n"@ + "  tags: ("@ + literal_items(us) + (if us.len() == 1 {
        ","@
    } else {
        seq![]
    }) + "),\n"@ + "  description: \""@ + ude + "\",\n"@ + (if p.cover_image.len() == 0 {
        "  cover_image: none,\n"@
    } else {
        "  cover_image: \"/content/images/"@ + uc + "\",\n"@
    }) + "  body: [\n"@ + p.body_typst + "\n  ],\n)\n"@);
    assert(source_reads_back(p, post_source(p), ut, ud, us, ude, uc));
}

/// Code, link addresses, image paths and code blocks reach the Typst markup
/// inside string literals that Typst reads back as exactly the code, the
/// address, the image path and the block's text.
pub proof fn lemma_literals_read_back(n: MdNode)
    ensures
        n.kind matches MdKind::Code(c) ==> exists|u: Seq<char>|
            #[trigger] reads_as(u, c@) && inline_typst(n) == "#raw(\""@ + u + "\")"@,
        n.kind matches MdKind::Link(url) ==> exists|u: Seq<char>|
            #[trigger] reads_as(u, url@) && inline_typst(n) == "#link(\""@ + u + "\")["@
                + inlines_typst(n.children@) + "]"@,
        n.kind matches MdKind::Image(url) ==> exists|u: Seq<char>|
            #[trigger] reads_as(u, image_path(url@)) && inline_typst(n)
                == "#image(\"/content/images/"@ + u + "\")"@,
        n.kind matches MdKind::CodeBlock(info, literal) ==> exists|u: Seq<char>, w: Seq<char>|
            #![trigger reads_as(u, literal@), reads_as(w, code_lang(info@))]
            reads_as(u, literal@) && reads_as(w, code_lang(info@)) && block_typst(n)
                == "#raw(block: true"@ + (if code_lang(info@).len() > 0 {
                ", lang: \""@ + w + "\""@
            } else {
                seq![]
            }) + ", \""@ + u + "\")\n\n"@,
{
    match n.kind {
        MdKind::Code(c) => {
            lemma_escaped_literal_reads_back(c@);
            assert(reads_as(lit_escaped(c@), c@));
        },
        MdKind::Link(url) => {
            lemma_escaped_literal_reads_back(url@);
            assert(reads_as(lit_escaped(url@), url@));
        },
        MdKind::Image(url) => {
            lemma_escaped_literal_reads_back(image_path(url@));
            assert(reads_as(lit_escaped(image_path(url@)), image_path(url@)));
        },
        MdKind::CodeBlock(info, literal) => {
            lemma_escaped_literal_reads_back(literal@);
            lemma_escaped_literal_reads_back(code_lang(info@));
            let u = lit_escaped(literal@);
            let w = lit_escaped(code_lang(info@));
            assert(reads_as(u, literal@));
            assert(reads_as(w, code_lang(info@)));
        },
        _ => {},
    }
}

} // verus!
