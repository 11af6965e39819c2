//! Renders a node tree as HTML, escaping text and attribute values.
use vstd::prelude::*;
use vstd::string::{StrSliceExecFns, StringExecFns};
use crate::ast::{Attrs, Document, Tag, TagKind, string_content, children_content};

verus! {

/// Relies on `String::push`: appends `c` to `dst`.
#[verifier::external_body]
fn push_char(dst: &mut String, c: char)
    ensures
        final(dst)@ == old(dst)@.push(c),
{
    dst.push(c)
}

/// A character as it stands in HTML text or in a quoted attribute value.
pub open spec fn escape_char(c: char) -> Seq<char> {
    if c == '&' {
        "&amp;"@
    } else if c == '<' {
        "&lt;"@
    } else if c == '>' {
        "&gt;"@
    } else if c == '"' {
        "&quot;"@
    } else {
        seq![c]
    }
}

/// `s` with each character escaped.
pub open spec fn escaped(s: Seq<char>) -> Seq<char>
    decreases s.len(),
{
    if s.len() == 0 {
        Seq::empty()
    } else {
        escaped(s.drop_last()) + escape_char(s.last())
    }
}

/// One attribute as it stands in a start tag: ` key="value"`.
pub open spec fn attr_text(k: Seq<char>, v: Seq<char>) -> Seq<char> {
    " "@ + k + "=\""@ + escaped(v) + "\""@
}

pub open spec fn attrs_text(a: Seq<(String, String)>) -> Seq<char>
    decreases a.len(),
{
    if a.len() == 0 {
        Seq::empty()
    } else {
        attrs_text(a.drop_last()) + attr_text(a.last().0@, a.last().1@)
    }
}

/// A start tag.
pub open spec fn open_tag(name: Seq<char>, attrs: Seq<char>) -> Seq<char> {
    "<"@ + name + attrs + ">"@
}

/// A destination, or the placeholder `url` where none was resolved.
pub open spec fn dest_text(d: Option<String>) -> Seq<char> {
    match d {
        Some(s) => s@,
        None => "url"@,
    }
}

/// The attributes of an image: its text as `alt` where there is any, and its
/// source.
pub open spec fn image_attrs(alt: Seq<char>, src: Seq<char>) -> Seq<char> {
    if alt.len() > 0 {
        attr_text("alt"@, alt) + attr_text("src"@, src)
    } else {
        attr_text("src"@, src)
    }
}

/// The attributes of the `code` element of a code block.
pub open spec fn code_attrs(lang: Option<String>) -> Seq<char> {
    match lang {
        Some(l) => attr_text("class"@, "language-"@ + l@),
        None => Seq::empty(),
    }
}

/// The HTML for a node.
pub open spec fn rendered(t: Tag) -> Seq<char>
    decreases t, 1nat,
{
    let kids = rendered_children(t, t.children@.len() as int);
    let attrs = attrs_text(t.attrs@);
    match t.kind {
        TagKind::Doc => kids,
        TagKind::Heading => kids,
        TagKind::Para => open_tag("p"@, attrs) + kids + "</p>"@ + "\n"@,
        TagKind::Link(d) => open_tag("a"@, attr_text("href"@, dest_text(d))) + kids + "</a>"@,
        TagKind::Image(d) => open_tag("img"@, image_attrs(string_content(t), dest_text(d))),
        TagKind::CodeBlock(text, lang) => open_tag("pre"@, attrs) + open_tag("code"@, code_attrs(lang))
            + escaped(text@) + "</code></pre>\n"@,
        TagKind::Strong => open_tag("strong"@, attrs) + kids + "</strong>"@,
        TagKind::Emph => open_tag("em"@, attrs) + kids + "</em>"@,
        TagKind::DoubleQuoted => "&ldquo;"@ + kids + "&rdquo;"@,
        TagKind::Softbreak => "\n"@,
        TagKind::Url(d) => open_tag("a"@, attr_text("href"@, d@)) + kids + "</a>"@,
        TagKind::Str(s) => escaped(s@),
        TagKind::Verbatim(s) => open_tag("code"@, attrs) + escaped(s@) + "</code>"@,
        TagKind::Span => open_tag("span"@, attrs) + kids + "</span>"@,
        TagKind::ReferenceDefinition => Seq::empty(),
        TagKind::ReferenceKey => Seq::empty(),
        TagKind::ReferenceValue => Seq::empty(),
    }
}

/// The HTML for the first `n` children of `t`, in order.
pub open spec fn rendered_children(t: Tag, n: int) -> Seq<char>
    decreases t, 0nat, n,
{
    if n <= 0 || n > t.children@.len() {
        Seq::empty()
    } else {
        rendered_children(t, n - 1) + rendered(t.children@[n - 1])
    }
}

/// The HTML for a sequence of top-level nodes.
pub open spec fn rendered_seq(s: Seq<Tag>) -> Seq<char>
    decreases s.len(),
{
    if s.len() == 0 {
        Seq::empty()
    } else {
        rendered_seq(s.drop_last()) + rendered(s.last())
    }
}

/// Renders `doc` as HTML.
pub fn convert(doc: &Document) -> (r: String)
    ensures
        r@ == rendered_seq(doc.children@),
{
    let mut ctx = Ctx { res: String::new() };
    ctx.render_doc(doc);
    ctx.res
}

/// The text under `tag` (the alternative text of an image).
pub fn get_string_content(tag: &Tag) -> (r: String)
    ensures
        r@ == string_content(*tag),
    decreases tag, 1nat,
{
    match &tag.kind {
        TagKind::Str(s) => s.clone(),
        TagKind::Verbatim(s) => s.clone(),
        _ => {
            let mut r = String::new();
            let mut i: usize = 0;
            while i < tag.children.len()
                invariant
                    i <= tag.children@.len(),
                    r@ == children_content(*tag, i as int),
                    !(tag.kind is Str) && !(tag.kind is Verbatim),
                decreases tag.children@.len() - i,
            {
                let c = get_string_content(&tag.children[i]);
                r.append(c.as_str());
                i = i + 1;
            }
            r
        },
    }
}

struct Ctx {
    res: String,
}

impl Ctx {
    fn render_doc(&mut self, doc: &Document)
        ensures
            final(self).res@ == old(self).res@ + rendered_seq(doc.children@),
    {
        let mut i: usize = 0;
        while i < doc.children.len()
            invariant
                i <= doc.children@.len(),
                self.res@ == old(self).res@ + rendered_seq(doc.children@.subrange(0, i as int)),
            decreases doc.children@.len() - i,
        {
            proof {
                assert(doc.children@.subrange(0, i + 1).drop_last() == doc.children@.subrange(0, i as int));
            }
            self.render(&doc.children[i]);
            proof {
                assert(self.res@ =~= old(self).res@ + rendered_seq(doc.children@.subrange(0, i + 1)));
            }
            i = i + 1;
        }
        proof {
            assert(doc.children@.subrange(0, doc.children@.len() as int) == doc.children@);
        }
    }

    fn render_children(&mut self, tag: &Tag)
        ensures
            final(self).res@ == old(self).res@ + rendered_children(*tag, tag.children@.len() as int),
        decreases tag, 0nat, tag.children@.len(),
    {
        let mut i: usize = 0;
        while i < tag.children.len()
            invariant
                i <= tag.children@.len(),
                self.res@ == old(self).res@ + rendered_children(*tag, i as int),
            decreases tag.children@.len() - i,
        {
            self.render(&tag.children[i]);
            proof {
                assert(self.res@ =~= old(self).res@ + rendered_children(*tag, i + 1));
            }
            i = i + 1;
        }
    }

    fn out(&mut self, s: &str)
        ensures
            final(self).res@ == old(self).res@ + s@,
    {
        self.res.append(s)
    }

    fn out_escape_html(&mut self, s: &str)
        ensures
            final(self).res@ == old(self).res@ + escaped(s@),
    {
        let n = s.unicode_len();
        let mut i: usize = 0;
        while i < n
            invariant
                i <= n == s@.len(),
                self.res@ == old(self).res@ + escaped(s@.subrange(0, i as int)),
            decreases n - i,
        {
            let c = s.get_char(i);
            proof {
                assert(s@.subrange(0, i + 1).drop_last() == s@.subrange(0, i as int));
            }
            if c == '&' {
                self.out("&amp;");
            } else if c == '<' {
                self.out("&lt;");
            } else if c == '>' {
                self.out("&gt;");
            } else if c == '"' {
                self.out("&quot;");
            } else {
                push_char(&mut self.res, c);
            }
            proof {
                assert(self.res@ =~= old(self).res@ + escaped(s@.subrange(0, i + 1)));
            }
            i = i + 1;
        }
        proof {
            assert(s@.subrange(0, n as int) == s@);
        }
    }

    fn render_tag(&mut self, tag_name: &str, attrs: &Attrs)
        ensures
            final(self).res@ == old(self).res@ + open_tag(tag_name@, attrs_text(attrs@)),
    {
        self.out("<");
        self.out(tag_name);
        let ghost pre = self.res@;
        let mut i: usize = 0;
        while i < attrs.len()
            invariant
                i <= attrs@.len(),
                self.res@ == pre + attrs_text(attrs@.subrange(0, i as int)),
            decreases attrs@.len() - i,
        {
            proof {
                assert(attrs@.subrange(0, i + 1).drop_last() == attrs@.subrange(0, i as int));
            }
            let (k, v) = &attrs[i];
            self.out(" ");
            self.out(k.as_str());
            self.out("=\"");
            self.out_escape_html(v.as_str());
            self.out("\"");
            proof {
                assert(self.res@ =~= pre + attrs_text(attrs@.subrange(0, i + 1)));
            }
            i = i + 1;
        }
        proof {
            assert(attrs@.subrange(0, attrs@.len() as int) == attrs@);
        }
        self.out(">");
        proof {
            assert(self.res@ =~= old(self).res@ + open_tag(tag_name@, attrs_text(attrs@)));
        }
    }

    fn render(&mut self, tag: &Tag)
        ensures
            final(self).res@ == old(self).res@ + rendered(*tag),
        decreases tag, 1nat,
    {
        let ghost kids = rendered_children(*tag, tag.children@.len() as int);
        let ghost attrs = attrs_text(tag.attrs@);
        match &tag.kind {
            TagKind::Doc => self.render_children(tag),
            TagKind::Heading => self.render_children(tag),
            TagKind::Para => {
                self.render_tag("p", &tag.attrs);
                self.render_children(tag);
                self.out("</p>");
                self.out("\n");
                proof {
                    assert(self.res@ =~= old(self).res@ + (open_tag("p"@, attrs) + kids + "</p>"@
                        + "\n"@));
                }
            },
            TagKind::Link(destination) => {
                let mut attrs: Attrs = Vec::new();
                let d = match destination {
                    Some(d) => d.clone(),
                    None => "url".to_owned(),
                };
                attrs.push(("href".to_owned(), d));
                proof {
                    assert(attrs@.drop_last() =~= Seq::<(String, String)>::empty());
                    assert(attrs@.last().1@ == dest_text(*destination));
                    assert(attrs_text(attrs@.drop_last()) =~= Seq::<char>::empty());
                    assert(attrs_text(attrs@) =~= attr_text("href"@, dest_text(*destination)));
                }
                self.render_tag("a", &attrs);
                self.render_children(tag);
                self.out("</a>");
                proof {
                    assert(self.res@ =~= old(self).res@ + (open_tag(
                        "a"@,
                        attr_text("href"@, dest_text(*destination)),
                    ) + kids + "</a>"@));
                }
            },
            TagKind::Image(destination) => {
                let mut attrs: Attrs = Vec::new();
                let alt_text = get_string_content(tag);
                if alt_text.unicode_len() > 0 {
                    attrs.push(("alt".to_owned(), alt_text));
                }
                let d = match destination {
                    Some(d) => d.clone(),
                    None => "url".to_owned(),
                };
                attrs.push(("src".to_owned(), d));
                proof {
                    let sc = string_content(*tag);
                    let dt = dest_text(*destination);
                    assert(attrs@.last().1@ == dt);
                    if attrs@.len() == 2 {
                        let p = attrs@.drop_last();
                        assert(p.drop_last() =~= Seq::<(String, String)>::empty());
                        assert(attrs_text(p.drop_last()) =~= Seq::<char>::empty());
                        assert(p.last().1@ == sc);
                        assert(attrs_text(p) =~= attr_text("alt"@, sc));
                    } else {
                        assert(attrs@.drop_last() =~= Seq::<(String, String)>::empty());
                        assert(attrs_text(attrs@.drop_last()) =~= Seq::<char>::empty());
                    }
                    assert(attrs_text(attrs@) =~= image_attrs(sc, dt));
                }
                self.render_tag("img", &attrs);
                proof {
                    assert(self.res@ =~= old(self).res@ + open_tag(
                        "img"@,
                        image_attrs(string_content(*tag), dest_text(*destination)),
                    ));
                }
            },
            TagKind::CodeBlock(text, lang) => {
                self.render_tag("pre", &tag.attrs);
                let mut attrs: Attrs = Vec::new();
                if let Some(l) = lang {
                    let mut class = "language-".to_owned();
                    class.append(l.as_str());
                    attrs.push(("class".to_owned(), class));
                    proof {
                        assert(attrs@.drop_last() =~= Seq::<(String, String)>::empty());
                        assert(attrs_text(attrs@.drop_last()) =~= Seq::<char>::empty());
                        assert(attrs@.last().1@ == "language-"@ + l@);
                        assert(attrs_text(attrs@) =~= code_attrs(*lang));
                    }
                }
                proof {
                    assert(attrs_text(attrs@) =~= code_attrs(*lang));
                }
                self.render_tag("code", &attrs);
                self.out_escape_html(text.as_str());
                self.out("</code></pre>\n");
                proof {
                    assert(self.res@ =~= old(self).res@ + (open_tag("pre"@, attrs_text(tag.attrs@)) + open_tag(
                        "code"@,
                        code_attrs(*lang),
                    ) + escaped(text@) + "</code></pre>\n"@));
                }
            },
            TagKind::Strong => {
                self.render_tag("strong", &tag.attrs);
                self.render_children(tag);
                self.out("</strong>");
                proof {
                    assert(self.res@ =~= old(self).res@ + (open_tag("strong"@, attrs) + kids
                        + "</strong>"@));
                }
            },
            TagKind::Emph => {
                self.render_tag("em", &tag.attrs);
                self.render_children(tag);
                self.out("</em>");
                proof {
                    assert(self.res@ =~= old(self).res@ + (open_tag("em"@, attrs) + kids + "</em>"@));
                }
            },
            TagKind::DoubleQuoted => {
                self.out("&ldquo;");
                self.render_children(tag);
                self.out("&rdquo;");
                proof {
                    assert(self.res@ =~= old(self).res@ + ("&ldquo;"@ + kids + "&rdquo;"@));
                }
            },
            TagKind::Softbreak => self.out("\n"),
            TagKind::Url(destination) => {
                let mut attrs: Attrs = Vec::new();
                attrs.push(("href".to_owned(), destination.clone()));
                proof {
                    assert(attrs@.drop_last() =~= Seq::<(String, String)>::empty());
                    assert(attrs@.last().0@ == "href"@);
                    assert(attrs@.last().1@ == destination@);
                    assert(attrs_text(attrs@.drop_last()) =~= Seq::<char>::empty());
                    assert(attrs_text(attrs@) =~= attr_text("href"@, destination@));
                }
                self.render_tag("a", &attrs);
                self.render_children(tag);
                self.out("</a>");
                proof {
                    assert(self.res@ =~= old(self).res@ + (open_tag(
                        "a"@,
                        attr_text("href"@, destination@),
                    ) + kids + "</a>"@));
                }
            },
            TagKind::Str(text) => self.out_escape_html(text.as_str()),
            TagKind::Verbatim(text) => {
                self.render_tag("code", &tag.attrs);
                self.out_escape_html(text.as_str());
                self.out("</code>");
                proof {
                    assert(self.res@ =~= old(self).res@ + (open_tag("code"@, attrs) + escaped(text@)
                        + "</code>"@));
                }
            },
            TagKind::Span => {
                self.render_tag("span", &tag.attrs);
                self.render_children(tag);
                self.out("</span>");
                proof {
                    assert(self.res@ =~= old(self).res@ + (open_tag("span"@, attrs) + kids
                        + "</span>"@));
                }
            },
            TagKind::ReferenceDefinition | TagKind::ReferenceKey | TagKind::ReferenceValue => {
                proof {
                    assert(self.res@ =~= old(self).res@ + Seq::<char>::empty());
                }
            },
        }
    }
}

} // verus!
