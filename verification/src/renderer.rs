//! The renderer: a flat sequence of [`Part`]s to well-formed HTML.
//!
//! The renderer maintains its own nesting-correct stack of open elements, so
//! that a close that is not the innermost open still yields well-nested HTML:
//! everything above the nearest match is closed, the match is closed, and the
//! rest is reopened. A link's href is not known at open time; a unique
//! placeholder is written instead and substituted after the whole sequence
//! has been rendered, from an accumulator that every open anchor feeds.

use vstd::prelude::*;

use crate::parts::Color;
use crate::parts::EmoteKind;
use crate::parts::color_text;
use crate::parts::digit_char;
use crate::parts::digit_char_exec;
use crate::parts::push_color;
use crate::parts::Part;
use crate::parts::PartView;
use crate::parts::StyleKind;
use crate::parts::emote_name;
use crate::parts::emote_tag;
use crate::parts::part_views;
use crate::parts::style_tag;
use crate::text::chars_string;
use crate::text::push_chars;
use crate::text::push_str;
use crate::text::replace;
use crate::text::spec_replace;
use crate::text::spec_trim;
use crate::text::str_chars;
use crate::text::trim;

verus! {

/// An HTML element on the renderer's open-element stack.
#[derive(Debug, Clone, Copy, PartialEq, Eq, Structural)]
pub enum Element {
    Strong,
    Em,
    Ins,
    Del,
    Span { color: Color },
    A { link: usize },
}

/// The renderer's state: the HTML written so far, the stack of open
/// elements, the href accumulator of every link made so far (a link's
/// id is its position), and whether editor markers are shown.
#[verifier::ext_equal]
pub ghost struct RenderState {
    pub html: Seq<char>,
    pub stack: Seq<Element>,
    pub hrefs: Seq<Seq<char>>,
    pub editor: bool,
}

/// Every anchor on the stack points at an href accumulator that exists.
pub open spec fn wf_state(st: RenderState) -> bool {
    forall|i: int|
        0 <= i < st.stack.len() ==> match #[trigger] st.stack[i] {
            Element::A { link } => (link as int) < st.hrefs.len(),
            _ => true,
        }
}

/// The decimal digit characters of a number, most significant first.
pub open spec fn dec_digits(n: nat) -> Seq<char>
    decreases n,
{
    if n < 10 {
        seq![digit_char(n)]
    } else {
        dec_digits(n / 10).push(digit_char(n % 10))
    }
}


/// The unique placeholder token written where a link's href will go.
pub open spec fn link_placeholder(id: nat) -> Seq<char> {
    "\u{A7}\u{A7}HREF"@ + dec_digits(id) + "\u{A7}\u{A7}"@
}

/// The HTML that opens an element.
pub open spec fn open_tag_html(el: Element) -> Seq<char> {
    match el {
        Element::Strong => "<strong>"@,
        Element::Em => "<em>"@,
        Element::Ins => "<ins>"@,
        Element::Del => "<del>"@,
        Element::Span { color } => "<span style=\"color: "@ + color_text(color) + "\">"@,
        Element::A { link } => "<a href=\""@ + link_placeholder(link as nat) + "\">"@,
    }
}

/// The HTML that closes an element.
pub open spec fn close_tag_html(el: Element) -> Seq<char> {
    match el {
        Element::Strong => "</strong>"@,
        Element::Em => "</em>"@,
        Element::Ins => "</ins>"@,
        Element::Del => "</del>"@,
        Element::Span { .. } => "</span>"@,
        Element::A { .. } => "</a>"@,
    }
}

/// The HTML that opens every element of a stack, bottom to top.
pub open spec fn opens_html(stack: Seq<Element>) -> Seq<char>
    decreases stack.len(),
{
    if stack.len() == 0 {
        Seq::empty()
    } else {
        opens_html(stack.drop_last()) + open_tag_html(stack.last())
    }
}

/// The HTML that closes every element of a stack, top to bottom.
pub open spec fn closes_html(stack: Seq<Element>) -> Seq<char>
    decreases stack.len(),
{
    if stack.len() == 0 {
        Seq::empty()
    } else {
        closes_html(stack.drop_first()) + close_tag_html(stack.first())
    }
}

/// The escape of one character for inclusion in HTML.
pub open spec fn escape_char(c: char) -> Seq<char> {
    if c == '&' {
        "&amp;"@
    } else if c == '<' {
        "&lt;"@
    } else if c == '>' {
        "&gt;"@
    } else if c == '"' {
        "&quot;"@
    } else if c == '\'' {
        "&#39;"@
    } else {
        seq![c]
    }
}

/// The escape of a text for inclusion in HTML.
pub open spec fn spec_escape(t: Seq<char>) -> Seq<char>
    decreases t.len(),
{
    if t.len() == 0 {
        Seq::empty()
    } else {
        spec_escape(t.drop_last()) + escape_char(t.last())
    }
}

/// The editor-mode marker for a piece of original markup: a styled span
/// when editor mode is active, nothing otherwise.
pub open spec fn meta_html(editor: bool, marker: Seq<char>) -> Seq<char> {
    if editor {
        "<span class=\"sillycode-meta\">"@ + marker + "</span>"@
    } else {
        Seq::empty()
    }
}

/// The HTML of an emote: an inline preview span with the literal tag as its
/// label in editor mode, an image otherwise.
pub open spec fn emote_html(editor: bool, k: EmoteKind) -> Seq<char> {
    if editor {
        "<span class=\"sillycode-emote\" style=\"background-image: url(/static/emoticons/"@
            + emote_name(k) + ".png)\">["@ + emote_tag(k) + "]</span>"@
    } else {
        "<img class=\"sillycode-emote\" src=\"/static/emoticons/"@ + emote_name(k) + ".png\" alt=\""@
            + emote_name(k) + "\">"@
    }
}

/// One element's effect on the href accumulators: an open anchor receives
/// the text, everything else changes nothing.
pub open spec fn href_after(hrefs: Seq<Seq<char>>, el: Element, t: Seq<char>) -> Seq<Seq<char>> {
    match el {
        Element::A { link } => if (link as int) < hrefs.len() {
            hrefs.update(link as int, hrefs[link as int] + t)
        } else {
            hrefs
        },
        _ => hrefs,
    }
}

/// The href accumulators after a text has been forwarded to every open
/// anchor on the stack.
pub open spec fn hrefs_appended(hrefs: Seq<Seq<char>>, stack: Seq<Element>, t: Seq<char>) -> Seq<
    Seq<char>,
>
    decreases stack.len(),
{
    if stack.len() == 0 {
        hrefs
    } else {
        href_after(hrefs_appended(hrefs, stack.drop_last(), t), stack.last(), t)
    }
}

/// What a removal looks for: one exact element, the nearest anchor,
/// or the nearest color span.
#[derive(Clone, Copy)]
pub enum Target {
    Exact(Element),
    AnyLink,
    AnySpan,
}

/// Whether an element is what a removal looks for.
pub open spec fn target_matches(t: Target, el: Element) -> bool {
    match t {
        Target::Exact(e) => el == e,
        Target::AnyLink => match el {
            Element::A { .. } => true,
            _ => false,
        },
        Target::AnySpan => match el {
            Element::Span { .. } => true,
            _ => false,
        },
    }
}

/// The position of the topmost matching element, or -1 when none matches.
pub open spec fn find_from_top(stack: Seq<Element>, t: Target) -> int
    decreases stack.len(),
{
    if stack.len() == 0 {
        -1
    } else if target_matches(t, stack.last()) {
        stack.len() - 1
    } else {
        find_from_top(stack.drop_last(), t)
    }
}

/// The reconciliation of an out-of-order close: everything above the nearest
/// match is closed top-first, the match is closed, and what was above it is
/// reopened in its original order. When nothing matches, nothing happens.
pub open spec fn remove_state(st: RenderState, t: Target) -> RenderState {
    let i = find_from_top(st.stack, t);
    if i < 0 {
        st
    } else {
        let removed = st.stack[i];
        let preserved = st.stack.skip(i + 1);
        RenderState {
            html: st.html + closes_html(preserved) + close_tag_html(removed) + opens_html(
                preserved,
            ),
            stack: st.stack.take(i) + preserved,
            hrefs: st.hrefs,
            editor: st.editor,
        }
    }
}

/// The simple element a non-link style toggles.
pub open spec fn style_element(k: StyleKind) -> Element {
    match k {
        StyleKind::Bold => Element::Strong,
        StyleKind::Italic => Element::Em,
        StyleKind::Underline => Element::Ins,
        StyleKind::Strikethrough => Element::Del,
        StyleKind::Link => Element::Strong,
    }
}

/// One step of the renderer on one part.
pub open spec fn render_step(st: RenderState, p: PartView) -> RenderState {
    match p {
        PartView::Text(t) => {
            let e = spec_escape(t);
            RenderState {
                html: st.html + e,
                stack: st.stack,
                hrefs: hrefs_appended(st.hrefs, st.stack, e),
                editor: st.editor,
            }
        },
        PartView::Escape => RenderState {
            html: st.html + meta_html(st.editor, "\\"@),
            stack: st.stack,
            hrefs: st.hrefs,
            editor: st.editor,
        },
        PartView::Newline => RenderState {
            html: st.html + closes_html(st.stack) + "</div><div>"@ + opens_html(st.stack),
            stack: st.stack,
            hrefs: st.hrefs,
            editor: st.editor,
        },
        PartView::Style(k, en) => {
            if k == StyleKind::Link {
                if en {
                    let el = Element::A { link: st.hrefs.len() as usize };
                    RenderState {
                        html: st.html + meta_html(st.editor, "[url]"@) + open_tag_html(el),
                        stack: st.stack.push(el),
                        hrefs: st.hrefs.push(Seq::empty()),
                        editor: st.editor,
                    }
                } else {
                    let removed = remove_state(st, Target::AnyLink);
                    RenderState {
                        html: removed.html + meta_html(st.editor, "[/url]"@),
                        stack: removed.stack,
                        hrefs: removed.hrefs,
                        editor: removed.editor,
                    }
                }
            } else {
                let el = style_element(k);
                if en {
                    let with_meta = st.html + meta_html(
                        st.editor,
                        seq!['['] + style_tag(k) + seq![']'],
                    );
                    if st.stack.contains(el) {
                        RenderState {
                            html: with_meta,
                            stack: st.stack,
                            hrefs: st.hrefs,
                            editor: st.editor,
                        }
                    } else {
                        RenderState {
                            html: with_meta + open_tag_html(el),
                            stack: st.stack.push(el),
                            hrefs: st.hrefs,
                            editor: st.editor,
                        }
                    }
                } else {
                    let removed = remove_state(st, Target::Exact(el));
                    RenderState {
                        html: removed.html + meta_html(
                            st.editor,
                            seq!['[', '/'] + style_tag(k) + seq![']'],
                        ),
                        stack: removed.stack,
                        hrefs: removed.hrefs,
                        editor: removed.editor,
                    }
                }
            }
        },
        PartView::Color(c, en) => {
            if en {
                let el = Element::Span { color: c };
                let with_meta = st.html + meta_html(
                    st.editor,
                    "[color="@ + color_text(c) + seq![']'],
                );
                if st.stack.contains(el) {
                    RenderState {
                        html: with_meta,
                        stack: st.stack,
                        hrefs: st.hrefs,
                        editor: st.editor,
                    }
                } else {
                    RenderState {
                        html: with_meta + open_tag_html(el),
                        stack: st.stack.push(el),
                        hrefs: st.hrefs,
                        editor: st.editor,
                    }
                }
            } else {
                let removed = remove_state(st, Target::AnySpan);
                RenderState {
                    html: removed.html + meta_html(st.editor, "[/color]"@),
                    stack: removed.stack,
                    hrefs: removed.hrefs,
                    editor: removed.editor,
                }
            }
        },
        PartView::Emote(k) => RenderState {
            html: st.html + emote_html(st.editor, k),
            stack: st.stack,
            hrefs: st.hrefs,
            editor: st.editor,
        },
    }
}

/// The renderer's state after replaying a sequence of parts.
pub open spec fn render_parts(st: RenderState, parts: Seq<PartView>) -> RenderState
    decreases parts.len(),
{
    if parts.len() == 0 {
        st
    } else {
        render_step(render_parts(st, parts.drop_last()), parts.last())
    }
}

/// The state a render starts from: one open line container, no open
/// elements, no links yet.
pub open spec fn initial_render_state(editor: bool) -> RenderState {
    RenderState { html: "<div>"@, stack: Seq::empty(), hrefs: Seq::empty(), editor }
}

/// The final href of a link: the accumulated text is trimmed of leading
/// and trailing whitespace, and `https://` is prepended unless the text
/// already starts with it, so a link can never smuggle another scheme in.
pub open spec fn with_scheme(trimmed: Seq<char>) -> Seq<char> {
    if trimmed.len() >= "https://"@.len() && trimmed.take("https://"@.len() as int)
        == "https://"@ {
        trimmed
    } else {
        "https://"@ + trimmed
    }
}

/// The final href of a link: the accumulated text trimmed, with the scheme
/// ensured.
pub open spec fn link_href(acc: Seq<char>) -> Seq<char> {
    with_scheme(spec_trim(acc))
}

/// The HTML after the first `n` link placeholders have been substituted
/// with their final hrefs, in order of creation.
pub open spec fn subst_links_upto(html: Seq<char>, hrefs: Seq<Seq<char>>, n: int) -> Seq<char>
    decreases n,
{
    if n <= 0 || n > hrefs.len() {
        html
    } else {
        spec_replace(
            subst_links_upto(html, hrefs, n - 1),
            link_placeholder((n - 1) as nat),
            link_href(hrefs[n - 1]),
        )
    }
}

/// The line-boundary post-processing: a leading space inside a line becomes
/// a non-breaking space, a trailing space gains an explicit break, and an
/// empty line is rendered as a visible blank line.
pub open spec fn postprocess(html: Seq<char>) -> Seq<char> {
    spec_replace(
        spec_replace(
            spec_replace(html, "<div> "@, "<div>&nbsp;"@),
            " </div>"@,
            " <br></div>"@,
        ),
        "<div></div>"@,
        "<div><br></div>"@,
    )
}

/// What rendering a sequence of parts yields: the parts replayed against
/// the element stack, every element closed, every link placeholder
/// substituted, and line boundaries post-processed.
pub open spec fn spec_render(parts: Seq<PartView>, editor: bool) -> Seq<char> {
    let done = render_parts(initial_render_state(editor), parts);
    let closed = done.html + closes_html(done.stack) + "</div>"@;
    postprocess(subst_links_upto(closed, done.hrefs, done.hrefs.len() as int))
}

/// The models of the href accumulators, element by element.
pub open spec fn href_views(links: Seq<Vec<char>>) -> Seq<Seq<char>> {
    links.map_values(|l: Vec<char>| l@)
}

/// Renderer for sillycode markup.
struct Renderer {
    /// HTML output.
    html: Vec<char>,
    /// Element stack.
    elements: Vec<Element>,
    /// The href accumulator of every link created so far; a link's id is
    /// its position, and the number of links made is the length.
    links: Vec<Vec<char>>,
    /// Whether the output is for an editor or not.
    is_editor: bool,
}

impl View for Renderer {
    type V = RenderState;

    closed spec fn view(&self) -> RenderState {
        RenderState {
            html: self.html@,
            stack: self.elements@,
            hrefs: href_views(self.links@),
            editor: self.is_editor,
        }
    }
}


/// Appends the decimal digits of a number.
fn push_dec(out: &mut Vec<char>, n: usize)
    ensures
        final(out)@ == old(out)@ + dec_digits(n as nat),
    decreases n,
{
    if n < 10 {
        out.push(digit_char_exec(n as u8));
        proof {
            assert(final(out)@ =~= old(out)@ + dec_digits(n as nat));
        }
    } else {
        push_dec(out, n / 10);
        out.push(digit_char_exec((n % 10) as u8));
        proof {
            assert(final(out)@ =~= old(out)@ + dec_digits(n as nat));
        }
    }
}


/// Appends the placeholder token of a link id.
fn push_placeholder(out: &mut Vec<char>, id: usize)
    ensures
        final(out)@ == old(out)@ + link_placeholder(id as nat),
{
    push_str(out, "\u{A7}\u{A7}HREF");
    push_dec(out, id);
    push_str(out, "\u{A7}\u{A7}");
    proof {
        assert(final(out)@ =~= old(out)@ + link_placeholder(id as nat));
    }
}

/// The HTML-escaped form of a text.
fn escape_html(text: &Vec<char>) -> (r: Vec<char>)
    ensures
        r@ == spec_escape(text@),
{
    let mut r: Vec<char> = Vec::new();
    let mut i: usize = 0;
    proof {
        assert(text@.take(0) =~= Seq::<char>::empty());
    }
    while i < text.len()
        invariant
            i <= text@.len(),
            r@ == spec_escape(text@.take(i as int)),
        decreases text@.len() - i,
    {
        let c = text[i];
        if c == '&' {
            push_str(&mut r, "&amp;");
        } else if c == '<' {
            push_str(&mut r, "&lt;");
        } else if c == '>' {
            push_str(&mut r, "&gt;");
        } else if c == '"' {
            push_str(&mut r, "&quot;");
        } else if c == '\'' {
            push_str(&mut r, "&#39;");
        } else {
            r.push(c);
        }
        i = i + 1;
        proof {
            assert(text@.take(i as int).drop_last() =~= text@.take(i - 1));
            assert(text@.take(i as int).last() == text@[i - 1]);
            assert(r@ =~= spec_escape(text@.take(i as int)));
        }
    }
    proof {
        assert(text@.take(i as int) =~= text@);
    }
    r
}

impl Renderer {
    /// Creates a new renderer.
    fn new(is_editor: bool) -> (r: Self)
        ensures
            r@ == (RenderState {
                html: Seq::empty(),
                stack: Seq::empty(),
                hrefs: Seq::empty(),
                editor: is_editor,
            }),
    {
        let r = Renderer { html: Vec::new(), elements: Vec::new(), links: Vec::new(), is_editor };
        proof {
            assert(href_views(r.links@) =~= Seq::<Seq<char>>::empty());
        }
        r
    }

    /// Opens an element in the output.
    fn open(&mut self, element: Element)
        ensures
            final(self)@ == (RenderState {
                html: old(self)@.html + open_tag_html(element),
                stack: old(self)@.stack,
                hrefs: old(self)@.hrefs,
                editor: old(self)@.editor,
            }),
    {
        match element {
            Element::Strong => push_str(&mut self.html, "<strong>"),
            Element::Em => push_str(&mut self.html, "<em>"),
            Element::Ins => push_str(&mut self.html, "<ins>"),
            Element::Del => push_str(&mut self.html, "<del>"),
            Element::Span { color } => {
                push_str(&mut self.html, "<span style=\"color: ");
                push_color(&mut self.html, color);
                push_str(&mut self.html, "\">");
                proof {
                    assert(self.html@ =~= old(self)@.html + open_tag_html(element));
                }
            },
            Element::A { link } => {
                push_str(&mut self.html, "<a href=\"");
                push_placeholder(&mut self.html, link);
                push_str(&mut self.html, "\">");
                proof {
                    assert(self.html@ =~= old(self)@.html + open_tag_html(element));
                }
            },
        }
    }

    /// Closes an element in the output.
    fn close(&mut self, element: Element)
        ensures
            final(self)@ == (RenderState {
                html: old(self)@.html + close_tag_html(element),
                stack: old(self)@.stack,
                hrefs: old(self)@.hrefs,
                editor: old(self)@.editor,
            }),
    {
        match element {
            Element::Strong => push_str(&mut self.html, "</strong>"),
            Element::Em => push_str(&mut self.html, "</em>"),
            Element::Ins => push_str(&mut self.html, "</ins>"),
            Element::Del => push_str(&mut self.html, "</del>"),
            Element::Span { .. } => push_str(&mut self.html, "</span>"),
            Element::A { .. } => push_str(&mut self.html, "</a>"),
        }
    }

    /// Opens all elements in the element stack, bottom to top.
    fn open_all(&mut self)
        ensures
            final(self)@ == (RenderState {
                html: old(self)@.html + opens_html(old(self)@.stack),
                stack: old(self)@.stack,
                hrefs: old(self)@.hrefs,
                editor: old(self)@.editor,
            }),
    {
        let mut i: usize = 0;
        proof {
            assert(self.elements@.take(0) =~= Seq::<Element>::empty());
            assert(self.html@ =~= old(self)@.html + opens_html(self.elements@.take(0)));
        }
        while i < self.elements.len()
            invariant
                i <= self.elements@.len(),
                self.elements@ == old(self)@.stack,
                href_views(self.links@) == old(self)@.hrefs,
                self.is_editor == old(self)@.editor,
                self.html@ == old(self)@.html + opens_html(self.elements@.take(i as int)),
            decreases self.elements@.len() - i,
        {
            let el = self.elements[i];
            self.open(el);
            i = i + 1;
            proof {
                assert(self.elements@.take(i as int).drop_last() =~= self.elements@.take(i - 1));
                assert(self.elements@.take(i as int).last() == self.elements@[i - 1]);
                assert(self.html@ =~= old(self)@.html + opens_html(self.elements@.take(i as int)));
            }
        }
        proof {
            assert(self.elements@.take(i as int) =~= self.elements@);
        }
    }

    /// Closes all elements in the element stack, top to bottom.
    fn close_all(&mut self)
        ensures
            final(self)@ == (RenderState {
                html: old(self)@.html + closes_html(old(self)@.stack),
                stack: old(self)@.stack,
                hrefs: old(self)@.hrefs,
                editor: old(self)@.editor,
            }),
    {
        let mut i: usize = self.elements.len();
        proof {
            assert(self.elements@.skip(i as int) =~= Seq::<Element>::empty());
            assert(self.html@ =~= old(self)@.html + closes_html(self.elements@.skip(i as int)));
        }
        while i > 0
            invariant
                i <= self.elements@.len(),
                self.elements@ == old(self)@.stack,
                href_views(self.links@) == old(self)@.hrefs,
                self.is_editor == old(self)@.editor,
                self.html@ == old(self)@.html + closes_html(self.elements@.skip(i as int)),
            decreases i,
        {
            i = i - 1;
            let el = self.elements[i];
            self.close(el);
            proof {
                assert(self.elements@.skip(i as int).drop_first() =~= self.elements@.skip(i + 1));
                assert(self.elements@.skip(i as int).first() == self.elements@[i as int]);
                assert(self.html@ =~= old(self)@.html + closes_html(self.elements@.skip(i as int)));
            }
        }
        proof {
            assert(self.elements@.skip(0) =~= self.elements@);
        }
    }

    /// Pushes an element onto the element stack, opening it.
    fn push(&mut self, element: Element)
        ensures
            final(self)@ == (RenderState {
                html: old(self)@.html + open_tag_html(element),
                stack: old(self)@.stack.push(element),
                hrefs: old(self)@.hrefs,
                editor: old(self)@.editor,
            }),
    {
        self.open(element);
        self.elements.push(element);
    }

    /// Whether the element stack holds an element, by structural equality.
    fn contains(&self, element: Element) -> (r: bool)
        ensures
            r == self@.stack.contains(element),
    {
        let mut i: usize = 0;
        while i < self.elements.len()
            invariant
                i <= self.elements@.len(),
                forall|k: int| 0 <= k < i ==> self.elements@[k] != element,
            decreases self.elements@.len() - i,
        {
            if self.elements[i] == element {
                return true;
            }
            i = i + 1;
        }
        proof {
            assert(!self@.stack.contains(element));
        }
        false
    }

    /// Removes the topmost element a target matches, closing everything
    /// above it, closing it, and reopening the rest; does nothing when
    /// nothing matches.
    fn remove(&mut self, target: Target) -> (r: bool)
        ensures
            final(self)@ == remove_state(old(self)@, target),
            r == (find_from_top(old(self)@.stack, target) >= 0),
    {
        let blen: usize = self.elements.len();
        let mut j: usize = blen;
        let mut idx: usize = 0;
        let mut found = false;
        proof {
            assert(self.elements@.take(blen as int) =~= self.elements@);
        }
        while j > 0 && !found
            invariant
                blen == self.elements@.len(),
                j <= blen,
                !found ==> find_from_top(self.elements@, target) == find_from_top(
                    self.elements@.take(j as int),
                    target,
                ),
                found ==> idx < blen && idx == find_from_top(self.elements@, target),
            decreases j,
        {
            j = j - 1;
            proof {
                assert(self.elements@.take(j + 1).drop_last() =~= self.elements@.take(j as int));
                assert(self.elements@.take(j + 1).last() == self.elements@[j as int]);
            }
            let el = self.elements[j];
            let matched = match target {
                Target::Exact(e) => el == e,
                Target::AnyLink => matches!(el, Element::A { .. }),
                Target::AnySpan => matches!(el, Element::Span { .. }),
            };
            if matched {
                idx = j;
                found = true;
            }
        }
        if !found {
            proof {
                assert(self.elements@.take(0) =~= Seq::<Element>::empty());
                assert(find_from_top(self.elements@, target) == -1);
            }
            return false;
        }

        // remove the element from the stack
        let removed: Element = self.elements.remove(idx);
        proof {
            assert(self.elements@ =~= old(self)@.stack.take(idx as int) + old(self)@.stack.skip(
                idx + 1,
            ));
        }

        // select all preserved elements
        let ghost pres = old(self)@.stack.skip(idx + 1);
        let mut preserved: Vec<Element> = Vec::new();
        let mut k: usize = idx;
        while k < self.elements.len()
            invariant
                idx <= k <= self.elements@.len(),
                self.elements@ == old(self)@.stack.take(idx as int) + pres,
                pres == old(self)@.stack.skip(idx + 1),
                idx <= self.elements@.len(),
                preserved@ == self.elements@.subrange(idx as int, k as int),
            decreases self.elements@.len() - k,
        {
            let el = self.elements[k];
            preserved.push(el);
            k = k + 1;
            proof {
                assert(preserved@ =~= self.elements@.subrange(idx as int, k as int));
            }
        }
        proof {
            assert(preserved@ =~= pres);
        }

        let ghost html_mid = self@.html;

        // close all preserved elements, in reverse order
        let mut m: usize = preserved.len();
        proof {
            assert(preserved@.skip(m as int) =~= Seq::<Element>::empty());
            assert(self.html@ =~= html_mid + closes_html(preserved@.skip(m as int)));
        }
        while m > 0
            invariant
                m <= preserved@.len(),
                preserved@ == pres,
                self.elements@ == old(self)@.stack.take(idx as int) + pres,
                href_views(self.links@) == old(self)@.hrefs,
                self.is_editor == old(self)@.editor,
                self.html@ == html_mid + closes_html(preserved@.skip(m as int)),
            decreases m,
        {
            m = m - 1;
            let el = preserved[m];
            self.close(el);
            proof {
                assert(preserved@.skip(m as int).drop_first() =~= preserved@.skip(m + 1));
                assert(preserved@.skip(m as int).first() == preserved@[m as int]);
                assert(self.html@ =~= html_mid + closes_html(preserved@.skip(m as int)));
            }
        }
        proof {
            assert(preserved@.skip(0) =~= preserved@);
        }

        // close the removed element
        self.close(removed);

        let ghost html_closed = self@.html;

        // re-open all preserved elements
        let mut m2: usize = 0;
        proof {
            assert(preserved@.take(0) =~= Seq::<Element>::empty());
            assert(self.html@ =~= html_closed + opens_html(preserved@.take(0)));
        }
        while m2 < preserved.len()
            invariant
                m2 <= preserved@.len(),
                preserved@ == pres,
                self.elements@ == old(self)@.stack.take(idx as int) + pres,
                href_views(self.links@) == old(self)@.hrefs,
                self.is_editor == old(self)@.editor,
                self.html@ == html_closed + opens_html(preserved@.take(m2 as int)),
            decreases preserved@.len() - m2,
        {
            let el = preserved[m2];
            self.open(el);
            m2 = m2 + 1;
            proof {
                assert(preserved@.take(m2 as int).drop_last() =~= preserved@.take(m2 - 1));
                assert(preserved@.take(m2 as int).last() == preserved@[m2 - 1]);
                assert(self.html@ =~= html_closed + opens_html(preserved@.take(m2 as int)));
            }
        }
        proof {
            assert(preserved@.take(preserved@.len() as int) =~= preserved@);
            assert(self@ =~~= remove_state(old(self)@, target));
        }
        true
    }

    /// Applies a simple style element: enabling pushes it unless it is
    /// already open, disabling removes the nearest occurrence.
    fn apply(&mut self, element: Element, enable: bool)
        ensures
            final(self)@ == (if enable {
                if old(self)@.stack.contains(element) {
                    old(self)@
                } else {
                    RenderState {
                        html: old(self)@.html + open_tag_html(element),
                        stack: old(self)@.stack.push(element),
                        hrefs: old(self)@.hrefs,
                        editor: old(self)@.editor,
                    }
                }
            } else {
                remove_state(old(self)@, Target::Exact(element))
            }),
    {
        if enable {
            if !self.contains(element) {
                self.push(element);
            }
        } else {
            self.remove(Target::Exact(element));
        }
    }

    /// Creates a new link record and pushes its anchor onto the stack.
    fn push_link(&mut self)
        ensures
            final(self)@ == (RenderState {
                html: old(self)@.html + open_tag_html(
                    Element::A { link: old(self)@.hrefs.len() as usize },
                ),
                stack: old(self)@.stack.push(
                    Element::A { link: old(self)@.hrefs.len() as usize },
                ),
                hrefs: old(self)@.hrefs.push(Seq::empty()),
                editor: old(self)@.editor,
            }),
    {
        let id = self.links.len();
        self.links.push(Vec::new());
        proof {
            assert(href_views(self.links@) =~= old(self)@.hrefs.push(Seq::empty()));
        }
        self.push(Element::A { link: id });
    }

    /// Appends a text to the href accumulator of every open anchor.
    fn append_link(&mut self, text: &Vec<char>)
        requires
            wf_state(old(self)@),
        ensures
            final(self)@ == (RenderState {
                html: old(self)@.html,
                stack: old(self)@.stack,
                hrefs: hrefs_appended(old(self)@.hrefs, old(self)@.stack, text@),
                editor: old(self)@.editor,
            }),
    {
        let mut i: usize = 0;
        proof {
            assert(self.elements@.take(0) =~= Seq::<Element>::empty());
        }
        while i < self.elements.len()
            invariant
                i <= self.elements@.len(),
                self.elements@ == old(self)@.stack,
                self.html@ == old(self)@.html,
                self.is_editor == old(self)@.editor,
                wf_state(old(self)@),
                href_views(self.links@) == hrefs_appended(
                    old(self)@.hrefs,
                    self.elements@.take(i as int),
                    text@,
                ),
                self.links@.len() == old(self)@.hrefs.len(),
            decreases self.elements@.len() - i,
        {
            let ghost prev = href_views(self.links@);
            let el = self.elements[i];
            if let Element::A { link } = el {
                proof {
                    assert(old(self)@.stack[i as int] == el);
                }
                let slot = &mut self.links[link];
                push_chars(slot, text);
                proof {
                    assert(href_views(self.links@) =~= prev.update(
                        link as int,
                        prev[link as int] + text@,
                    ));
                }
            }
            i = i + 1;
            proof {
                assert(self.elements@.take(i as int).drop_last() =~= self.elements@.take(i - 1));
                assert(self.elements@.take(i as int).last() == self.elements@[i - 1]);
                assert(href_views(self.links@) =~= hrefs_appended(
                    old(self)@.hrefs,
                    self.elements@.take(i as int),
                    text@,
                ));
            }
        }
        proof {
            assert(self.elements@.take(i as int) =~= self.elements@);
        }
    }

    /// Writes an editor-mode marker for a piece of original markup.
    fn write_meta(&mut self, marker: &Vec<char>)
        ensures
            final(self)@ == (RenderState {
                html: old(self)@.html + meta_html(old(self)@.editor, marker@),
                stack: old(self)@.stack,
                hrefs: old(self)@.hrefs,
                editor: old(self)@.editor,
            }),
    {
        if self.is_editor {
            push_str(&mut self.html, "<span class=\"sillycode-meta\">");
            push_chars(&mut self.html, marker);
            push_str(&mut self.html, "</span>");
            proof {
                assert(self.html@ =~= old(self)@.html + meta_html(old(self)@.editor, marker@));
            }
        }
        proof {
            assert(self.html@ =~= old(self)@.html + meta_html(old(self)@.editor, marker@));
        }
    }

    /// Writes an editor-mode marker given as a string.
    fn write_meta_str(&mut self, marker: &str)
        ensures
            final(self)@ == (RenderState {
                html: old(self)@.html + meta_html(old(self)@.editor, marker@),
                stack: old(self)@.stack,
                hrefs: old(self)@.hrefs,
                editor: old(self)@.editor,
            }),
    {
        let mv = str_chars(marker);
        self.write_meta(&mv);
    }

    /// Handles a text part: the text is HTML-escaped, appended to the
    /// output, and forwarded to every open anchor's href accumulator.
    fn on_text(&mut self, text: &str)
        requires
            wf_state(old(self)@),
        ensures
            final(self)@ == render_step(old(self)@, PartView::Text(text@)),
    {
        let tv = str_chars(text);
        let escaped = escape_html(&tv);
        push_chars(&mut self.html, &escaped);
        self.append_link(&escaped);
        proof {
            assert(self@ =~~= render_step(old(self)@, PartView::Text(text@)));
        }
    }

    /// Handles an escape part: the backslash is shown in editor mode and
    /// nothing else happens; the parser already consumed it.
    fn on_escape(&mut self)
        ensures
            final(self)@ == render_step(old(self)@, PartView::Escape),
    {
        self.write_meta_str("\\");
        proof {
            assert(self@ =~~= render_step(old(self)@, PartView::Escape));
        }
    }

    /// Handles a newline part: every open element is closed, a new line
    /// container is started, and every open element is reopened.
    fn on_newline(&mut self)
        ensures
            final(self)@ == render_step(old(self)@, PartView::Newline),
    {
        self.close_all();
        push_str(&mut self.html, "</div><div>");
        self.open_all();
        proof {
            assert(self@ =~~= render_step(old(self)@, PartView::Newline));
        }
    }

    /// Handles a style part.
    fn on_style(&mut self, style: StyleKind, enable: bool)
        ensures
            final(self)@ == render_step(old(self)@, PartView::Style(style, enable)),
    {
        if matches!(style, StyleKind::Link) {
            // links are a special case: they are never deduplicated
            if enable {
                self.write_meta_str("[url]");
                self.push_link();
            } else {
                self.remove(Target::AnyLink);
                self.write_meta_str("[/url]");
            }
            proof {
                assert(self@ =~~= render_step(old(self)@, PartView::Style(style, enable)));
            }
        } else {
            if enable {
                let mut marker: Vec<char> = Vec::new();
                marker.push('[');
                push_str(&mut marker, style.to_tag());
                marker.push(']');
                proof {
                    assert(marker@ =~= seq!['['] + style_tag(style) + seq![']']);
                }
                self.write_meta(&marker);
            }

            let element = match style {
                StyleKind::Bold => Element::Strong,
                StyleKind::Italic => Element::Em,
                StyleKind::Underline => Element::Ins,
                StyleKind::Strikethrough => Element::Del,
                StyleKind::Link => Element::Strong,
            };
            self.apply(element, enable);

            if !enable {
                let mut marker: Vec<char> = Vec::new();
                marker.push('[');
                marker.push('/');
                push_str(&mut marker, style.to_tag());
                marker.push(']');
                proof {
                    assert(marker@ =~= seq!['[', '/'] + style_tag(style) + seq![']']);
                }
                self.write_meta(&marker);
            }
            proof {
                assert(self@ =~~= render_step(old(self)@, PartView::Style(style, enable)));
            }
        }
    }

    /// Handles a color part.
    fn on_color(&mut self, color: Color, enable: bool)
        ensures
            final(self)@ == render_step(old(self)@, PartView::Color(color, enable)),
    {
        if enable {
            let mut marker: Vec<char> = Vec::new();
            push_str(&mut marker, "[color=");
            push_color(&mut marker, color);
            marker.push(']');
            proof {
                assert(marker@ =~= "[color="@ + color_text(color) + seq![']']);
            }
            self.write_meta(&marker);
            let element = Element::Span { color };
            if !self.contains(element) {
                self.push(element);
            }
        } else {
            self.remove(Target::AnySpan);
            self.write_meta_str("[/color]");
        }
        proof {
            assert(self@ =~~= render_step(old(self)@, PartView::Color(color, enable)));
        }
    }

    /// Handles an emote part.
    fn on_emote(&mut self, emote: EmoteKind)
        ensures
            final(self)@ == render_step(old(self)@, PartView::Emote(emote)),
    {
        if self.is_editor {
            push_str(
                &mut self.html,
                "<span class=\"sillycode-emote\" style=\"background-image: url(/static/emoticons/",
            );
            push_str(&mut self.html, emote.to_name());
            push_str(&mut self.html, ".png)\">[");
            push_str(&mut self.html, emote.to_tag());
            push_str(&mut self.html, "]</span>");
        } else {
            push_str(&mut self.html, "<img class=\"sillycode-emote\" src=\"/static/emoticons/");
            push_str(&mut self.html, emote.to_name());
            push_str(&mut self.html, ".png\" alt=\"");
            push_str(&mut self.html, emote.to_name());
            push_str(&mut self.html, "\">");
        }
        proof {
            assert(self.html@ =~= old(self)@.html + emote_html(old(self)@.editor, emote));
            assert(self@ =~~= render_step(old(self)@, PartView::Emote(emote)));
        }
    }
}

/// A step preserves well-formedness: every anchor still points at an
/// accumulator that exists.
proof fn lemma_step_wf(st: RenderState, p: PartView)
    requires
        wf_state(st),
    ensures
        wf_state(render_step(st, p)),
{
    match p {
        PartView::Text(t) => {
            lemma_hrefs_appended_len(st.hrefs, st.stack, spec_escape(t));
        },
        PartView::Style(k, en) => {
            if k == StyleKind::Link && !en {
                lemma_remove_wf(st, Target::AnyLink);
            } else if k != StyleKind::Link && !en {
                lemma_remove_wf(st, Target::Exact(style_element(k)));
            }
        },
        PartView::Color(c, en) => {
            if !en {
                lemma_remove_wf(st, Target::AnySpan);
            }
        },
        _ => {},
    }
}

/// Forwarding a text to open anchors never changes how many accumulators
/// there are.
proof fn lemma_hrefs_appended_len(hrefs: Seq<Seq<char>>, stack: Seq<Element>, t: Seq<char>)
    ensures
        hrefs_appended(hrefs, stack, t).len() == hrefs.len(),
    decreases stack.len(),
{
    if stack.len() > 0 {
        lemma_hrefs_appended_len(hrefs, stack.drop_last(), t);
    }
}

/// Removal preserves well-formedness: the new stack holds a subset of the
/// old elements and the accumulators are untouched.
proof fn lemma_remove_wf(st: RenderState, t: Target)
    requires
        wf_state(st),
    ensures
        wf_state(remove_state(st, t)),
{
    let i = find_from_top(st.stack, t);
    if i >= 0 {
        lemma_find_from_top_in_range(st.stack, t);
        let after = remove_state(st, t);
        assert forall|k: int| 0 <= k < after.stack.len() implies match #[trigger] after.stack[k] {
            Element::A { link } => (link as int) < after.hrefs.len(),
            _ => true,
        } by {
            if k < i {
                assert(after.stack[k] == st.stack[k]);
            } else {
                assert(after.stack[k] == st.stack[k + 1]);
            }
        }
    }
}

/// A found removal target lies inside the stack.
proof fn lemma_find_from_top_in_range(stack: Seq<Element>, t: Target)
    ensures
        find_from_top(stack, t) < stack.len(),
        find_from_top(stack, t) >= 0 ==> target_matches(
            t,
            stack[find_from_top(stack, t)],
        ),
    decreases stack.len(),
{
    if stack.len() > 0 && !target_matches(t, stack.last()) {
        lemma_find_from_top_in_range(stack.drop_last(), t);
        if find_from_top(stack, t) >= 0 {
            let i = find_from_top(stack.drop_last(), t);
            assert(stack.drop_last()[i] == stack[i]);
        }
    }
}

/// Renders a list of [`Part`]s as HTML; editor mode additionally shows the
/// original markup tokens as visible, styled markers.
pub fn render(parts: Vec<Part>, is_editor: bool) -> (r: String)
    ensures
        r@ == spec_render(part_views(parts@), is_editor),
{
    let ghost views = part_views(parts@);
    let ghost st0 = initial_render_state(is_editor);
    let mut renderer = Renderer::new(is_editor);

    // start the output
    push_str(&mut renderer.html, "<div>");
    proof {
        assert(renderer@ =~~= st0);
        assert(views.take(0) =~= Seq::<PartView>::empty());
    }

    // render the parts
    let mut i: usize = 0;
    while i < parts.len()
        invariant
            i <= parts@.len(),
            views == part_views(parts@),
            renderer@ == render_parts(st0, views.take(i as int)),
            wf_state(renderer@),
            distinct_anchors(renderer@.stack),
        decreases parts@.len() - i,
    {
        proof {
            vstd::std_specs::vec::axiom_spec_len(&renderer.links);
            assert(renderer@.hrefs.len() <= usize::MAX);
        }
        let ghost st_before = renderer@;
        let p = &parts[i];
        proof {
            assert(views[i as int] == parts@[i as int]@);
        }
        match p {
            Part::Text(text) => renderer.on_text(text.as_str()),
            Part::Escape => renderer.on_escape(),
            Part::Newline => renderer.on_newline(),
            Part::Style(style, enable) => renderer.on_style(*style, *enable),
            Part::Color(color, enable) => renderer.on_color(*color, *enable),
            Part::Emote(emote) => renderer.on_emote(*emote),
        }
        proof {
            lemma_step_wf(st_before, views[i as int]);
            lemma_step_keeps_anchors_distinct(st_before, views[i as int]);
        }
        i = i + 1;
        proof {
            assert(views.take(i as int).drop_last() =~= views.take(i - 1));
            assert(views.take(i as int).last() == views[i - 1]);
        }
    }
    proof {
        assert(views.take(i as int) =~= views);
    }
    let ghost done = render_parts(st0, views);

    // close all elements and the output
    renderer.close_all();
    push_str(&mut renderer.html, "</div>");
    proof {
        assert(renderer.html@ =~= done.html + closes_html(done.stack) + "</div>"@);
    }
    let ghost closed = done.html + closes_html(done.stack) + "</div>"@;

    // replace all link placeholders with the accumulated hrefs
    let mut k: usize = 0;
    while k < renderer.links.len()
        invariant
            k <= renderer.links@.len(),
            href_views(renderer.links@) == done.hrefs,
            renderer.html@ == subst_links_upto(closed, done.hrefs, k as int),
        decreases renderer.links@.len() - k,
    {
        let mut pattern: Vec<char> = Vec::new();
        push_placeholder(&mut pattern, k);
        proof {
            assert(pattern@ =~= link_placeholder(k as nat));
            lemma_placeholder_len(k as nat);
        }
        let trimmed = trim(&renderer.links[k]);
        let replacement = ensure_scheme(&trimmed);
        renderer.html = replace(&renderer.html, &pattern, &replacement);
        k = k + 1;
    }
    proof {
        assert(renderer.html@ == subst_links_upto(closed, done.hrefs, done.hrefs.len() as int));
    }

    // postprocess the html to mark line boundaries
    let pat_lead = str_chars("<div> ");
    let rep_lead = str_chars("<div>&nbsp;");
    let pat_trail = str_chars(" </div>");
    let rep_trail = str_chars(" <br></div>");
    let pat_empty = str_chars("<div></div>");
    let rep_empty = str_chars("<div><br></div>");
    proof {
        reveal_strlit("<div> ");
        reveal_strlit(" </div>");
        reveal_strlit("<div></div>");
    }
    renderer.html = replace(&renderer.html, &pat_lead, &rep_lead);
    renderer.html = replace(&renderer.html, &pat_trail, &rep_trail);
    renderer.html = replace(&renderer.html, &pat_empty, &rep_empty);

    chars_string(&renderer.html)
}

/// The final href of a trimmed accumulation: `https://` is prepended
/// unless the text already starts with it.
fn ensure_scheme(trimmed: &Vec<char>) -> (r: Vec<char>)
    ensures
        r@ == with_scheme(trimmed@),
{
    let scheme = str_chars("https://");
    let n = scheme.len();
    let mut has_scheme = trimmed.len() >= n;
    if has_scheme {
        let mut j: usize = 0;
        while j < n
            invariant
                n == "https://"@.len(),
                scheme@ == "https://"@,
                trimmed@.len() >= n,
                j <= n,
                has_scheme == (forall|k: int| 0 <= k < j ==> trimmed@[k] == "https://"@[k]),
            decreases n - j,
        {
            if trimmed[j] != scheme[j] {
                has_scheme = false;
            }
            j = j + 1;
        }
    }
    let mut r: Vec<char> = Vec::new();
    if has_scheme {
        proof {
            assert(trimmed@.take(n as int) =~= "https://"@);
        }
    } else {
        proof {
            if trimmed@.len() >= n {
                assert(trimmed@.take(n as int) != "https://"@) by {
                    let k = choose|k: int|
                        0 <= k < n && trimmed@[k] != "https://"@[k];
                    assert(trimmed@.take(n as int)[k] != "https://"@[k]);
                }
            }
        }
        push_chars(&mut r, &scheme);
    }
    push_chars(&mut r, trimmed);
    proof {
        assert(r@ =~= with_scheme(trimmed@));
    }
    r
}

/// A link placeholder is never empty.
proof fn lemma_placeholder_len(id: nat)
    ensures
        link_placeholder(id).len() > 0,
{
    assert(dec_digits(id).len() >= 1);
}

/// Open elements persist across a line boundary: a newline closes every
/// open element, starts a fresh line container, and reopens every element
/// in its original order, leaving the stack and the href accumulators
/// exactly as they were.
pub proof fn lemma_newline_keeps_elements_open(st: RenderState)
    ensures
        render_step(st, PartView::Newline).stack == st.stack,
        render_step(st, PartView::Newline).hrefs == st.hrefs,
        render_step(st, PartView::Newline).html == st.html + closes_html(st.stack)
            + "</div><div>"@ + opens_html(st.stack),
{
}

/// Escaped text never holds a raw HTML special character: no `<`, `>`,
/// `"` or `\'` survives escaping, so user text cannot open a tag or leave
/// an attribute.
pub proof fn lemma_escape_no_raw_specials(t: Seq<char>)
    ensures
        forall|i: int|
            0 <= i < spec_escape(t).len() ==> #[trigger] spec_escape(t)[i] != '<'
                && spec_escape(t)[i] != '>' && spec_escape(t)[i] != '"' && spec_escape(t)[i]
                != '\'',
    decreases t.len(),
{
    reveal_strlit("&amp;");
    reveal_strlit("&lt;");
    reveal_strlit("&gt;");
    reveal_strlit("&quot;");
    reveal_strlit("&#39;");
    if t.len() > 0 {
        lemma_escape_no_raw_specials(t.drop_last());
        let pre = spec_escape(t.drop_last());
        let tail = escape_char(t.last());
        assert forall|i: int|
            0 <= i < spec_escape(t).len() implies #[trigger] spec_escape(t)[i] != '<'
            && spec_escape(t)[i] != '>' && spec_escape(t)[i] != '"' && spec_escape(t)[i]
            != '\'' by {
            if i < pre.len() {
                assert(spec_escape(t)[i] == pre[i]);
            } else {
                assert(spec_escape(t)[i] == tail[i - pre.len()]);
            }
        }
    }
}

/// Rendering an empty sequence yields a single empty line container
/// holding only a line-break marker, in both modes.
pub proof fn lemma_render_empty(editor: bool)
    ensures
        spec_render(Seq::<PartView>::empty(), editor) == "<div><br></div>"@,
{
    reveal_strlit("<div>");
    reveal_strlit("</div>");
    reveal_strlit("<div> ");
    reveal_strlit("<div>&nbsp;");
    reveal_strlit(" </div>");
    reveal_strlit(" <br></div>");
    reveal_strlit("<div></div>");
    reveal_strlit("<div><br></div>");
    let st0 = initial_render_state(editor);
    let done = render_parts(st0, Seq::<PartView>::empty());
    assert(done == st0);
    assert(closes_html(done.stack) == Seq::<char>::empty());
    let closed = done.html + closes_html(done.stack) + "</div>"@;
    assert(closed =~= "<div></div>"@);
    assert(subst_links_upto(closed, done.hrefs, 0) == closed);
    assert forall|i: int|
        0 <= i <= "<div></div>"@.len() - "<div> "@.len() implies #[trigger] "<div></div>"@.subrange(
        i,
        i + "<div> "@.len(),
    ) != "<div> "@ by {
        assert("<div></div>"@.subrange(i, i + "<div> "@.len())[5] == "<div></div>"@[i + 5]);
        assert("<div> "@[5] == ' ');
    }
    crate::text::lemma_replace_absent("<div></div>"@, "<div> "@, "<div>&nbsp;"@);
    assert forall|i: int|
        0 <= i <= "<div></div>"@.len() - " </div>"@.len() implies #[trigger] "<div></div>"@.subrange(
        i,
        i + " </div>"@.len(),
    ) != " </div>"@ by {
        assert("<div></div>"@.subrange(i, i + " </div>"@.len())[0] == "<div></div>"@[i]);
        assert(" </div>"@[0] == ' ');
    }
    crate::text::lemma_replace_absent("<div></div>"@, " </div>"@, " <br></div>"@);
    crate::text::lemma_replace_whole("<div></div>"@, "<div><br></div>"@);
    assert(spec_render(Seq::<PartView>::empty(), editor) == spec_replace(
        "<div></div>"@,
        "<div></div>"@,
        "<div><br></div>"@,
    ));
}

/// The anchor id an element carries, if it is an anchor.
pub open spec fn anchor_id(el: Element) -> Option<usize> {
    match el {
        Element::A { link } => Some(link),
        _ => None,
    }
}

/// No two anchors on the stack share a link record. The renderer keeps
/// this by construction: every anchor is opened with a fresh id.
pub open spec fn distinct_anchors(stack: Seq<Element>) -> bool {
    forall|a: int, b: int|
        0 <= a < b < stack.len() && anchor_id(#[trigger] stack[a]) is Some && anchor_id(
            #[trigger] stack[b],
        ) is Some ==> anchor_id(stack[a]) != anchor_id(stack[b])
}

/// Links accumulate independently: when a text is forwarded to the open
/// anchors, the accumulator of every anchor on the stack — an outer link
/// and any link nested inside it alike — grows by exactly that text, and
/// every other accumulator is left unchanged.
pub proof fn lemma_text_feeds_every_open_anchor(
    hrefs: Seq<Seq<char>>,
    stack: Seq<Element>,
    t: Seq<char>,
    id: usize,
)
    requires
        distinct_anchors(stack),
        (id as int) < hrefs.len(),
    ensures
        hrefs_appended(hrefs, stack, t)[id as int] == if stack.contains(
            Element::A { link: id },
        ) {
            hrefs[id as int] + t
        } else {
            hrefs[id as int]
        },
    decreases stack.len(),
{
    lemma_hrefs_appended_len(hrefs, stack, t);
    if stack.len() == 0 {
        assert(!stack.contains(Element::A { link: id }));
    } else {
        let pre = stack.drop_last();
        assert(distinct_anchors(pre)) by {
            assert(forall|a: int, b: int|
                0 <= a < b < pre.len() ==> pre[a] == stack[a] && pre[b] == stack[b]);
        }
        lemma_text_feeds_every_open_anchor(hrefs, pre, t, id);
        lemma_hrefs_appended_len(hrefs, pre, t);
        let h1 = hrefs_appended(hrefs, pre, t);
        if stack.last() == (Element::A { link: id }) {
            assert(!pre.contains(Element::A { link: id })) by {
                if pre.contains(Element::A { link: id }) {
                    let k = choose|k: int|
                        0 <= k < pre.len() && pre[k] == (Element::A { link: id });
                    assert(anchor_id(stack[k]) == anchor_id(stack[stack.len() - 1]));
                }
            }
            assert(stack.contains(Element::A { link: id })) by {
                assert(stack[stack.len() - 1] == (Element::A { link: id }));
            }
        } else {
            assert(stack.contains(Element::A { link: id }) == pre.contains(
                Element::A { link: id },
            )) by {
                if stack.contains(Element::A { link: id }) {
                    let k = choose|k: int|
                        0 <= k < stack.len() && stack[k] == (Element::A { link: id });
                    assert(k < pre.len() && pre[k] == stack[k]);
                }
                if pre.contains(Element::A { link: id }) {
                    let k = choose|k: int|
                        0 <= k < pre.len() && pre[k] == (Element::A { link: id });
                    assert(stack[k] == pre[k]);
                }
            }
        }
    }
}

/// Removal keeps anchors distinct: the new stack holds a subset of the
/// old elements, at positions that only shift down.
proof fn lemma_remove_keeps_anchors_distinct(st: RenderState, t: Target)
    requires
        distinct_anchors(st.stack),
    ensures
        distinct_anchors(remove_state(st, t).stack),
{
    let i = find_from_top(st.stack, t);
    if i >= 0 {
        lemma_find_from_top_in_range(st.stack, t);
        let after = remove_state(st, t);
        assert forall|a: int, b: int|
            0 <= a < b < after.stack.len() && anchor_id(#[trigger] after.stack[a]) is Some
                && anchor_id(#[trigger] after.stack[b]) is Some implies anchor_id(after.stack[a])
            != anchor_id(after.stack[b]) by {
            let oa = if a < i {
                a
            } else {
                a + 1
            };
            let ob = if b < i {
                b
            } else {
                b + 1
            };
            assert(after.stack[a] == st.stack[oa]);
            assert(after.stack[b] == st.stack[ob]);
        }
    }
}

/// Every step keeps anchors distinct: a new anchor always takes a fresh
/// id, a removal only drops elements, and nothing else touches the stack.
pub proof fn lemma_step_keeps_anchors_distinct(st: RenderState, p: PartView)
    requires
        wf_state(st),
        distinct_anchors(st.stack),
        st.hrefs.len() <= usize::MAX,
    ensures
        distinct_anchors(render_step(st, p).stack),
{
    match p {
        PartView::Style(k, en) => {
            if k == StyleKind::Link {
                if en {
                    let el = Element::A { link: st.hrefs.len() as usize };
                    let after = st.stack.push(el);
                    assert forall|a: int, b: int|
                        0 <= a < b < after.len() && anchor_id(#[trigger] after[a]) is Some
                            && anchor_id(#[trigger] after[b]) is Some implies anchor_id(after[a])
                        != anchor_id(after[b]) by {
                        if b < after.len() - 1 {
                            assert(after[a] == st.stack[a] && after[b] == st.stack[b]);
                        } else {
                            assert(after[b] == el);
                            assert(after[a] == st.stack[a]);
                            assert(match st.stack[a] {
                                Element::A { link } => (link as int) < st.hrefs.len(),
                                _ => true,
                            });
                        }
                    }
                } else {
                    lemma_remove_keeps_anchors_distinct(st, Target::AnyLink);
                }
            } else {
                if en {
                    if !st.stack.contains(style_element(k)) {
                        let after = st.stack.push(style_element(k));
                        assert(forall|a: int|
                            0 <= a < after.len() - 1 ==> after[a] == st.stack[a]);
                    }
                } else {
                    lemma_remove_keeps_anchors_distinct(st, Target::Exact(style_element(k)));
                }
            }
        },
        PartView::Color(c, en) => {
            if en {
                if !st.stack.contains(Element::Span { color: c }) {
                    let after = st.stack.push(Element::Span { color: c });
                    assert(forall|a: int| 0 <= a < after.len() - 1 ==> after[a] == st.stack[a]);
                }
            } else {
                lemma_remove_keeps_anchors_distinct(st, Target::AnySpan);
            }
        },
        _ => {},
    }
}

/// An out-of-order close still yields well-nested HTML: the nearest match
/// from the top is removed, everything that was open above it is closed
/// top-first before the match closes, and is then reopened in its original
/// order, so the elements still logically open stay open and in order.
pub proof fn lemma_out_of_order_close_reconciles(st: RenderState, t: Target)
    requires
        find_from_top(st.stack, t) >= 0,
    ensures
        target_matches(t, st.stack[find_from_top(st.stack, t)]),
        remove_state(st, t).stack == st.stack.take(find_from_top(st.stack, t)) + st.stack.skip(
            find_from_top(st.stack, t) + 1,
        ),
        remove_state(st, t).html == st.html + closes_html(
            st.stack.skip(find_from_top(st.stack, t) + 1),
        ) + close_tag_html(st.stack[find_from_top(st.stack, t)]) + opens_html(
            st.stack.skip(find_from_top(st.stack, t) + 1),
        ),
        remove_state(st, t).hrefs == st.hrefs,
{
    lemma_find_from_top_in_range(st.stack, t);
}

} // verus!
