//! The element model: one classified unit of parsed sillycode markup.

use vstd::prelude::*;

use crate::text::chars_string;
use crate::text::push_str;

verus! {

/// The kind of styling a style toggle applies.
#[derive(Debug, Clone, Copy, PartialEq, Eq, Structural)]
pub enum StyleKind {
    /// Bold text `[b]`, rendered as `<strong>`.
    Bold,
    /// Italic text `[i]`, rendered as `<em>`.
    Italic,
    /// Underlined text `[u]`, rendered as `<ins>`.
    Underline,
    /// Strikethrough text `[s]`, rendered as `<del>`.
    Strikethrough,
    /// Link `[url]`, rendered as `<a href="...">`.
    Link,
}

/// The tag text of a style kind, as it stands between the brackets.
pub open spec fn style_tag(k: StyleKind) -> Seq<char> {
    match k {
        StyleKind::Bold => "b"@,
        StyleKind::Italic => "i"@,
        StyleKind::Underline => "u"@,
        StyleKind::Strikethrough => "s"@,
        StyleKind::Link => "url"@,
    }
}

impl StyleKind {
    /// Returns the tag for this style (e.g. "b" for bold);
    /// a closing tag adds a leading slash.
    pub fn to_tag(&self) -> (s: &str)
        ensures
            s@ == style_tag(*self),
    {
        match self {
            StyleKind::Bold => "b",
            StyleKind::Italic => "i",
            StyleKind::Underline => "u",
            StyleKind::Strikethrough => "s",
            StyleKind::Link => "url",
        }
    }
}

/// The kind of emoticon an emote element shows.
#[derive(Debug, Clone, Copy, PartialEq, Eq, Structural)]
pub enum EmoteKind {
    /// Smiley face `[:)]`.
    Smile,
    /// Sad face `[:(]`.
    Sad,
    /// Big smile `[:D]`.
    ColonD,
    /// Colon-three face `[:3]`.
    ColonThree,
    /// Fearful face `[D:]`.
    Fearful,
    /// Sunglasses `[B)]`.
    Sunglasses,
    /// Crying face `[;(]`.
    Crying,
    /// Winking face `[;)]`.
    Winking,
}

/// The tag text of an emote kind, as it stands between the brackets.
pub open spec fn emote_tag(k: EmoteKind) -> Seq<char> {
    match k {
        EmoteKind::Smile => ":)"@,
        EmoteKind::Sad => ":("@,
        EmoteKind::ColonD => ":D"@,
        EmoteKind::ColonThree => ":3"@,
        EmoteKind::Fearful => "D:"@,
        EmoteKind::Sunglasses => "B)"@,
        EmoteKind::Crying => ";("@,
        EmoteKind::Winking => ";)"@,
    }
}

/// The asset name of an emote kind, without an extension.
pub open spec fn emote_name(k: EmoteKind) -> Seq<char> {
    match k {
        EmoteKind::Smile => "smile"@,
        EmoteKind::Sad => "sad"@,
        EmoteKind::ColonD => "colond"@,
        EmoteKind::ColonThree => "colonthree"@,
        EmoteKind::Fearful => "fearful"@,
        EmoteKind::Sunglasses => "sunglasses"@,
        EmoteKind::Crying => "crying"@,
        EmoteKind::Winking => "winking"@,
    }
}

impl EmoteKind {
    /// Returns the tag for this emote (e.g. ":)" for a smile).
    pub fn to_tag(&self) -> (s: &str)
        ensures
            s@ == emote_tag(*self),
    {
        match self {
            EmoteKind::Smile => ":)",
            EmoteKind::Sad => ":(",
            EmoteKind::ColonD => ":D",
            EmoteKind::ColonThree => ":3",
            EmoteKind::Fearful => "D:",
            EmoteKind::Sunglasses => "B)",
            EmoteKind::Crying => ";(",
            EmoteKind::Winking => ";)",
        }
    }

    /// Returns the file name of this emote, no extension (e.g. "colonthree" for :3).
    pub fn to_name(&self) -> (s: &str)
        ensures
            s@ == emote_name(*self),
    {
        match self {
            EmoteKind::Smile => "smile",
            EmoteKind::Sad => "sad",
            EmoteKind::ColonD => "colond",
            EmoteKind::ColonThree => "colonthree",
            EmoteKind::Fearful => "fearful",
            EmoteKind::Sunglasses => "sunglasses",
            EmoteKind::Crying => "crying",
            EmoteKind::Winking => "winking",
        }
    }
}

/// A hex color value like "#ad77f1": three 8-bit components.
#[derive(Debug, Clone, Copy, PartialEq, Eq, Structural)]
pub struct Color {
    /// Red component (0-255).
    pub r: u8,
    /// Green component (0-255).
    pub g: u8,
    /// Blue component (0-255).
    pub b: u8,
}

impl Color {
    /// Creates a new color value.
    pub fn new(r: u8, g: u8, b: u8) -> (c: Self)
        ensures
            c == (Color { r, g, b }),
    {
        Color { r, g, b }
    }
}

impl Default for Color {
    /// The zero color, black.
    fn default() -> (c: Self)
        ensures
            c == (Color { r: 0, g: 0, b: 0 }),
    {
        Color { r: 0, g: 0, b: 0 }
    }
}

/// One part of some sillycode markup.
#[derive(Debug, Clone, PartialEq)]
pub enum Part {
    /// A plain text part.
    Text(String),
    /// An escape character part.
    Escape,
    /// A newline character part.
    Newline,
    /// A style formatting command (enable or disable; each effect is independent).
    Style(StyleKind, bool),
    /// A color formatting command (enable or disable; color scopes act as a stack).
    Color(Color, bool),
    /// An emoticon image part.
    Emote(EmoteKind),
}

/// The mathematical model of a [`Part`]: text is a sequence of
/// Unicode scalar values, everything else is carried as is.
pub ghost enum PartView {
    Text(Seq<char>),
    Escape,
    Newline,
    Style(StyleKind, bool),
    Color(Color, bool),
    Emote(EmoteKind),
}

impl View for Part {
    type V = PartView;

    open spec fn view(&self) -> PartView {
        match self {
            Part::Text(s) => PartView::Text(s@),
            Part::Escape => PartView::Escape,
            Part::Newline => PartView::Newline,
            Part::Style(k, en) => PartView::Style(*k, *en),
            Part::Color(c, en) => PartView::Color(*c, *en),
            Part::Emote(k) => PartView::Emote(*k),
        }
    }
}

/// The models of a sequence of parts, element by element.
pub open spec fn part_views(parts: Seq<Part>) -> Seq<PartView> {
    parts.map_values(|p: Part| p@)
}

/// The character of a decimal digit.
pub open spec fn digit_char(d: nat) -> char {
    if d == 0 {
        '0'
    } else if d == 1 {
        '1'
    } else if d == 2 {
        '2'
    } else if d == 3 {
        '3'
    } else if d == 4 {
        '4'
    } else if d == 5 {
        '5'
    } else if d == 6 {
        '6'
    } else if d == 7 {
        '7'
    } else if d == 8 {
        '8'
    } else {
        '9'
    }
}

/// The character of a hex digit, lowercase.
pub open spec fn hex_char(d: int) -> char {
    if d < 10 {
        digit_char(if d < 0 {
            0
        } else {
            d as nat
        })
    } else if d == 10 {
        'a'
    } else if d == 11 {
        'b'
    } else if d == 12 {
        'c'
    } else if d == 13 {
        'd'
    } else if d == 14 {
        'e'
    } else {
        'f'
    }
}

/// The canonical text of a color: `#` and six lowercase hex digits,
/// zero-padded.
pub open spec fn color_text(c: Color) -> Seq<char> {
    seq![
        '#',
        hex_char(c.r as int / 16),
        hex_char(c.r as int % 16),
        hex_char(c.g as int / 16),
        hex_char(c.g as int % 16),
        hex_char(c.b as int / 16),
        hex_char(c.b as int % 16),
    ]
}

/// The character of a decimal digit.
pub(crate) fn digit_char_exec(d: u8) -> (c: char)
    ensures
        c == digit_char(d as nat),
{
    if d == 0 {
        '0'
    } else if d == 1 {
        '1'
    } else if d == 2 {
        '2'
    } else if d == 3 {
        '3'
    } else if d == 4 {
        '4'
    } else if d == 5 {
        '5'
    } else if d == 6 {
        '6'
    } else if d == 7 {
        '7'
    } else if d == 8 {
        '8'
    } else {
        '9'
    }
}

/// The character of a hex digit, lowercase.
pub(crate) fn hex_char_exec(d: u8) -> (c: char)
    requires
        d < 16,
    ensures
        c == hex_char(d as int),
{
    if d < 10 {
        digit_char_exec(d)
    } else if d == 10 {
        'a'
    } else if d == 11 {
        'b'
    } else if d == 12 {
        'c'
    } else if d == 13 {
        'd'
    } else if d == 14 {
        'e'
    } else {
        'f'
    }
}

/// Appends the canonical text of a color.
pub fn push_color(out: &mut Vec<char>, c: Color)
    ensures
        final(out)@ == old(out)@ + color_text(c),
{
    out.push('#');
    out.push(hex_char_exec(c.r / 16));
    out.push(hex_char_exec(c.r % 16));
    out.push(hex_char_exec(c.g / 16));
    out.push(hex_char_exec(c.g % 16));
    out.push(hex_char_exec(c.b / 16));
    out.push(hex_char_exec(c.b % 16));
    proof {
        assert(final(out)@ =~= old(out)@ + color_text(c));
    }
}

/// The markup text a part stands for: what the parser consumed to
/// produce it, in canonical form.
pub open spec fn markup_text(p: PartView) -> Seq<char> {
    match p {
        PartView::Text(t) => t,
        PartView::Escape => "\\"@,
        PartView::Newline => "\n"@,
        PartView::Style(k, en) => if en {
            seq!['['] + style_tag(k) + seq![']']
        } else {
            seq!['[', '/'] + style_tag(k) + seq![']']
        },
        PartView::Color(c, en) => if en {
            "[color="@ + color_text(c) + seq![']']
        } else {
            "[/color]"@
        },
        PartView::Emote(k) => seq!['['] + emote_tag(k) + seq![']'],
    }
}

impl Color {
    /// The canonical text of the color, like "#ad77f1".
    pub fn to_text(&self) -> (s: String)
        ensures
            s@ == color_text(*self),
    {
        let mut v: Vec<char> = Vec::new();
        push_color(&mut v, *self);
        proof {
            assert(v@ =~= color_text(*self));
        }
        chars_string(&v)
    }
}

impl Part {
    /// The part written back as sillycode markup.
    pub fn to_markup(&self) -> (s: String)
        ensures
            s@ == markup_text(self@),
    {
        let mut v: Vec<char> = Vec::new();
        match self {
            Part::Text(text) => {
                push_str(&mut v, text.as_str());
            },
            Part::Escape => {
                v.push('\\');
            },
            Part::Newline => {
                v.push('\n');
            },
            Part::Style(style, enable) => {
                v.push('[');
                if !*enable {
                    v.push('/');
                }
                push_str(&mut v, style.to_tag());
                v.push(']');
            },
            Part::Color(color, enable) => {
                if *enable {
                    push_str(&mut v, "[color=");
                    push_color(&mut v, *color);
                    v.push(']');
                } else {
                    push_str(&mut v, "[/color]");
                }
            },
            Part::Emote(emote) => {
                v.push('[');
                push_str(&mut v, emote.to_tag());
                v.push(']');
            },
        }
        proof {
            reveal_strlit("\\");
            reveal_strlit("\n");
            assert(v@ =~= markup_text(self@));
        }
        chars_string(&v)
    }
}

} // verus!
