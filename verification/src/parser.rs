//! The lexer/parser: raw text to a flat sequence of typed [`Part`]s.
//!
//! The parser scans the input one character at a time, keeping a buffer of
//! untyped text and an escape flag. A `]` triggers tag recognition against
//! the nearest preceding `[`; unrecognized bracket content degrades to
//! literal text, so parsing is total.

use vstd::prelude::*;

use crate::parts::Color;
use crate::parts::EmoteKind;
use crate::parts::Part;
use crate::parts::PartView;
use crate::parts::StyleKind;
use crate::parts::emote_tag;
use crate::parts::part_views;
use crate::parts::style_tag;
use crate::text::chars_string;

verus! {

/// The parser's state: the parts emitted so far, the buffered text,
/// and whether the previous character was an unconsumed escape.
#[verifier::ext_equal]
pub ghost struct ParseState {
    pub parts: Seq<PartView>,
    pub buffer: Seq<char>,
    pub escape: bool,
}

/// The state a parse starts from: nothing emitted, nothing buffered.
pub open spec fn initial_state() -> ParseState {
    ParseState { parts: Seq::empty(), buffer: Seq::empty(), escape: false }
}

/// Flushing: the buffer becomes a text part if it is not empty.
pub open spec fn flush_state(st: ParseState) -> ParseState {
    if st.buffer.len() > 0 {
        ParseState {
            parts: st.parts.push(PartView::Text(st.buffer)),
            buffer: Seq::empty(),
            escape: st.escape,
        }
    } else {
        st
    }
}

/// Whether a character is an ASCII hex digit, either case.
pub open spec fn is_hex_digit(c: char) -> bool {
    (48 <= c as u32 && c as u32 <= 57) || (97 <= c as u32 && c as u32 <= 102) || (65 <= c as u32
        && c as u32 <= 70)
}

/// The value of an ASCII hex digit.
pub open spec fn hex_val(c: char) -> int {
    if 48 <= c as u32 && c as u32 <= 57 {
        c as u32 - 48
    } else if 97 <= c as u32 && c as u32 <= 102 {
        c as u32 - 87
    } else {
        c as u32 - 55
    }
}

/// The classification of a style tag body like "b" or "/url":
/// an optional leading slash marks "disable", and the rest must equal
/// one of the five style tag names.
pub open spec fn classify_style(body: Seq<char>) -> Option<PartView> {
    let closing = body.len() > 0 && body[0] == '/';
    let name = if closing {
        body.drop_first()
    } else {
        body
    };
    if name == style_tag(StyleKind::Bold) {
        Some(PartView::Style(StyleKind::Bold, !closing))
    } else if name == style_tag(StyleKind::Italic) {
        Some(PartView::Style(StyleKind::Italic, !closing))
    } else if name == style_tag(StyleKind::Underline) {
        Some(PartView::Style(StyleKind::Underline, !closing))
    } else if name == style_tag(StyleKind::Strikethrough) {
        Some(PartView::Style(StyleKind::Strikethrough, !closing))
    } else if name == style_tag(StyleKind::Link) {
        Some(PartView::Style(StyleKind::Link, !closing))
    } else {
        None
    }
}

/// The classification of an emote tag body like ":)": it must equal
/// one of the eight emote tag strings.
pub open spec fn classify_emote(body: Seq<char>) -> Option<PartView> {
    if body == emote_tag(EmoteKind::Smile) {
        Some(PartView::Emote(EmoteKind::Smile))
    } else if body == emote_tag(EmoteKind::Sad) {
        Some(PartView::Emote(EmoteKind::Sad))
    } else if body == emote_tag(EmoteKind::ColonD) {
        Some(PartView::Emote(EmoteKind::ColonD))
    } else if body == emote_tag(EmoteKind::ColonThree) {
        Some(PartView::Emote(EmoteKind::ColonThree))
    } else if body == emote_tag(EmoteKind::Fearful) {
        Some(PartView::Emote(EmoteKind::Fearful))
    } else if body == emote_tag(EmoteKind::Sunglasses) {
        Some(PartView::Emote(EmoteKind::Sunglasses))
    } else if body == emote_tag(EmoteKind::Crying) {
        Some(PartView::Emote(EmoteKind::Crying))
    } else if body == emote_tag(EmoteKind::Winking) {
        Some(PartView::Emote(EmoteKind::Winking))
    } else {
        None
    }
}

/// The color a well-formed color tag body carries in its six hex digits.
pub open spec fn color_of(body: Seq<char>) -> Color {
    Color {
        r: (hex_val(body[7]) * 16 + hex_val(body[8])) as u8,
        g: (hex_val(body[9]) * 16 + hex_val(body[10])) as u8,
        b: (hex_val(body[11]) * 16 + hex_val(body[12])) as u8,
    }
}

/// The classification of a color tag body: `color=#` followed by exactly
/// six hex digits enables that color; `/color` disables the nearest scope.
pub open spec fn classify_color(body: Seq<char>) -> Option<PartView> {
    if body.len() == 13 && body.take(7) == "color=#"@ && (forall|i: int|
        7 <= i < 13 ==> is_hex_digit(#[trigger] body[i]))  {
        Some(PartView::Color(color_of(body), true))
    } else if body == "/color"@ {
        Some(PartView::Color(Color { r: 0, g: 0, b: 0 }, false))
    } else {
        None
    }
}

/// The classification of any tag body: the length must be between 1 and 32
/// characters, and style, emote and color tags are tried in that order.
pub open spec fn classify_tag(body: Seq<char>) -> Option<PartView> {
    if body.len() < 1 || body.len() > 32 {
        None
    } else if classify_style(body) is Some {
        classify_style(body)
    } else if classify_emote(body) is Some {
        classify_emote(body)
    } else {
        classify_color(body)
    }
}

/// The position of the last `[` in the buffer, or -1 when there is none.
pub open spec fn find_last_bracket(s: Seq<char>) -> int
    decreases s.len(),
{
    if s.len() == 0 {
        -1
    } else if s[s.len() - 1] == '[' {
        s.len() - 1
    } else {
        find_last_bracket(s.drop_last())
    }
}

/// The result of attempting tag recognition at a `]`: the recognized tag is
/// excised from the buffer, the text before it is flushed, and the tag's part
/// is emitted. Recognition fails when there is no preceding `[`, when the `[`
/// opens the buffer right after an escape, or when the body is no tag.
pub open spec fn try_tag(st: ParseState) -> Option<ParseState> {
    let idx = find_last_bracket(st.buffer);
    if idx < 0 {
        None
    } else if idx == 0 && st.parts.len() > 0 && st.parts.last() is Escape {
        None
    } else {
        match classify_tag(st.buffer.skip(idx + 1)) {
            Some(p) => {
                let flushed = flush_state(
                    ParseState {
                        parts: st.parts,
                        buffer: st.buffer.take(idx),
                        escape: st.escape,
                    },
                );
                Some(
                    ParseState {
                        parts: flushed.parts.push(p),
                        buffer: Seq::empty(),
                        escape: st.escape,
                    },
                )
            },
            None => None,
        }
    }
}

/// A character taken verbatim: a newline flushes the buffer and emits a
/// newline part; anything else is buffered. Either way the escape flag ends
/// consumed.
pub open spec fn plain_char(st: ParseState, c: char) -> ParseState {
    if c == '\n' {
        let flushed = flush_state(st);
        ParseState {
            parts: flushed.parts.push(PartView::Newline),
            buffer: Seq::empty(),
            escape: false,
        }
    } else {
        ParseState { parts: st.parts, buffer: st.buffer.push(c), escape: false }
    }
}

/// One step of the parser on one character.
pub open spec fn parse_step(st: ParseState, c: char) -> ParseState {
    if !st.escape && c == '\\' {
        let flushed = flush_state(st);
        ParseState { parts: flushed.parts.push(PartView::Escape), buffer: Seq::empty(), escape: true }
    } else if !st.escape && c == ']' {
        match try_tag(st) {
            Some(tagged) => tagged,
            None => plain_char(st, c),
        }
    } else {
        plain_char(st, c)
    }
}

/// The parser's state after consuming a sequence of characters.
pub open spec fn parse_chars(st: ParseState, s: Seq<char>) -> ParseState
    decreases s.len(),
{
    if s.len() == 0 {
        st
    } else {
        parse_chars(parse_step(st, s[0]), s.drop_first())
    }
}

/// Consuming one more character steps the state once.
pub proof fn lemma_parse_chars_snoc(st: ParseState, s: Seq<char>, c: char)
    ensures
        parse_chars(st, s.push(c)) == parse_step(parse_chars(st, s), c),
    decreases s.len(),
{
    if s.len() == 0 {
        assert(s.push(c)[0] == c);
        assert(s.push(c).drop_first() =~= Seq::<char>::empty());
        assert(parse_chars(st, s.push(c)) == parse_chars(
            parse_step(st, c),
            Seq::<char>::empty(),
        ));
        assert(parse_chars(st, s) == st);
    } else {
        assert(s.push(c)[0] == s[0]);
        assert(s.push(c).drop_first() =~= s.drop_first().push(c));
        lemma_parse_chars_snoc(parse_step(st, s[0]), s.drop_first(), c);
        assert(parse_chars(st, s.push(c)) == parse_chars(
            parse_step(st, s[0]),
            s.drop_first().push(c),
        ));
        assert(parse_chars(st, s) == parse_chars(parse_step(st, s[0]), s.drop_first()));
    }
}

/// What parsing a text yields: every character consumed, then a final flush.
pub open spec fn spec_parse(s: Seq<char>) -> Seq<PartView> {
    flush_state(parse_chars(initial_state(), s)).parts
}

/// The number of visible units of one part: a text part counts its Unicode
/// scalar values, a newline and an emote count one, everything else zero.
pub open spec fn part_units(p: PartView) -> nat {
    match p {
        PartView::Text(t) => t.len(),
        PartView::Newline => 1,
        PartView::Emote(_) => 1,
        _ => 0,
    }
}

/// The number of visible units of a sequence of parts.
pub open spec fn spec_length(parts: Seq<PartView>) -> nat
    decreases parts.len(),
{
    if parts.len() == 0 {
        0
    } else {
        spec_length(parts.drop_last()) + part_units(parts.last())
    }
}

/// Parser for sillycode markup.
struct Parser {
    /// Output parts.
    parts: Vec<Part>,
    /// Buffer for text parts.
    buffer: Vec<char>,
    /// Whether the previous character was an escape.
    escape: bool,
}

impl View for Parser {
    type V = ParseState;

    closed spec fn view(&self) -> ParseState {
        ParseState { parts: part_views(self.parts@), buffer: self.buffer@, escape: self.escape }
    }
}

/// Whether the characters of `v` from `start` on equal the string `s`.
fn chars_from_eq_str(v: &Vec<char>, start: usize, s: &str) -> (r: bool)
    requires
        start <= v@.len(),
    ensures
        r == (v@.skip(start as int) == s@),
{
    let n: usize = s.unicode_len();
    let vlen: usize = v.len();
    if vlen - start != n {
        proof {
            assert(v@.skip(start as int).len() != s@.len());
        }
        return false;
    }
    let mut j: usize = 0;
    while j < n
        invariant
            vlen == v@.len(),
            start + n <= v@.len(),
            n == s@.len(),
            j <= n,
            forall|k: int| 0 <= k < j ==> v@[start + k] == s@[k],
        decreases n - j,
    {
        let idx: usize = start + j;
        let cv = v[idx];
        if cv != s.get_char(j) {
            proof {
                assert(v@.skip(start as int)[j as int] != s@[j as int]);
            }
            return false;
        }
        j = j + 1;
    }
    proof {
        assert(v@.skip(start as int) =~= s@);
    }
    true
}

/// The value of an ASCII hex digit, or nothing for any other character.
fn hex_digit(c: char) -> (r: Option<u8>)
    ensures
        match r {
            Some(v) => is_hex_digit(c) && v == hex_val(c),
            None => !is_hex_digit(c),
        },
{
    let u = c as u32;
    if 48 <= u && u <= 57 {
        Some((u - 48) as u8)
    } else if 97 <= u && u <= 102 {
        Some((u - 87) as u8)
    } else if 65 <= u && u <= 70 {
        Some((u - 55) as u8)
    } else {
        None
    }
}

/// Parses a style tag body like "b" or "/url".
fn parse_style_tag(body: &Vec<char>) -> (r: Option<Part>)
    ensures
        match r {
            Some(p) => classify_style(body@) == Some(p@),
            None => classify_style(body@) is None,
        },
{
    let mut start: usize = 0;
    let mut enable = true;

    // check if the tag is closing
    if body.len() > 0 && body[0] == '/' {
        enable = false;
        start = 1;
    }

    proof {
        if start == 1 {
            assert(body@.skip(1) =~= body@.drop_first());
        } else {
            assert(body@.skip(0) =~= body@);
        }
    }

    if chars_from_eq_str(body, start, "b") {
        Some(Part::Style(StyleKind::Bold, enable))
    } else if chars_from_eq_str(body, start, "i") {
        Some(Part::Style(StyleKind::Italic, enable))
    } else if chars_from_eq_str(body, start, "u") {
        Some(Part::Style(StyleKind::Underline, enable))
    } else if chars_from_eq_str(body, start, "s") {
        Some(Part::Style(StyleKind::Strikethrough, enable))
    } else if chars_from_eq_str(body, start, "url") {
        Some(Part::Style(StyleKind::Link, enable))
    } else {
        None
    }
}

/// Parses an emote tag body like ":)".
fn parse_emote_tag(body: &Vec<char>) -> (r: Option<Part>)
    ensures
        match r {
            Some(p) => classify_emote(body@) == Some(p@),
            None => classify_emote(body@) is None,
        },
{
    proof {
        assert(body@.skip(0) =~= body@);
    }
    if chars_from_eq_str(body, 0, ":)") {
        Some(Part::Emote(EmoteKind::Smile))
    } else if chars_from_eq_str(body, 0, ":(") {
        Some(Part::Emote(EmoteKind::Sad))
    } else if chars_from_eq_str(body, 0, ":D") {
        Some(Part::Emote(EmoteKind::ColonD))
    } else if chars_from_eq_str(body, 0, ":3") {
        Some(Part::Emote(EmoteKind::ColonThree))
    } else if chars_from_eq_str(body, 0, "D:") {
        Some(Part::Emote(EmoteKind::Fearful))
    } else if chars_from_eq_str(body, 0, "B)") {
        Some(Part::Emote(EmoteKind::Sunglasses))
    } else if chars_from_eq_str(body, 0, ";(") {
        Some(Part::Emote(EmoteKind::Crying))
    } else if chars_from_eq_str(body, 0, ";)") {
        Some(Part::Emote(EmoteKind::Winking))
    } else {
        None
    }
}

/// Parses a color tag body like "color=#ad77f1" or "/color".
fn parse_color_tag(body: &Vec<char>) -> (r: Option<Part>)
    ensures
        match r {
            Some(p) => classify_color(body@) == Some(p@),
            None => classify_color(body@) is None,
        },
{
    proof {
        assert(body@.skip(0) =~= body@);
    }
    if body.len() == 13 {
        // the prefix "color=#" followed by six hex digits
        let mut is_prefix = true;
        let prefix = "color=#";
        proof {
            reveal_strlit("color=#");
        }
        let mut j: usize = 0;
        while j < 7
            invariant
                body@.len() == 13,
                j <= 7,
                prefix@ == "color=#"@,
                prefix@.len() == 7,
                is_prefix == (forall|k: int| 0 <= k < j ==> body@[k] == prefix@[k]),
            decreases 7 - j,
        {
            if body[j] != prefix.get_char(j) {
                is_prefix = false;
            }
            j = j + 1;
        }
        if !is_prefix {
            proof {
                assert(body@.take(7) != "color=#"@) by {
                    let k = choose|k: int| 0 <= k < 7 && body@[k] != "color=#"@[k];
                    assert(body@.take(7)[k] != "color=#"@[k]);
                }
                assert(body@ != "/color"@) by {
                    reveal_strlit("/color");
                }
            }
            return None;
        }
        proof {
            assert(body@.take(7) =~= "color=#"@);
        }
        let h0 = hex_digit(body[7]);
        let h1 = hex_digit(body[8]);
        let h2 = hex_digit(body[9]);
        let h3 = hex_digit(body[10]);
        let h4 = hex_digit(body[11]);
        let h5 = hex_digit(body[12]);
        match (h0, h1, h2, h3, h4, h5) {
            (Some(a), Some(b), Some(c), Some(d), Some(e), Some(f)) => {
                let red: u8 = a * 16 + b;
                let green: u8 = c * 16 + d;
                let blue: u8 = e * 16 + f;
                proof {
                    assert(forall|i: int| 7 <= i < 13 ==> is_hex_digit(#[trigger] body@[i]));
                }
                Some(Part::Color(Color { r: red, g: green, b: blue }, true))
            },
            _ => {
                proof {
                    assert(!(forall|i: int| 7 <= i < 13 ==> is_hex_digit(#[trigger] body@[i])));
                    assert(body@ != "/color"@) by {
                        reveal_strlit("/color");
                    }
                }
                None
            },
        }
    } else if chars_from_eq_str(body, 0, "/color") {
        Some(Part::Color(Color { r: 0, g: 0, b: 0 }, false))
    } else {
        proof {
            assert(body@.len() != 13);
        }
        None
    }
}

/// Parses any tag body: the length must be between 1 and 32 characters,
/// and style, emote and color tags are tried in that order.
fn parse_tag_body(body: &Vec<char>) -> (r: Option<Part>)
    ensures
        match r {
            Some(p) => classify_tag(body@) == Some(p@),
            None => classify_tag(body@) is None,
        },
{
    if body.len() < 1 || body.len() > 32 {
        return None;
    }
    if let Some(p) = parse_style_tag(body) {
        return Some(p);
    }
    if let Some(p) = parse_emote_tag(body) {
        return Some(p);
    }
    parse_color_tag(body)
}

impl Parser {
    /// Creates a new parser.
    fn new() -> (p: Self)
        ensures
            p@ == initial_state(),
    {
        let p = Parser { parts: Vec::new(), buffer: Vec::new(), escape: false };
        proof {
            assert(part_views(p.parts@) =~= Seq::<PartView>::empty());
        }
        p
    }

    /// Emits a new part.
    fn emit(&mut self, part: Part)
        ensures
            final(self)@ == (ParseState {
                parts: old(self)@.parts.push(part@),
                buffer: old(self)@.buffer,
                escape: old(self)@.escape,
            }),
    {
        let ghost ps = self.parts@;
        self.parts.push(part);
        proof {
            assert(part_views(self.parts@) =~= part_views(ps).push(part@));
        }
    }

    /// Flushes the buffer as a text part if it is not empty.
    fn flush(&mut self)
        ensures
            final(self)@ == flush_state(old(self)@),
    {
        if self.buffer.len() > 0 {
            let ghost ps = self.parts@;
            let text = chars_string(&self.buffer);
            self.parts.push(Part::Text(text));
            self.buffer.clear();
            proof {
                assert(part_views(self.parts@) =~= part_views(ps).push(
                    PartView::Text(old(self)@.buffer),
                ));
            }
        }
    }

    /// Attempts to parse a tag ending at the current position.
    fn tag(&mut self) -> (r: bool)
        ensures
            match try_tag(old(self)@) {
                Some(tagged) => r && final(self)@ == tagged,
                None => !r && final(self)@ == old(self)@,
            },
    {
        // find the last opening bracket
        let blen: usize = self.buffer.len();
        let mut j: usize = blen;
        let mut idx: usize = 0;
        let mut found = false;
        proof {
            assert(self.buffer@.take(blen as int) =~= self.buffer@);
        }
        while j > 0 && !found
            invariant
                blen == self.buffer@.len(),
                j <= blen,
                !found ==> find_last_bracket(self.buffer@) == find_last_bracket(
                    self.buffer@.take(j as int),
                ),
                found ==> idx < blen && idx == find_last_bracket(self.buffer@),
            decreases j,
        {
            j = j - 1;
            proof {
                assert(self.buffer@.take(j + 1).drop_last() =~= self.buffer@.take(j as int));
                assert(self.buffer@.take(j + 1).last() == self.buffer@[j as int]);
            }
            if self.buffer[j] == '[' {
                idx = j;
                found = true;
            }
        }
        if !found {
            proof {
                assert(self.buffer@.take(0) =~= Seq::<char>::empty());
                assert(find_last_bracket(self.buffer@) == -1);
            }
            return false;
        }

        // detect escape
        if idx == 0 && self.parts.len() > 0 {
            let last = &self.parts[self.parts.len() - 1];
            if matches!(last, Part::Escape) {
                proof {
                    assert(part_views(self.parts@).last() is Escape);
                }
                return false;
            }
            proof {
                assert(!(part_views(self.parts@).last() is Escape));
            }
        }

        // extract the tag body
        let mut body: Vec<char> = Vec::new();
        let mut k: usize = idx + 1;
        while k < blen
            invariant
                blen == self.buffer@.len(),
                idx + 1 <= k <= blen,
                body@ == self.buffer@.subrange(idx + 1, k as int),
            decreases blen - k,
        {
            body.push(self.buffer[k]);
            k = k + 1;
            proof {
                assert(body@ =~= self.buffer@.subrange(idx + 1, k as int));
            }
        }
        proof {
            assert(body@ =~= self.buffer@.skip(idx + 1));
        }

        // parse the tag
        match parse_tag_body(&body) {
            Some(part) => {
                // remove the tag from the buffer,
                // emit both the remaining buffer and the parsed part
                self.buffer.truncate(idx);
                proof {
                    assert(self.buffer@ =~= old(self)@.buffer.take(idx as int));
                    assert(self@ =~~= (ParseState {
                        parts: old(self)@.parts,
                        buffer: old(self)@.buffer.take(idx as int),
                        escape: old(self)@.escape,
                    }));
                }
                self.flush();
                self.emit(part);
                proof {
                    assert(try_tag(old(self)@) matches Some(tagged) ==> self@ =~~= tagged);
                }
                true
            },
            None => {
                // not a tag after all
                false
            },
        }
    }

    /// Parses sillycode markup.
    fn parse(self, input: &Vec<char>) -> (r: Vec<Part>)
        requires
            self@ == initial_state(),
        ensures
            part_views(r@) == spec_parse(input@),
    {
        let mut this = self;
        let mut i: usize = 0;
        proof {
            assert(input@.take(0) =~= Seq::<char>::empty());
        }
        while i < input.len()
            invariant
                i <= input@.len(),
                this@ == parse_chars(initial_state(), input@.take(i as int)),
            decreases input@.len() - i,
        {
            let c = input[i];
            let ghost st = this@;

            if !this.escape && c == '\\' {
                // an escape: flush, emit, and swallow the backslash
                this.escape = true;
                this.flush();
                this.emit(Part::Escape);
            } else {
                let mut handled = false;
                if !this.escape && c == ']' {
                    // attempt tag recognition
                    handled = this.tag();
                }
                if !handled {
                    // make sure to reset the escape flag
                    this.escape = false;
                    if c == '\n' {
                        this.flush();
                        this.emit(Part::Newline);
                    } else {
                        // collect normal characters in the buffer
                        this.buffer.push(c);
                    }
                }
            }

            proof {
                assert(this@ =~~= parse_step(st, input@[i as int]));
            }
            i = i + 1;
            proof {
                assert(input@.take(i as int).drop_last() =~= input@.take(i - 1));
                assert(input@.take(i as int) =~= input@.take(i - 1).push(input@[i - 1]));
                lemma_parse_chars_snoc(initial_state(), input@.take(i - 1), input@[i - 1]);
            }
        }
        proof {
            assert(input@.take(i as int) =~= input@);
        }

        // flush any remaining text
        this.flush();
        this.parts
    }
}

/// Parses sillycode markup into a list of [`Part`]s. Total: any input,
/// including malformed or arbitrarily nested markup, yields some sequence.
pub fn parse(input: &str) -> (r: Vec<Part>)
    ensures
        part_views(r@) == spec_parse(input@),
{
    let chars = crate::text::str_chars(input);
    Parser::new().parse(&chars)
}

/// A prefix of a part sequence never counts more units than the whole.
proof fn lemma_length_take_le(parts: Seq<PartView>, j: int)
    requires
        0 <= j <= parts.len(),
    ensures
        spec_length(parts.take(j)) <= spec_length(parts),
    decreases parts.len() - j,
{
    if j < parts.len() {
        lemma_length_take_le(parts, j + 1);
        assert(parts.take(j + 1).drop_last() =~= parts.take(j));
        assert(spec_length(parts.take(j)) <= spec_length(parts.take(j + 1)));
    } else {
        assert(parts.take(j) =~= parts);
    }
}

/// Calculates the length of a list of parts: the number of visible units.
/// Text counts its Unicode scalar values, a newline and an emote count one,
/// and style, color and escape parts count zero.
pub fn length(parts: &Vec<Part>) -> (n: usize)
    requires
        spec_length(part_views(parts@)) <= usize::MAX,
    ensures
        n == spec_length(part_views(parts@)),
{
    let ghost all = part_views(parts@);
    let mut acc: usize = 0;
    let mut i: usize = 0;
    proof {
        assert(all.take(0) =~= Seq::<PartView>::empty());
    }
    while i < parts.len()
        invariant
            i <= parts@.len(),
            all == part_views(parts@),
            spec_length(all) <= usize::MAX,
            acc == spec_length(all.take(i as int)),
        decreases parts@.len() - i,
    {
        proof {
            lemma_length_take_le(all, i + 1);
            assert(all.take(i + 1).drop_last() =~= all.take(i as int));
            assert(all.take(i + 1).last() == all[i as int]);
        }
        let p = &parts[i];
        match p {
            Part::Text(t) => {
                let units = t.as_str().unicode_len();
                acc = acc + units;
            },
            Part::Newline => {
                acc = acc + 1;
            },
            Part::Emote(_) => {
                acc = acc + 1;
            },
            _ => {},
        }
        i = i + 1;
    }
    proof {
        assert(all.take(i as int) =~= all);
    }
    acc
}

/// An unrecognized closing bracket degrades to literal text: when tag
/// recognition fails, the `]` is consumed like any ordinary character.
pub proof fn lemma_unrecognized_close_is_literal(st: ParseState)
    requires
        !st.escape,
        try_tag(st) is None,
    ensures
        parse_step(st, ']') == plain_char(st, ']'),
{
}

/// The visible units held in a parser state: the units of the emitted
/// parts plus the characters still buffered.
pub open spec fn state_units(st: ParseState) -> nat {
    spec_length(st.parts) + st.buffer.len()
}

/// Appending one part adds exactly that part's units.
proof fn lemma_length_push(parts: Seq<PartView>, p: PartView)
    ensures
        spec_length(parts.push(p)) == spec_length(parts) + part_units(p),
{
    assert(parts.push(p).drop_last() =~= parts);
    assert(parts.push(p).last() == p);
}

/// Flushing moves the buffer's characters into a text part: the units are
/// unchanged.
proof fn lemma_flush_units(st: ParseState)
    ensures
        state_units(flush_state(st)) == state_units(st),
{
    if st.buffer.len() > 0 {
        lemma_length_push(st.parts, PartView::Text(st.buffer));
    }
}

/// A recognized tag carries at most one visible unit: an emote counts one,
/// a style or color toggle counts none.
proof fn lemma_classify_units(body: Seq<char>)
    requires
        classify_tag(body) is Some,
    ensures
        part_units(classify_tag(body)->Some_0) <= 1,
{
}

/// The last bracket of a buffer lies inside it.
proof fn lemma_find_last_bracket_range(s: Seq<char>)
    ensures
        find_last_bracket(s) < s.len(),
    decreases s.len(),
{
    if s.len() > 0 && s[s.len() - 1] != '[' {
        lemma_find_last_bracket_range(s.drop_last());
    }
}

/// One step adds at most one visible unit.
proof fn lemma_step_units(st: ParseState, c: char)
    ensures
        state_units(parse_step(st, c)) <= state_units(st) + 1,
{
    if !st.escape && c == '\\' {
        lemma_flush_units(st);
        lemma_length_push(flush_state(st).parts, PartView::Escape);
    } else if !st.escape && c == ']' && try_tag(st) is Some {
        let idx = find_last_bracket(st.buffer);
        lemma_find_last_bracket_range(st.buffer);
        let p = classify_tag(st.buffer.skip(idx + 1))->Some_0;
        lemma_classify_units(st.buffer.skip(idx + 1));
        let mid = ParseState { parts: st.parts, buffer: st.buffer.take(idx), escape: st.escape };
        lemma_flush_units(mid);
        lemma_length_push(flush_state(mid).parts, p);
    } else {
        if c == '\n' {
            lemma_flush_units(st);
            lemma_length_push(flush_state(st).parts, PartView::Newline);
        }
    }
}

/// Consuming characters adds at most one visible unit per character.
proof fn lemma_parse_chars_units(st: ParseState, s: Seq<char>)
    ensures
        state_units(parse_chars(st, s)) <= state_units(st) + s.len(),
    decreases s.len(),
{
    if s.len() > 0 {
        lemma_step_units(st, s[0]);
        lemma_parse_chars_units(parse_step(st, s[0]), s.drop_first());
    }
}

/// A parse never counts more visible units than the input has characters:
/// every unit of the result is paid for by at least one input character.
pub proof fn lemma_parse_length_bounded(s: Seq<char>)
    ensures
        spec_length(spec_parse(s)) <= s.len(),
{
    lemma_parse_chars_units(initial_state(), s);
    lemma_flush_units(parse_chars(initial_state(), s));
}

/// In a bracket-free buffer opened by `[`, the last bracket is that very
/// first character.
proof fn lemma_only_first_bracket(s: Seq<char>)
    requires
        s.len() > 0,
        s[0] == '[',
        forall|i: int| 1 <= i < s.len() ==> s[i] != '[',
    ensures
        find_last_bracket(s) == 0,
    decreases s.len(),
{
    if s.len() > 1 {
        lemma_only_first_bracket(s.drop_last());
    }
}

/// Running the scan over ordinary characters after an escaped bracket:
/// every attempted tag recognition is suppressed by the escape, and the
/// characters pile up in the buffer.
proof fn lemma_escaped_bracket_run(pfx: Seq<char>, rest: Seq<char>)
    requires
        forall|i: int| 0 <= i < pfx.len() ==> pfx[i] != '[',
        forall|i: int|
            0 <= i < rest.len() ==> rest[i] != '\\' && rest[i] != '[' && rest[i] != '\n',
    ensures
        parse_chars(
            ParseState { parts: seq![PartView::Escape], buffer: seq!['['] + pfx, escape: false },
            rest,
        ) == (ParseState {
            parts: seq![PartView::Escape],
            buffer: seq!['['] + (pfx + rest),
            escape: false,
        }),
    decreases rest.len(),
{
    let cur = ParseState {
        parts: seq![PartView::Escape],
        buffer: seq!['['] + pfx,
        escape: false,
    };
    if rest.len() == 0 {
        assert(pfx + rest =~= pfx);
    } else {
        let c = rest[0];
        if c == ']' {
            lemma_only_first_bracket(cur.buffer);
            assert(cur.parts.last() is Escape);
            assert(try_tag(cur) is None);
        }
        assert(parse_step(cur, c) == plain_char(cur, c));
        assert(parse_step(cur, c).buffer =~= seq!['['] + pfx.push(c));
        assert(parse_step(cur, c) =~~= (ParseState {
            parts: seq![PartView::Escape],
            buffer: seq!['['] + pfx.push(c),
            escape: false,
        }));
        assert(forall|i: int|
            0 <= i < pfx.push(c).len() ==> pfx.push(c)[i] != '[');
        assert(forall|i: int|
            0 <= i < rest.drop_first().len() ==> rest.drop_first()[i] != '\\'
                && rest.drop_first()[i] != '[' && rest.drop_first()[i] != '\n');
        lemma_escaped_bracket_run(pfx.push(c), rest.drop_first());
        assert(pfx.push(c) + rest.drop_first() =~= pfx + rest);
    }
}

/// An escaped bracket is never interpreted as a tag: after `\[`, a run of
/// ordinary characters — anything but a backslash, another bracket or a
/// newline, closing brackets included — stays one literal text, whatever
/// tags it seems to spell.
pub proof fn lemma_escaped_bracket_stays_literal(rest: Seq<char>)
    requires
        forall|i: int|
            0 <= i < rest.len() ==> rest[i] != '\\' && rest[i] != '[' && rest[i] != '\n',
    ensures
        spec_parse(seq!['\\', '['] + rest) == seq![
            PartView::Escape,
            PartView::Text(seq!['['] + rest),
        ],
{
    let input = seq!['\\', '['] + rest;
    let st1 = parse_step(initial_state(), '\\');
    assert(st1 =~~= (ParseState {
        parts: seq![PartView::Escape],
        buffer: Seq::empty(),
        escape: true,
    }));
    let st2 = parse_step(st1, '[');
    assert(st2 =~~= (ParseState {
        parts: seq![PartView::Escape],
        buffer: seq!['['],
        escape: false,
    }));
    assert(seq!['['] =~= seq!['['] + Seq::<char>::empty());
    lemma_escaped_bracket_run(Seq::empty(), rest);
    assert(input[0] == '\\');
    assert(input.drop_first() =~= seq!['['] + rest);
    assert((seq!['['] + rest)[0] == '[');
    assert((seq!['['] + rest).drop_first() =~= rest);
    assert(parse_chars(initial_state(), input) == parse_chars(st1, seq!['['] + rest));
    assert(parse_chars(st1, seq!['['] + rest) == parse_chars(st2, rest));
    assert(Seq::<char>::empty() + rest =~= rest);
    assert(parse_chars(st2, rest) == (ParseState {
        parts: seq![PartView::Escape],
        buffer: seq!['['] + rest,
        escape: false,
    }));
    assert(spec_parse(input) =~= seq![PartView::Escape, PartView::Text(seq!['['] + rest)]);
}

} // verus!
