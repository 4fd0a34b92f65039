use sillycode::Color;
use sillycode::Part;
use sillycode::StyleKind;
use sillycode::length;
use sillycode::parse;

#[test]
fn test_parse_empty_string() {
    assert_eq!(parse(""), vec![]);
}

#[test]
fn test_parse_text() {
    assert_eq!(parse("hello"), vec![Part::Text("hello".to_string())]);
}

#[test]
fn test_parse_newline() {
    assert_eq!(
        parse("hello\nworld"),
        vec![
            Part::Text("hello".to_string()),
            Part::Newline,
            Part::Text("world".to_string())
        ]
    );
}

#[test]
fn test_parse_basic_tags() {
    assert_eq!(
        parse("[b]hello[/b] world"),
        vec![
            Part::Style(StyleKind::Bold, true),
            Part::Text("hello".to_string()),
            Part::Style(StyleKind::Bold, false),
            Part::Text(" world".to_string())
        ]
    );
}

#[test]
fn test_parse_nested_tags() {
    assert_eq!(
        parse("[b]hello [i]world[/i][/b]"),
        vec![
            Part::Style(StyleKind::Bold, true),
            Part::Text("hello ".to_string()),
            Part::Style(StyleKind::Italic, true),
            Part::Text("world".to_string()),
            Part::Style(StyleKind::Italic, false),
            Part::Style(StyleKind::Bold, false)
        ]
    );
}

#[test]
fn test_parse_color() {
    let color = Color::new(168, 52, 207);
    assert_eq!(
        parse("[color=#a834cf]colored text![/color]"),
        vec![
            Part::Color(color, true),
            Part::Text("colored text!".to_string()),
            Part::Color(Color::default(), false)
        ]
    );
}

#[test]
fn test_parse_escaped_tags() {
    assert_eq!(
        parse("\\[[b]hello\\[/b]"),
        vec![
            Part::Escape,
            Part::Text("[".to_string()),
            Part::Style(StyleKind::Bold, true),
            Part::Text("hello".to_string()),
            Part::Escape,
            Part::Text("[/b]".to_string())
        ]
    );
}

#[test]
fn test_parse_incorrectly_nested_tags_and_escapes() {
    assert_eq!(
        parse("now [b[url]https://[i]example.com[/url] is \\ wrong here \\ [/i] \\"),
        vec![
            Part::Text("now [b".to_string()),
            Part::Style(StyleKind::Link, true),
            Part::Text("https://".to_string()),
            Part::Style(StyleKind::Italic, true),
            Part::Text("example.com".to_string()),
            Part::Style(StyleKind::Link, false),
            Part::Text(" is ".to_string()),
            Part::Escape,
            Part::Text(" wrong here ".to_string()),
            Part::Escape,
            Part::Text(" ".to_string()),
            Part::Style(StyleKind::Italic, false),
            Part::Text(" ".to_string()),
            Part::Escape
        ]
    );
}

#[test]
fn test_parse_a_bunch_of_fake_tags() {
    assert_eq!(
        parse("these [tags] are invalid ]"),
        vec![Part::Text("these [tags] are invalid ]".to_string())]
    );
    assert_eq!(
        parse("[url]]teehee[/color ] yea [] ]"),
        vec![
            Part::Style(StyleKind::Link, true),
            Part::Text("]teehee[/color ] yea [] ]".to_string())
        ]
    );
}

#[test]
fn test_length_normal_text() {
    assert_eq!(length(&parse("hello")), 5);
    assert_eq!(length(&parse("hello\nworld")), 11);
}

#[test]
fn test_length_with_styles() {
    assert_eq!(length(&parse("hello [b]world[/b]")), 11);
    assert_eq!(length(&parse("[i]goodnight [b]world[/b]")), 15);
}

#[test]
fn test_length_with_emotes() {
    assert_eq!(length(&parse("hello world [:D] !")), 15);
}

#[test]
fn test_length_with_emojis() {
    assert_eq!(length(&parse("\u{1F914}\u{2603}")), 2);
    assert_eq!(
        length(&parse("this is a fox \u{1F98A} from canada \u{1F1E8}\u{1F1E6}")),
        30
    );
}

#[test]
fn test_parse_escaped_bracket_suppresses_tag() {
    assert_eq!(
        parse("\\[b]x[/b]"),
        vec![
            Part::Escape,
            Part::Text("[b]x".to_string()),
            Part::Style(StyleKind::Bold, false)
        ]
    );
}

#[test]
fn test_parse_color_hex_case_insensitive() {
    assert_eq!(
        parse("[color=#A834CF]x[/color]"),
        vec![
            Part::Color(Color::new(168, 52, 207), true),
            Part::Text("x".to_string()),
            Part::Color(Color::default(), false)
        ]
    );
}

#[test]
fn test_parse_color_bad_hex_degrades_to_text() {
    assert_eq!(
        parse("[color=#zzzzzz]"),
        vec![Part::Text("[color=#zzzzzz]".to_string())]
    );
}

#[test]
fn test_parse_overlong_tag_body_degrades_to_text() {
    assert_eq!(
        parse("[this tag body is much much longer than thirty-two characters]"),
        vec![Part::Text(
            "[this tag body is much much longer than thirty-two characters]".to_string()
        )]
    );
}

#[test]
fn test_parse_all_emotes() {
    assert_eq!(
        parse("[:)][:(][:D][:3][D:][B)][;(][;)]"),
        vec![
            Part::Emote(sillycode::EmoteKind::Smile),
            Part::Emote(sillycode::EmoteKind::Sad),
            Part::Emote(sillycode::EmoteKind::ColonD),
            Part::Emote(sillycode::EmoteKind::ColonThree),
            Part::Emote(sillycode::EmoteKind::Fearful),
            Part::Emote(sillycode::EmoteKind::Sunglasses),
            Part::Emote(sillycode::EmoteKind::Crying),
            Part::Emote(sillycode::EmoteKind::Winking),
        ]
    );
}

#[test]
fn test_length_empty() {
    assert_eq!(length(&parse("")), 0);
    assert_eq!(length(&vec![]), 0);
}

#[test]
fn test_innermost_bracket_wins() {
    assert_eq!(
        parse("[b[url]"),
        vec![
            Part::Text("[b".to_string()),
            Part::Style(StyleKind::Link, true)
        ]
    );
}

#[test]
fn test_style_and_emote_tag_names() {
    assert_eq!(StyleKind::Bold.to_tag(), "b");
    assert_eq!(StyleKind::Italic.to_tag(), "i");
    assert_eq!(StyleKind::Underline.to_tag(), "u");
    assert_eq!(StyleKind::Strikethrough.to_tag(), "s");
    assert_eq!(StyleKind::Link.to_tag(), "url");
    assert_eq!(sillycode::EmoteKind::ColonThree.to_tag(), ":3");
    assert_eq!(sillycode::EmoteKind::ColonThree.to_name(), "colonthree");
    assert_eq!(sillycode::EmoteKind::Fearful.to_name(), "fearful");
}

#[test]
fn test_part_to_markup() {
    assert_eq!(Part::Style(StyleKind::Bold, true).to_markup(), "[b]");
    assert_eq!(Part::Style(StyleKind::Link, false).to_markup(), "[/url]");
    assert_eq!(Part::Color(Color::new(173, 119, 241), true).to_markup(), "[color=#ad77f1]");
    assert_eq!(Part::Color(Color::default(), false).to_markup(), "[/color]");
    assert_eq!(Part::Emote(sillycode::EmoteKind::Smile).to_markup(), "[:)]");
    assert_eq!(Part::Escape.to_markup(), "\\");
    assert_eq!(Part::Newline.to_markup(), "\n");
    assert_eq!(Part::Text("hi".to_string()).to_markup(), "hi");
}

#[test]
fn test_color_to_text() {
    assert_eq!(Color::new(10, 10, 10).to_text(), "#0a0a0a");
    assert_eq!(Color::new(255, 0, 128).to_text(), "#ff0080");
}
