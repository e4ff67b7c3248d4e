//! Concrete instances of what every rendering guarantees.

use diag_lang::{decimal_width, expand_tabs, floor_boundary, visual_width};
use diag_lang::{Diagnostic, Label, Renderer, Severity, SourceMap, Span};

fn span_of(text: &str, needle: &str, base: u32) -> Span {
    let at = text.find(needle).expect("needle present in text") as u32;
    Span::new(base + at, base + at + needle.len() as u32)
}

#[test]
fn test_output_opens_with_header_and_ends_with_newline() {
    let mut map = SourceMap::new();
    map.add("m.rs", "let x = 1;").unwrap();
    for severity in [Severity::Error, Severity::Warning, Severity::Note, Severity::Help] {
        let diag = Diagnostic::new(severity, "headline", Label::new(Span::new(4, 5), "x"));
        let out = Renderer::new().render(&diag, &map);
        assert!(out.starts_with(&format!("{}: headline\n", severity.as_str())));
        assert!(out.ends_with('\n'));
    }
}

#[test]
fn test_no_sources_renders_header_then_a_note_per_label() {
    let map = SourceMap::new();
    let diag = Diagnostic::new(Severity::Warning, "lost", Label::new(Span::new(3, 9), "here"))
        .with_secondary(Label::new(Span::new(0, 0), "and here"))
        .with_note("n")
        .with_help("h");
    assert_eq!(
        Renderer::new().render(&diag, &map),
        "\
warning: lost
 = note: span 3..9 is outside the loaded sources
 = note: span 0..0 is outside the loaded sources
 = note: n
 = help: h
"
    );
}

#[test]
fn test_frames_primary_file_first_then_map_order() {
    let mut map = SourceMap::new();
    map.add("a.rs", "aaa").unwrap(); // 0..3
    map.add("b.rs", "bbb").unwrap(); // 3..6
    map.add("c.rs", "ccc").unwrap(); // 6..9
    let diag = Diagnostic::new(Severity::Error, "spread", Label::new(Span::new(4, 5), "p"))
        .with_secondary(Label::new(Span::new(7, 8), "in c"))
        .with_secondary(Label::new(Span::new(1, 2), "in a"));
    assert_eq!(
        Renderer::new().render(&diag, &map),
        "\
error: spread
 --> b.rs:1:2
  |
1 | bbb
  |  ^ p
  |
 --> a.rs:1:2
  |
1 | aaa
  |  - in a
  |
 --> c.rs:1:2
  |
1 | ccc
  |  - in c
  |
"
    );
}

#[test]
fn test_same_column_stacks_primary_first_and_line_shown_once() {
    let src = "abcdef";
    let mut map = SourceMap::new();
    map.add("m.rs", src).unwrap();
    let diag = Diagnostic::new(Severity::Error, "overlap", Label::new(Span::new(2, 4), "primary"))
        .with_secondary(Label::new(Span::new(2, 3), "secondary"))
        .with_secondary(Label::new(Span::new(0, 1), "leftmost"));
    assert_eq!(
        Renderer::new().render(&diag, &map),
        "\
error: overlap
 --> m.rs:1:3
  |
1 | abcdef
  | - leftmost
  |   ^^ primary
  |   - secondary
  |
"
    );
}

#[test]
fn test_anchor_without_primary_is_earliest_label() {
    let mut map = SourceMap::new();
    map.add("a.rs", "x").unwrap(); // 0..1
    map.add("b.rs", "one\ntwo\n").unwrap(); // 1..9
    let diag = Diagnostic::new(Severity::Error, "e", Label::new(Span::new(0, 1), "p"))
        .with_secondary(Label::new(Span::new(5, 8), "later"))
        .with_secondary(Label::new(Span::new(2, 3), "earlier"));
    let out = Renderer::new().render(&diag, &map);
    assert!(out.contains(" --> b.rs:1:2\n"), "{out}");
}

#[test]
fn test_tab_and_multibyte_underline_width() {
    let src = "\tαβ\tz";
    let mut map = SourceMap::new();
    map.add("t.rs", src).unwrap();
    let diag = Diagnostic::new(Severity::Error, "w", Label::new(span_of(src, "β\tz", 0), ""));
    assert_eq!(
        Renderer::new().render(&diag, &map),
        "\
error: w
 --> t.rs:1:3
  |
1 |     αβ  z
  |      ^^^^
  |
"
    );
}

#[test]
fn test_crlf_line_excludes_its_terminator() {
    let src = "ab\r\ncd";
    let mut map = SourceMap::new();
    map.add("c.rs", src).unwrap();
    let diag = Diagnostic::new(Severity::Note, "n", Label::new(span_of(src, "cd", 0), "here"));
    assert_eq!(
        Renderer::new().render(&diag, &map),
        "\
note: n
 --> c.rs:2:1
  |
2 | cd
  | ^^ here
  |
"
    );
}

#[test]
fn test_span_ending_at_end_of_source_is_located() {
    let mut map = SourceMap::new();
    map.add("a.rs", "abc").unwrap();
    let diag = Diagnostic::new(Severity::Error, "eof", Label::new(Span::empty(3), "end"));
    assert_eq!(
        Renderer::new().render(&diag, &map),
        "\
error: eof
 --> a.rs:1:4
  |
1 | abc
  |    ^ end
  |
"
    );
}

#[test]
fn test_empty_source_between_others() {
    let mut map = SourceMap::new();
    map.add("a.rs", "ab").unwrap(); // 0..2
    map.add("empty.rs", "").unwrap(); // 2..2
    map.add("c.rs", "cd").unwrap(); // 2..4
    let diag = Diagnostic::new(Severity::Error, "e", Label::new(Span::new(2, 3), "c"));
    let out = Renderer::new().render(&diag, &map);
    assert!(out.contains(" --> c.rs:1:1\n"), "{out}");
}

#[test]
fn test_render_to_appends_to_the_buffer() {
    let mut map = SourceMap::new();
    map.add("m.rs", "x").unwrap();
    let diag = Diagnostic::new(Severity::Help, "h", Label::unlabelled(Span::new(0, 1)));
    let mut buf = String::from("previous\n");
    Renderer::new()
        .render_to(&mut buf, &diag, &map)
        .expect("string write");
    assert_eq!(buf, format!("previous\n{}", Renderer::default().render(&diag, &map)));
}

#[test]
fn test_severities_sort_errors_first() {
    let mut levels = vec![Severity::Help, Severity::Note, Severity::Error, Severity::Warning];
    levels.sort();
    assert_eq!(
        levels,
        vec![Severity::Error, Severity::Warning, Severity::Note, Severity::Help]
    );
    assert_eq!(
        Severity::Note.partial_cmp(&Severity::Warning),
        Some(std::cmp::Ordering::Greater)
    );
}

#[test]
fn test_span_new_orders_its_arguments() {
    assert_eq!(Span::new(10, 4), Span::new(4, 10));
    assert_eq!(Span::new(10, 4).start(), 4);
    assert_eq!(Span::new(10, 4).end(), 10);
    assert_eq!(Span::empty(7).start(), Span::empty(7).end());
}

#[test]
fn test_builders_keep_order() {
    let diag = Diagnostic::new(Severity::Error, "m", Label::unlabelled(Span::empty(0)))
        .with_secondary(Label::new(Span::new(1, 2), "one"))
        .with_secondary(Label::new(Span::new(3, 4), "two"))
        .with_note("n1")
        .with_note("n2")
        .with_help("h1");
    let secondary: Vec<&str> = diag.secondary().iter().map(|l| l.message()).collect();
    assert_eq!(secondary, vec!["one", "two"]);
    assert_eq!(diag.notes(), &["n1".to_string(), "n2".to_string()]);
    assert_eq!(diag.help(), &["h1".to_string()]);
}

#[test]
fn test_column_helpers_at_their_edges() {
    assert_eq!(decimal_width(u32::MAX), 10);
    assert_eq!(visual_width(""), 0);
    assert_eq!(visual_width("ab\tc"), 5);
    let mut out = String::from(">");
    expand_tabs("ab\tc", &mut out);
    assert_eq!(out, ">ab  c");
    assert_eq!(floor_boundary("a😀", 3), 1);
    assert_eq!(floor_boundary("", 5), 0);
}

#[test]
fn test_secondary_order_does_not_change_frames() {
    let mut map = SourceMap::new();
    map.add("a.rs", "let ab = cd + ef;\nnext").unwrap(); // 0..22
    map.add("b.rs", "other").unwrap(); // 22..27
    let src = "let ab = cd + ef;\nnext";
    let labels = [
        Label::new(span_of(src, "ef", 0), "third"),
        Label::new(Span::new(23, 25), "elsewhere"),
        Label::new(span_of(src, "ab", 0), "first"),
        Label::new(span_of(src, "next", 0), "below"),
    ];
    let build = |order: &[usize]| {
        let mut diag =
            Diagnostic::new(Severity::Error, "ordered", Label::new(span_of(src, "cd", 0), "p"));
        for &i in order {
            diag = diag.with_secondary(labels[i].clone());
        }
        diag
    };
    let forward = Renderer::new().render(&build(&[0, 1, 2, 3]), &map);
    let shuffled = Renderer::new().render(&build(&[3, 1, 0, 2]), &map);
    assert_eq!(forward, shuffled);
    assert_eq!(
        forward,
        "\
error: ordered
 --> a.rs:1:10
  |
1 | let ab = cd + ef;
  |     -- first
  |          ^^ p
  |               -- third
2 | next
  | ---- below
  |
 --> b.rs:1:2
  |
1 | other
  |  -- elsewhere
  |
"
    );
}

#[test]
fn test_multi_line_label_underlines_each_line_message_on_last() {
    let mut map = SourceMap::new();
    map.add("m.rs", "ab\n\ncd").unwrap();
    let diag = Diagnostic::new(Severity::Error, "h", Label::new(Span::new(0, 6), "m"));
    assert_eq!(
        Renderer::new().render(&diag, &map),
        "error: h\n --> m.rs:1:1\n  |\n1 | ab\n  | ^^\n2 | \n  | ^\n3 | cd\n  | ^^ m\n  |\n"
    );
}

#[test]
fn test_underlines_at_one_column_stack_in_one_order() {
    let mut map = SourceMap::new();
    map.add("m.rs", "let x = 1;").unwrap();
    let secondaries = [
        Label::new(Span::new(8, 9), "beta"),
        Label::new(Span::new(8, 10), "wide"),
        Label::new(Span::new(8, 9), "alpha"),
    ];
    let build = |order: &[usize]| {
        let mut diag = Diagnostic::new(Severity::Error, "t", Label::new(Span::new(4, 5), "p"));
        for &i in order {
            diag = diag.with_secondary(secondaries[i].clone());
        }
        Renderer::new().render(&diag, &map)
    };
    let expected = "\
error: t
 --> m.rs:1:5
  |
1 | let x = 1;
  |     ^ p
  |         - alpha
  |         - beta
  |         -- wide
  |
";
    for order in [[0, 1, 2], [2, 1, 0], [1, 0, 2], [1, 2, 0]] {
        assert_eq!(build(&order), expected);
    }
}

#[test]
fn test_default_rendering_holds_no_escape() {
    let src = "let x: i32 =\n    foo(\n        bar,\n    );\n";
    let mut map = SourceMap::new();
    map.add("m.rs", src).unwrap();
    let call = Span::new(src.find("foo").unwrap() as u32, src.find(");").unwrap() as u32 + 1);
    let diag = Diagnostic::new(Severity::Error, "mismatched types", Label::new(call, "this call"))
        .with_secondary(Label::new(span_of(src, "i32", 0), "expected `i32`"))
        .with_secondary(Label::new(Span::new(900, 902), "defined far away"))
        .with_note("the body has type `()`")
        .with_help("return a value instead");
    let out = Renderer::new().render(&diag, &map);
    assert_eq!(out, Renderer::default().render(&diag, &map));
    assert!(!out.contains('\u{1b}'));
}

#[test]
fn test_visual_width_steps_and_floor_settles() {
    assert_eq!(visual_width(""), 0);
    assert_eq!(visual_width("ab"), 2);
    assert_eq!(visual_width("ab\t"), 4);
    assert_eq!(visual_width("abcd\t"), 8);
    assert_eq!(visual_width("abcd") + visual_width("\tx"), visual_width("abcd\tx"));
    let s = "aé";
    let once = floor_boundary(s, 2);
    assert_eq!(once, 1);
    assert_eq!(floor_boundary(s, once), once);
    assert_eq!(floor_boundary(s, 3), 3);
}

#[test]
fn test_plain_rendering_draws_on_its_inputs() {
    let mut map = SourceMap::new();
    map.add("é.rs", "let ü = 1;").unwrap();
    let diag = Diagnostic::new(Severity::Note, "naïve \u{1b}", Label::new(Span::new(4, 6), "ß"))
        .with_note("ø");
    let out = Renderer::new().render(&diag, &map);
    let inputs = ["é.rs", "let ü = 1;", "naïve \u{1b}", "ß", "ø"];
    for c in out.chars() {
        let printable = (' '..='~').contains(&c) || c == '\n';
        assert!(printable || inputs.iter().any(|t| t.contains(c)), "{:?}", c);
    }
    assert!(out.contains('\u{1b}'));
}
