//! The rendering invariants, checked over a deterministic spread of inputs.

use diag_lang::{Diagnostic, Label, Renderer, Severity};
use diag_lang::{SourceMap, Span};

/// A small deterministic generator, so every run checks the same cases.
struct Lcg(u64);

impl Lcg {
    fn next(&mut self) -> u32 {
        self.0 = self
            .0
            .wrapping_mul(6364136223846793005)
            .wrapping_add(1442695040888963407);
        (self.0 >> 33) as u32
    }

    fn text(&mut self, max_len: usize) -> String {
        let pool = ['a', 'b', '\t', '\n', '\r', 'é', 'α', '😀', ' ', 'z'];
        let len = self.next() as usize % (max_len + 1);
        (0..len)
            .map(|_| pool[self.next() as usize % pool.len()])
            .collect()
    }
}

fn visual_col_at(line: &str, byte: usize) -> usize {
    let mut col = 0;
    for (i, ch) in line.char_indices() {
        if i >= byte {
            break;
        }
        if ch == '\t' {
            col += 4 - (col % 4);
        } else {
            col += 1;
        }
    }
    col
}

fn naive_caret_width(line: &str, start: usize, end: usize) -> usize {
    visual_col_at(line, end)
        .saturating_sub(visual_col_at(line, start))
        .max(1)
}

#[test]
fn render_is_total_and_newline_terminated() {
    let mut g = Lcg(1);
    for _ in 0..300 {
        let text = g.text(60);
        let mut map = SourceMap::new();
        map.add("f", text.as_str()).unwrap();
        let margin = text.len() as u32 + 4;
        let span = Span::new(g.next() % margin, g.next() % margin);
        let diag = Diagnostic::new(Severity::Error, "msg", Label::new(span, "lbl"));
        let out = Renderer::new().render(&diag, &map);
        assert!(!out.is_empty());
        assert!(out.ends_with('\n'));
        assert!(out.starts_with("error: msg\n"));
    }
}

#[test]
fn render_is_deterministic() {
    let mut g = Lcg(2);
    for _ in 0..200 {
        let text = g.text(60);
        let mut map = SourceMap::new();
        map.add("f", text.as_str()).unwrap();
        let margin = text.len() as u32 + 4;
        let span = Span::new(g.next() % margin, g.next() % margin);
        let diag = Diagnostic::new(Severity::Warning, "msg", Label::new(span, "lbl"));
        let renderer = Renderer::new();
        assert_eq!(renderer.render(&diag, &map), renderer.render(&diag, &map));
    }
}

#[test]
fn render_with_many_labels_is_total_and_deterministic() {
    let mut g = Lcg(3);
    for _ in 0..200 {
        let mut map = SourceMap::new();
        let files = 1 + g.next() as usize % 3;
        let mut total = 0u32;
        for i in 0..files {
            let text = g.text(30);
            total += text.len() as u32;
            map.add(format!("f{i}.rs"), text.as_str()).unwrap();
        }
        let margin = total + 8;
        let mut diag = Diagnostic::new(
            Severity::Error,
            "msg",
            Label::new(Span::new(g.next() % margin, g.next() % margin), "primary"),
        );
        for _ in 0..g.next() % 5 {
            let span = Span::new(g.next() % margin, g.next() % margin);
            diag = diag.with_secondary(Label::new(span, "secondary"));
        }
        diag = diag.with_note("a note").with_help("a hint");
        let renderer = Renderer::new();
        let out = renderer.render(&diag, &map);
        assert!(out.ends_with('\n'));
        assert!(out.starts_with("error: msg\n"));
        assert!(out.ends_with(" = note: a note\n = help: a hint\n"));
        assert_eq!(out, renderer.render(&diag, &map));
    }
}

#[test]
fn caret_count_matches_visual_width_on_one_line() {
    let mut g = Lcg(4);
    let pick = |g: &mut Lcg, min: usize, tabs: bool| -> String {
        let len = min + g.next() as usize % 12;
        (0..len)
            .map(|_| {
                let c = g.next() % 27;
                if tabs && c == 26 {
                    '\t'
                } else {
                    (b'a' + (c % 26) as u8) as char
                }
            })
            .collect()
    };
    for _ in 0..300 {
        let prefix = pick(&mut g, 0, true);
        let mid = pick(&mut g, 1, true);
        let suffix = pick(&mut g, 0, false);
        let line = format!("{prefix}{mid}{suffix}");
        let mut map = SourceMap::new();
        map.add("f", line.as_str()).unwrap();
        let start = prefix.len();
        let end = prefix.len() + mid.len();
        let span = Span::new(start as u32, end as u32);
        let diag = Diagnostic::new(Severity::Error, "msg", Label::new(span, "lbl"));
        let out = Renderer::new().render(&diag, &map);
        let carets = out.matches('^').count();
        assert_eq!(carets, naive_caret_width(&line, start, end), "{line:?}");
    }
}
