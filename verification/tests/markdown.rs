use progression_website::markdown::Markdown;

#[test]
fn markdown_holds_its_text() {
    let m = Markdown::new("# Title");
    assert_eq!(m.0, "# Title");
    assert_eq!(m.len(), 7);
    assert_eq!(Markdown::new("h\u{e9}").len(), 3);
    assert_eq!(Markdown::default().len(), 0);
    assert_eq!(Markdown::from("x"), Markdown::new("x"));
    assert_eq!(m.clone(), m);
}

#[test]
fn html_becomes_markdown() {
    assert_eq!(Markdown::tidy(&html2md::parse_html("<b>Bold</b>")).0, "**Bold**");
    assert_eq!(Markdown::tidy(&html2md::parse_html("<p>  plain text </p>")).0, "plain text");
}

#[test]
fn backslashes_are_guarded_for_mathematics() {
    assert_eq!(Markdown::tidy(r"\[x\]").0, r"\\[x\\]");
    assert_eq!(Markdown::tidy(r"a\\b").0, r"a\\\\b");
    assert_eq!(Markdown::tidy(r"\\[x\\]").0, r"\\\\\[x\\\\\]");
    assert_eq!(Markdown::tidy("  no backslash \n").0, "no backslash");
    assert_eq!(Markdown::tidy("").0, "");
}

#[test]
fn tidying_is_three_replacements_and_a_trim() {
    for s in [r"\", r"\\", r"\\\", r"\[", r"\]\[", r" \\] ", r"x\\\[y", r"\\\\"] {
        let want = s.replace(r"\\", r"\\\\").replace(r"\[", r"\\[").replace(r"\]", r"\\]");
        assert_eq!(Markdown::tidy(s).0, want.trim());
    }
}

#[test]
fn markdown_becomes_html() {
    assert_eq!(Markdown::new("some *text*").html(), "<p>some <em>text</em></p>\n");
    assert_eq!(Markdown::new("# Title").html(), "<h1>Title</h1>\n");
    assert_eq!(Markdown::new("").html(), "");
}
