use text_files::extension::is_text_extension;

/// The same question, answered by splitting the name at its last `.`.
fn by_last_dot(name: &str) -> bool {
    match name.rsplit_once('.') {
        Some((_, ext)) => {
            let ext = ext.to_ascii_lowercase();
            ext == "md" || ext == "markdown" || ext == "txt"
        }
        None => false,
    }
}

#[test]
fn markdown_and_text_names_are_text() {
    assert!(is_text_extension("a.md"));
    assert!(is_text_extension("b.markdown"));
    assert!(is_text_extension("c.txt"));
}

#[test]
fn other_extensions_are_not_text() {
    assert!(!is_text_extension("d.png"));
    assert!(!is_text_extension("notes.mdx"));
    assert!(!is_text_extension("notes.markdown2"));
    assert!(!is_text_extension("notes.tx"));
    assert!(!is_text_extension("notes.m"));
    assert!(!is_text_extension("notes.text"));
    assert!(!is_text_extension("notes.rs"));
}

#[test]
fn names_without_extension_are_not_text() {
    assert!(!is_text_extension("e"));
    assert!(!is_text_extension("README"));
    assert!(!is_text_extension("md"));
    assert!(!is_text_extension("markdown"));
    assert!(!is_text_extension("txt"));
    assert!(!is_text_extension(""));
}

#[test]
fn case_of_the_extension_does_not_matter() {
    assert!(is_text_extension("b.MARKDOWN"));
    assert!(is_text_extension("b.MarkDown"));
    assert!(is_text_extension("a.MD"));
    assert!(is_text_extension("a.Md"));
    assert!(is_text_extension("a.mD"));
    assert!(is_text_extension("c.TXT"));
    assert!(is_text_extension("c.tXt"));
}

#[test]
fn case_of_the_stem_does_not_matter() {
    assert!(is_text_extension("README.md"));
    assert!(is_text_extension("readme.md"));
    assert!(!is_text_extension("README.PNG"));
    assert!(!is_text_extension("readme.png"));
}

#[test]
fn only_the_last_dot_counts() {
    assert!(is_text_extension("archive.tar.md"));
    assert!(is_text_extension("a..md"));
    assert!(!is_text_extension("notes.md.bak"));
    assert!(!is_text_extension("notes.md."));
    assert!(!is_text_extension("notes.txt.png"));
}

#[test]
fn a_leading_dot_starts_an_extension_too() {
    assert!(is_text_extension(".md"));
    assert!(is_text_extension(".txt"));
    assert!(is_text_extension(".markdown"));
    assert!(is_text_extension(".MD"));
    assert!(is_text_extension(".TXT"));
    assert!(is_text_extension(".Markdown"));
    assert!(is_text_extension(".hidden.txt"));
    assert!(is_text_extension("..md"));
    assert!(!is_text_extension(".profile"));
    assert!(!is_text_extension(".md.bak"));
    assert!(!is_text_extension(".mdx"));
}

#[test]
fn dots_alone_are_not_text() {
    assert!(!is_text_extension("."));
    assert!(!is_text_extension(".."));
    assert!(!is_text_extension("..."));
    assert!(!is_text_extension("a."));
}

#[test]
fn only_ascii_letters_are_folded() {
    // U+212A KELVIN SIGN lower-cases to `k` in Unicode, but is no ASCII letter.
    assert!(!is_text_extension("a.mar\u{212A}down"));
    // Full-width letters are not the ASCII ones.
    assert!(!is_text_extension("a.\u{FF4D}\u{FF44}"));
    assert!(!is_text_extension("a.m\u{FFFD}d"));
    assert!(is_text_extension("\u{00E9}t\u{00E9}.md"));
    assert!(is_text_extension("\u{FFFD}.TXT"));
    assert!(is_text_extension("\u{65E5}\u{672C}.markdown"));
}

#[test]
fn blanks_are_part_of_the_extension() {
    assert!(!is_text_extension("a.md "));
    assert!(!is_text_extension("a. md"));
    assert!(is_text_extension("my notes.md"));
    assert!(is_text_extension(" .md"));
}

#[test]
fn agrees_with_splitting_at_the_last_dot() {
    let names = [
        "a.md", "b.MARKDOWN", "c.txt", "d.png", "e", "", ".", "..", "...", ".md", "..md", "a.",
        "a..md", "a.b.c.txt", ".hidden.txt", ".hidden", "x.Md", "x.mD", "x.TxT", "x.markdowN",
        "x.mark.down", "markdown.", "md.txt.", "a.md.bak", "a b.md", "a.m d", "\u{00E9}.md",
        "a.\u{00E9}md", "a.mar\u{212A}down", "\u{FFFD}.md", "a.\u{FFFD}", "A.TXT", "a.tXT",
        "a.t.x.t", ".a.md", "a.markdown.", ".txt.", "..txt", "a...txt", ".MD", ".TXT", ".markdown",
        ".Txt", ".m", ".mdd",
    ];
    for name in names {
        assert_eq!(is_text_extension(name), by_last_dot(name), "{:?}", name);
    }
}

#[test]
fn agrees_with_splitting_at_the_last_dot_on_short_names() {
    // Every name of up to five characters over a small alphabet.
    let alphabet = ['.', 'm', 'D', 't', 'x'];
    let mut names: Vec<String> = vec![String::new()];
    let mut start = 0;
    for _ in 0..5 {
        let end = names.len();
        for i in start..end {
            for c in alphabet {
                let mut longer = names[i].clone();
                longer.push(c);
                names.push(longer);
            }
        }
        start = end;
    }
    assert_eq!(names.len(), 1 + 5 + 25 + 125 + 625 + 3125);
    for name in &names {
        assert_eq!(is_text_extension(name), by_last_dot(name), "{:?}", name);
    }
}
