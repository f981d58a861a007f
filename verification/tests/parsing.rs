use lontar::frontmatter::{
    clean_yaml_value, parse_frontmatter_lines, parse_inline_array, split_and_parse_frontmatter,
    FrontmatterValue,
};
use lontar::index::IndexerError;
use lontar::markdown::{parse_headings, parse_inline_tags, parse_wikilinks, slugify};
use lontar::note::parse_note;

#[test]
fn test_parse_frontmatter() {
    let content = String::from("---\ntitle: My Note\ntags: [rust, programming]\n")
        + "aliases: [My Note, MN]\ncreated: 2024-01-01\n"
        + "---\n# Hello\nContent here";
    let (fm, body) = split_and_parse_frontmatter(&content);
    assert_eq!(fm.title, Some("My Note".to_string()));
    assert_eq!(fm.tags, vec!["rust", "programming"]);
    assert_eq!(fm.aliases, vec!["My Note", "MN"]);
    assert_eq!(fm.raw_str("created"), Some("2024-01-01".to_string()));
    assert!(!body.contains("title:"));
    assert!(body.contains("# Hello"));
}

#[test]
fn test_parse_frontmatter_none() {
    let content = "# No Frontmatter\nJust some content";
    let (fm, body) = split_and_parse_frontmatter(content);
    assert!(fm.title.is_none());
    assert!(fm.tags.is_empty());
    assert!(fm.aliases.is_empty());
    assert_eq!(body, content);
}

#[test]
fn test_parse_frontmatter_multiline_list() {
    let content = "---\ntitle: List Test\ntags:\n  - rust\n  - web\n  - dev\n---\nBody";
    let (fm, _body) = split_and_parse_frontmatter(content);
    assert_eq!(fm.title, Some("List Test".to_string()));
    assert_eq!(fm.tags, vec!["rust", "web", "dev"]);
}

#[test]
fn test_parse_frontmatter_quoted() {
    let content = "---\ntitle: \"Quoted Title\"\n---\nBody";
    let (fm, _body) = split_and_parse_frontmatter(content);
    assert_eq!(fm.title, Some("Quoted Title".to_string()));
}

#[test]
fn test_parse_frontmatter_no_closing_delim() {
    let content = "---\ntitle: Broken\nNo closing delimiter";
    let (fm, body) = split_and_parse_frontmatter(content);
    assert!(fm.title.is_none());
    assert_eq!(body, content);
}

#[test]
fn test_parse_wikilinks() {
    let body = "See [[Note A]] and [[Note B#Heading]] and [[Note C|Display]]".to_string()
        + " and [[Note D^block]] and [[Note E#Sec^blk|Disp]]";
    let links = parse_wikilinks(&body);
    assert_eq!(links.len(), 5);

    assert_eq!(links[0].target, "Note A");
    assert!(links[0].heading.is_none());
    assert!(links[0].display_text.is_none());
    assert!(links[0].block_id.is_none());

    assert_eq!(links[1].target, "Note B");
    assert_eq!(links[1].heading.as_deref(), Some("Heading"));

    assert_eq!(links[2].target, "Note C");
    assert_eq!(links[2].display_text.as_deref(), Some("Display"));

    assert_eq!(links[3].target, "Note D");
    assert_eq!(links[3].block_id.as_deref(), Some("block"));

    assert_eq!(links[4].target, "Note E");
    assert_eq!(links[4].heading.as_deref(), Some("Sec"));
    assert_eq!(links[4].block_id.as_deref(), Some("blk"));
    assert_eq!(links[4].display_text.as_deref(), Some("Disp"));
}

#[test]
fn test_parse_inline_tags() {
    let body = "Some #rust and #web-dev content\n```code\n#notatag here\n```\n".to_string()
        + "More #programming";
    let tags = parse_inline_tags(&body);
    assert!(tags.contains(&"rust".to_string()));
    assert!(tags.contains(&"web-dev".to_string()));
    assert!(tags.contains(&"programming".to_string()));
    assert!(!tags.contains(&"notatag".to_string()));
}

#[test]
fn test_parse_headings() {
    let body = "# Title\n## Section\n### Subsection\nSome text\n#### Deep";
    let headings = parse_headings(body);
    assert_eq!(headings.len(), 4);
    assert_eq!(headings[0].level, 1);
    assert_eq!(headings[0].text, "Title");
    assert_eq!(headings[0].slug, "title");
    assert_eq!(headings[1].level, 2);
    assert_eq!(headings[1].slug, "section");
    assert_eq!(headings[2].slug, "subsection");
    assert_eq!(headings[3].level, 4);
}

#[test]
fn test_headings_skip_frontmatter() {
    let content = "---\ntitle: T\n---\n# Real Heading";
    let (note, _) = parse_note("file.md", content);
    assert_eq!(note.headings.len(), 1);
    assert_eq!(note.headings[0].text, "Real Heading");
}

#[test]
fn test_title_priority() {
    let (note, _) = parse_note("file.md", "---\ntitle: FM Title\n---\n# H1 Title\nContent");
    assert_eq!(note.title, "FM Title");

    let (note, _) = parse_note("file.md", "---\ntags: [a]\n---\n# H1 Title\nContent");
    assert_eq!(note.title, "H1 Title");

    let (note, _) = parse_note("my-file.md", "Just content");
    assert_eq!(note.title, "my-file");
}

#[test]
fn test_word_and_line_count() {
    let content = "---\ntitle: T\n---\nhello world\nfoo bar baz";
    let (note, _) = parse_note("test.md", content);
    assert_eq!(note.word_count, 5);
    assert_eq!(note.line_count, 4);
}

#[test]
fn test_slugify() {
    assert_eq!(slugify("Hello World"), "hello-world");
    assert_eq!(slugify("Rust & Programming"), "rust-programming");
    assert_eq!(slugify("  Extra   Spaces  "), "extra-spaces");
    assert_eq!(slugify("CamelCase"), "camelcase");
}

#[test]
fn test_indexer_error_display() {
    let err = IndexerError::Parse("bad frontmatter".into());
    assert_eq!(err.message(), "indexer parse error: bad frontmatter");

    let io_err = std::io::Error::new(std::io::ErrorKind::NotFound, "file gone");
    let err = IndexerError::Io(io_err);
    assert!(err.message().contains("file gone"));
}

// ---- further cases -------------------------------------------------------

#[test]
fn frontmatter_with_bom_and_crlf() {
    let content = "\u{feff}---\ntitle: Windows\r\n---\r\nBody";
    let (fm, body) = split_and_parse_frontmatter(content);
    assert_eq!(fm.title, Some("Windows".to_string()));
    assert_eq!(body, "Body");

    let crlf = "---\r\ntitle: X\r\ntags: [a, b]\r\n---\r\nBody";
    let (fm, body) = split_and_parse_frontmatter(crlf);
    assert_eq!(fm.title, Some("X".to_string()));
    assert_eq!(fm.tags, vec!["a", "b"]);
    assert_eq!(body, "Body");
}

#[test]
fn frontmatter_raw_keeps_lists_and_text() {
    let lines = vec![
        "title: T".to_string(),
        "tags: [a, b]".to_string(),
        "status: draft".to_string(),
    ];
    let fm = parse_frontmatter_lines(&lines);
    assert_eq!(fm.raw_str("status"), Some("draft".to_string()));
    assert_eq!(fm.raw_str("tags"), None);
    assert!(fm.raw.iter().any(|(k, v)| k == "tags"
        && matches!(v, FrontmatterValue::List(items) if items == &vec!["a".to_string(), "b".to_string()])));
    assert_eq!(fm.raw_str("missing"), None);
}

#[test]
fn yaml_values_and_inline_arrays() {
    assert_eq!(clean_yaml_value("  \"quoted\"  "), "quoted");
    assert_eq!(clean_yaml_value("'single'"), "single");
    assert_eq!(clean_yaml_value("plain"), "plain");
    assert_eq!(parse_inline_array("[a, 'b', \"c\"]"), vec!["a", "b", "c"]);
    assert_eq!(parse_inline_array("[]"), Vec::<String>::new());
}

#[test]
fn frontmatter_tags_and_inline_tags_merge() {
    let (note, _) = parse_note("n.md", "---\ntags: [rust]\n---\nSome #rust and #go\n");
    assert_eq!(note.tags, vec!["rust", "go"]);
}

#[test]
fn wikilink_inside_code_block_is_still_a_link_but_tag_is_not() {
    let body = "```\n[[Inside]] #nottag\n```\n";
    let links = parse_wikilinks(body);
    assert_eq!(links.len(), 1);
    assert_eq!(links[0].target, "Inside");
    assert!(parse_inline_tags(body).is_empty());
}

#[test]
fn tag_needs_a_word_boundary_before_it() {
    let tags = parse_inline_tags("a#b #c x#y");
    assert_eq!(tags, vec!["c"]);
}

#[test]
fn heading_needs_a_space_after_the_hashes() {
    let headings = parse_headings("#NotHeading\n####### Seven\n## Two words here");
    assert_eq!(headings.len(), 1);
    assert_eq!(headings[0].level, 2);
    assert_eq!(headings[0].text, "Two words here");
    assert_eq!(headings[0].slug, "two-words-here");
}

#[test]
fn slugify_keeps_unicode_letters_and_digits() {
    assert_eq!(slugify("Étude 2024"), "étude-2024");
    assert_eq!(slugify("---"), "");
    assert_eq!(slugify("a_b"), "ab");
}

#[test]
fn note_dates_come_from_frontmatter() {
    let (note, body) = parse_note(
        "d.md",
        "---\ncreated: 2024-01-01\nmodified: 2024-02-03T04:05:06\n---\ntext",
    );
    assert_eq!(note.created.as_deref(), Some("2024-01-01"));
    assert_eq!(note.modified.as_deref(), Some("2024-02-03T04:05:06"));
    assert_eq!(body, "text");
    assert_eq!(note.path, "d.md");
}

#[test]
fn slugs_are_well_dashed() {
    assert_eq!(slugify("  -a--b- "), "ab");
    assert_eq!(slugify("a \t b"), "a-b");
    for text in ["Hello,  World!", " x ", "one - two", "\u{3000}wide\u{3000}"] {
        let s = slugify(text);
        assert!(!s.starts_with('-') && !s.ends_with('-') && !s.contains("--"), "{s}");
    }
}

#[test]
fn titles_fall_back_to_the_component_stem() {
    assert_eq!(parse_note("notes/b/", "text").0.title, "b");
    assert_eq!(parse_note("a/.", "text").0.title, "a");
    assert_eq!(parse_note("dir/.bashrc", "text").0.title, ".bashrc");
    assert_eq!(parse_note("x/archive.tar.gz", "text").0.title, "archive.tar");
    assert_eq!(parse_note("..", "text").0.title, "..");
}
