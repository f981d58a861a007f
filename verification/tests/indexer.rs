use lontar::index::{build_index, extract_link_context, Indexer};
use lontar::markdown::Wikilink;
use lontar::path::is_indexable_path;

/// The Markdown files of an in-memory vault that a rebuild indexes.
fn vault_files(files: &[(&str, &str)]) -> Vec<(String, String)> {
    files
        .iter()
        .filter(|(p, _)| is_indexable_path(p))
        .map(|(p, c)| (p.to_string(), c.to_string()))
        .collect()
}

fn indexer_for(files: &[(&str, &str)]) -> Indexer {
    let mut indexer = Indexer::new("/vault".to_string());
    indexer.rebuild(&vault_files(files));
    indexer
}

fn link(target: &str) -> Wikilink {
    Wikilink {
        raw: format!("[[{target}]]"),
        target: target.to_string(),
        heading: None,
        display_text: None,
        block_id: None,
    }
}

#[test]
fn test_rebuild_creates_graph() {
    let indexer = indexer_for(&[("a.md", "[[b]]\n"), ("b.md", "# B\nLinks to [[a]]\n")]);
    let (nodes, edges) = indexer.get_graph_data();
    assert_eq!(nodes.len(), 2);
    assert!(edges.iter().any(|e| e.source == "a.md" && e.target == "b.md"));
    assert!(edges.iter().any(|e| e.source == "b.md" && e.target == "a.md"));
}

#[test]
fn test_backlinks_reverse_index() {
    let indexer = indexer_for(&[
        ("a.md", "Link to [[b]] here\n"),
        ("b.md", "# B Note\nNo outgoing links\n"),
    ]);
    let backlinks = indexer.get_backlinks("b.md");
    assert_eq!(backlinks.len(), 1);
    assert_eq!(backlinks[0].source_path, "a.md");
    assert!(backlinks[0].context.contains("[[b]]"));
}

#[test]
fn test_remove_file() {
    let mut indexer = indexer_for(&[("a.md", "Link to [[b]]\n"), ("b.md", "# B\n")]);
    assert_eq!(indexer.get_backlinks("b.md").len(), 1);
    assert_eq!(indexer.get_graph_data().0.len(), 2);

    indexer.remove_file("a.md");

    assert_eq!(indexer.get_graph_data().0.len(), 1);
    assert_eq!(indexer.get_backlinks("b.md").len(), 0);
    assert!(indexer.get_graph_data().1.is_empty());
}

#[test]
fn test_resolve_link() {
    let indexer = indexer_for(&[("my-note.md", "# My Note\n")]);
    assert_eq!(indexer.resolve_link(&link("my-note")), Some("my-note.md".to_string()));
    assert_eq!(indexer.resolve_link(&link("My Note")), Some("my-note.md".to_string()));
    assert_eq!(indexer.resolve_link(&link("nonexistent")), None);
}

#[test]
fn test_tags_index() {
    let indexer = indexer_for(&[
        ("a.md", "---\ntags: [rust, web]\n---\n# A\n"),
        ("b.md", "# B\nSome #rust content\n"),
        ("c.md", "# C\n"),
    ]);
    let tags = indexer.get_tags();
    assert!(tags.iter().any(|(t, c)| t == "rust" && *c == 2));
    assert!(tags.iter().any(|(t, c)| t == "web" && *c == 1));
    let rust_notes = indexer.get_notes_by_tag("rust");
    assert_eq!(rust_notes.len(), 2);
}

#[test]
fn test_index_file_incremental() {
    let mut indexer = indexer_for(&[("a.md", "# A\n"), ("b.md", "# B\n")]);
    assert_eq!(indexer.get_graph_data().0.len(), 2);
    assert!(indexer.get_graph_data().1.is_empty());

    indexer.index_file_at("a.md", "# A\nLinks to [[b]]\n");

    let edges = &indexer.get_graph_data().1;
    assert!(edges.iter().any(|e| e.source == "a.md" && e.target == "b.md"));
    assert_eq!(indexer.get_backlinks("b.md").len(), 1);
}

#[test]
fn test_nested_dirs_rebuild() {
    let indexer = indexer_for(&[("sub/a.md", "# A\n[[b]]\n"), ("sub/deep/b.md", "# B\n")]);
    let (nodes, edges) = indexer.get_graph_data();
    assert_eq!(nodes.len(), 2);
    assert!(edges.iter().any(|e| e.source == "sub/a.md" && e.target == "sub/deep/b.md"));
}

#[test]
fn test_hidden_files_skipped() {
    let indexer = indexer_for(&[(".hidden/secret.md", "# Secret\n"), ("visible.md", "# Visible\n")]);
    let (nodes, _) = indexer.get_graph_data();
    assert_eq!(nodes.len(), 1);
    assert!(nodes.contains(&"visible.md".to_string()));
}

#[test]
fn test_unresolved_links_no_panic() {
    let indexer = indexer_for(&[("orphan.md", "Links to [[ghost]] and [[phantom#Sec]]\n")]);
    assert_eq!(indexer.get_graph_data().0.len(), 1);
    assert!(indexer.get_graph_data().1.is_empty());
    assert!(indexer.get_backlinks("ghost.md").is_empty());
}

// ---- further cases -------------------------------------------------------

#[test]
fn index_file_reads_back_the_note() {
    let mut indexer = indexer_for(&[("a.md", "# A\n")]);
    indexer.index_file_at("new.md", "---\ntitle: Fresh\n---\nbody #tag\n");
    let note = indexer.index().get_note("new.md").expect("indexed note");
    assert_eq!(note.title, "Fresh");
    assert_eq!(note.tags, vec!["tag"]);
    assert_eq!(indexer.get_notes_by_tag("tag").len(), 1);
    assert!(indexer.index().get_note("missing.md").is_none());
}

#[test]
fn reindexing_a_note_replaces_its_links_and_tags() {
    let mut indexer = indexer_for(&[
        ("a.md", "#old [[b]]\n"),
        ("b.md", "# B\n"),
        ("c.md", "# C\n"),
    ]);
    indexer.index_file_at("a.md", "#new [[c]]\n");
    let (_, edges) = indexer.get_graph_data();
    assert_eq!(edges.len(), 1);
    assert_eq!(edges[0].source, "a.md");
    assert_eq!(edges[0].target, "c.md");
    assert!(indexer.get_backlinks("b.md").is_empty());
    assert_eq!(indexer.get_backlinks("c.md").len(), 1);
    assert!(indexer.get_notes_by_tag("old").is_empty());
    assert_eq!(indexer.get_notes_by_tag("new").len(), 1);
}

#[test]
fn removing_a_note_drops_every_link_touching_it() {
    let mut indexer = indexer_for(&[("a.md", "[[b]]\n"), ("b.md", "[[a]] [[b]]\n"), ("c.md", "[[a]]\n")]);
    indexer.remove_file("b.md");
    let (nodes, edges) = indexer.get_graph_data();
    assert_eq!(nodes, vec!["a.md".to_string(), "c.md".to_string()]);
    assert_eq!(edges.len(), 1);
    assert_eq!((edges[0].source.as_str(), edges[0].target.as_str()), ("c.md", "a.md"));
    assert!(indexer.get_backlinks("b.md").is_empty());
    assert_eq!(indexer.get_backlinks("a.md").len(), 1);
    assert_eq!(indexer.get_backlinks("a.md")[0].source_path, "c.md");
    indexer.remove_file("missing.md");
    assert_eq!(indexer.get_graph_data().1.len(), 1);
}

#[test]
fn tags_sorted_by_count() {
    let indexer = indexer_for(&[
        ("a.md", "#x #y\n"),
        ("b.md", "#y\n"),
        ("c.md", "#y #z\n"),
    ]);
    let tags = indexer.get_tags();
    assert_eq!(tags[0], ("y".to_string(), 3));
    assert_eq!(tags.len(), 3);
    assert!(tags[1].1 == 1 && tags[2].1 == 1);
}

#[test]
fn resolve_link_ignores_case_and_extension() {
    let indexer = indexer_for(&[("Folder/Note.md", "text\n")]);
    assert_eq!(indexer.resolve_link(&link("note")), Some("Folder/Note.md".to_string()));
    assert_eq!(indexer.resolve_link(&link("Folder/Note.md")), Some("Folder/Note.md".to_string()));
}

#[test]
fn link_context_is_the_line_with_the_link() {
    let l = link("b");
    assert_eq!(extract_link_context("first\n  see [[b]] here  \nlast", &l), "see [[b]] here");
    assert_eq!(extract_link_context("no link here", &l), "[[b]]");
}

#[test]
fn build_index_matches_rebuild() {
    let files = vault_files(&[("a.md", "[[b]]\n"), ("b.md", "# B\n")]);
    let index = build_index(&files);
    assert_eq!(index.notes.len(), 2);
    assert_eq!(index.graph_edges.len(), 1);
    assert_eq!(index.backlinks.len(), 1);
    assert_eq!(index.backlinks[0].0, "b.md");
}

#[test]
fn tag_index_lists_exactly_the_carriers() {
    let mut indexer = indexer_for(&[
        ("a.md", "---\ntags: [x]\n---\n#y\n"),
        ("b.md", "#x\n"),
    ]);
    let paths = |ix: &Indexer, t: &str| -> Vec<String> {
        let mut v: Vec<String> = ix.get_notes_by_tag(t).iter().map(|n| n.path.clone()).collect();
        v.sort();
        v
    };
    assert_eq!(paths(&indexer, "x"), vec!["a.md", "b.md"]);
    assert_eq!(paths(&indexer, "y"), vec!["a.md"]);
    indexer.index_file_at("a.md", "#z\n");
    assert_eq!(paths(&indexer, "x"), vec!["b.md"]);
    assert!(paths(&indexer, "y").is_empty());
    assert_eq!(paths(&indexer, "z"), vec!["a.md"]);
    indexer.remove_file("b.md");
    assert!(paths(&indexer, "x").is_empty());
}

#[test]
fn edges_and_backlinks_correspond() {
    let files = vault_files(&[
        ("a.md", "[[b]] and [[c]] and [[ghost]]\n"),
        ("b.md", "[[a]]\n"),
        ("c.md", "# C\n"),
    ]);
    let index = build_index(&files);
    assert_eq!(index.graph_edges.len(), index.backlinks.len());
    assert_eq!(index.graph_edges.len(), 3);
    for (e, (target, b)) in index.graph_edges.iter().zip(index.backlinks.iter()) {
        assert_eq!(&e.source, &b.source_path);
        assert_eq!(&e.target, target);
        assert!(index.notes.iter().any(|n| &n.path == target));
    }
}
