use std::io::{Cursor, Write};

use xioioi::pkg::{
    check_blocks, group, highlight_blocks, load, markdown, prefix, test_names, unescape, Highlighter, PkgError,
};

fn names(list: &[&str]) -> Vec<String> {
    list.iter().map(|s| s.to_string()).collect()
}

fn zip_of(entries: &[(&str, &str)]) -> Vec<u8> {
    let mut w = zip::ZipWriter::new(Cursor::new(Vec::new()));
    let opts = zip::write::SimpleFileOptions::default().compression_method(zip::CompressionMethod::Stored);
    for (name, body) in entries {
        if name.ends_with('/') {
            w.add_directory(*name, opts).unwrap();
        } else {
            w.start_file(*name, opts).unwrap();
            w.write_all(body.as_bytes()).unwrap();
        }
    }
    w.finish().unwrap().into_inner()
}

fn unesc(s: &str) -> String {
    unescape(s)
}

#[test]
fn unescape_reverses_the_renderer() {
    assert_eq!(unesc("&lt;b&gt; &amp;lt; &quot;x&quot; &#x27;"), "<b> &lt; \"x\" '");
    assert_eq!(unesc("no entities"), "no entities");
    assert_eq!(unesc("&#39; &unknown;"), "&#39; &unknown;");
}

#[test]
fn prefix_of_a_package_in_a_folder() {
    assert_eq!(prefix(&names(&["p/", "p/config.toml", "p/DOC.md", "p/in/", "p/in/a00.in"])), "p/");
}

#[test]
fn prefix_of_a_package_at_the_root() {
    assert_eq!(prefix(&names(&["config.toml", "DOC.md"])), "");
    assert_eq!(prefix(&names(&["a/x", "b/y"])), "");
    assert_eq!(prefix(&names(&[])), "");
    assert_eq!(prefix(&names(&["dir/"])), "");
    assert_eq!(prefix(&names(&["DOC.md"])), "");
    assert_eq!(prefix(&names(&["p/x", "config.toml"])), "");
}

#[test]
fn markdown_renders_statements() {
    let hl = Highlighter::new();
    let out = markdown(&hl, "*hi* <b>raw</b>").unwrap();
    assert!(out.contains("<em>hi</em>"));
    assert!(out.contains("&lt;b&gt;"));
}

#[test]
fn markdown_highlights_known_languages() {
    let hl = Highlighter::new();
    let out = markdown(&hl, "```rust\nfn main() {}\n```\n").unwrap();
    assert!(out.starts_with("<pre><code class=\"language-rust\">"));
    assert!(out.contains("<span"));
    assert!(out.ends_with("</code></pre>\n") || out.ends_with("</code></pre>"));
}

#[test]
fn markdown_keeps_unknown_languages() {
    let hl = Highlighter::new();
    let out = markdown(&hl, "```zzzz\na < b\n```\n").unwrap();
    assert!(out.contains("<pre><code class=\"language-zzzz\">a &lt; b\n</code></pre>"));
}

#[test]
fn blocks_without_language_stay() {
    let hl = Highlighter::new();
    let html = "<p>x</p><pre><code>plain</code></pre><pre><code class=\"language-zzzz\">q &amp; r</code></pre>tail";
    assert!(check_blocks(html));
    assert_eq!(highlight_blocks(&hl, html), html);
    let open = "<pre><code class=\"language-x\">no close";
    assert!(check_blocks(open));
    assert_eq!(highlight_blocks(&hl, open), open);
}

#[test]
fn blocks_with_tag_end_after_close_are_refused() {
    assert!(!check_blocks("<pre><code class=\"language-x</code></pre>\">"));
}

#[test]
fn highlight_blocks_colours_known_languages() {
    let hl = Highlighter::new();
    let html = "<p>a</p><pre><code class=\"language-rust\">let x = 1 &lt; 2;\n</code></pre><p>b</p>";
    let out = highlight_blocks(&hl, html);
    assert!(out.starts_with("<p>a</p><pre><code class=\"language-rust\"><span"));
    assert!(out.ends_with("</code></pre><p>b</p>"));
    assert!(out.contains("&lt;"));
}

#[test]
fn load_reads_examples_and_groups() {
    let data = zip_of(&[
        ("p/", ""),
        ("p/config.toml", "title = \"Sum\"\n"),
        ("p/DOC.md", "# Sum\n"),
        ("p/in/b00.in", "5"),
        ("p/in/_00.in", "1 2\n"),
        ("p/out/_00.out", "3\n"),
        ("p/in/a01.in", "x"),
        ("p/in/a00.in", "y"),
        ("p/in/sub/a02.in", "nested"),
        ("p/in/notes.txt", "not a test"),
    ]);
    let hl = Highlighter::new();
    let pkg = load(&hl, &data).ok().unwrap();
    assert!(pkg.doc.contains("<h1>Sum</h1>"));
    assert_eq!(pkg.examples.len(), 1);
    assert_eq!(pkg.examples[0].input, "1 2\n");
    assert_eq!(pkg.examples[0].output, "3\n");
    assert_eq!(
        pkg.groups,
        vec![
            ("a".to_string(), vec!["a00".to_string(), "a01".to_string()]),
            ("b".to_string(), vec!["b00".to_string()]),
        ]
    );
}

#[test]
fn load_at_the_root() {
    let data = zip_of(&[("config.toml", ""), ("DOC.md", "text"), ("in/_01.in", "i"), ("out/_01.out", "o")]);
    let hl = Highlighter::new();
    let pkg = load(&hl, &data).ok().unwrap();
    assert_eq!(pkg.examples.len(), 1);
    assert!(pkg.groups.is_empty());
}

#[test]
fn load_errors() {
    let hl = Highlighter::new();
    assert!(matches!(load(&hl, b"not a zip"), Err(PkgError::Archive)));
    let no_doc = zip_of(&[("config.toml", "")]);
    assert!(matches!(load(&hl, &no_doc), Err(PkgError::Entry(n)) if n == "DOC.md"));
    let no_out = zip_of(&[("DOC.md", ""), ("in/_00.in", "")]);
    assert!(matches!(load(&hl, &no_out), Err(PkgError::Entry(n)) if n == "out/_00.out"));
    let bad = zip_of(&[("DOC.md", ""), ("in/\u{e9}0.in", "")]);
    assert!(matches!(load(&hl, &bad), Err(PkgError::TestName(n)) if n == "\u{e9}0"));
    let empty = zip_of(&[("DOC.md", ""), ("in/.in", "")]);
    assert!(matches!(load(&hl, &empty), Err(PkgError::TestName(n)) if n.is_empty()));
}

#[test]
fn test_names_are_sorted_and_filtered() {
    let listing = names(&["t/", "t/DOC.md", "t/in/b1.in", "t/in/_2.in", "t/in/A3.in", "t/in/x/y.in", "t/in/a.out", "t/in/.in", "t/out/b1.out"]);
    assert_eq!(test_names(&listing), names(&["", "A3", "_2", "b1"]));
    assert_eq!(test_names(&names(&[])), names(&[]));
}

#[test]
fn group_by_first_character() {
    let g = group(&names(&["_0", "a1", "b2", "a0", "_1", "B9"])).unwrap();
    assert_eq!(
        g,
        vec![
            ("B".to_string(), names(&["B9"])),
            ("a".to_string(), names(&["a1", "a0"])),
            ("b".to_string(), names(&["b2"])),
        ]
    );
    assert!(group(&names(&["_x", "\u{e9}"])).is_none());
    assert!(group(&names(&[""])).is_none());
    assert_eq!(group(&names(&["_only"])).unwrap(), vec![]);
}

#[test]
fn plain_text_in_front_passes_through() {
    let hl = Highlighter::new();
    let y = "<pre><code class=\"language-rust\">let x = 1;\n</code></pre><p>after</p>";
    let x = "<p>before</p>".replace('<', "[");
    let joined = format!("{}{}", x, y);
    assert_eq!(highlight_blocks(&hl, &joined), format!("{}{}", x, highlight_blocks(&hl, y)));
}

#[test]
fn a_block_is_spliced_in_place() {
    let hl = Highlighter::new();
    let known = "text <pre><code class=\"language-rust\">fn f() {}\n</code></pre> tail";
    let out = highlight_blocks(&hl, known);
    assert!(out.starts_with("text <pre><code class=\"language-rust\"><span"));
    assert!(out.ends_with("</code></pre> tail"));
    assert!(!out.contains("fn f() {}\n</code>"));
    let unknown = "text <pre><code class=\"language-nosuchlang\">a &amp; b</code></pre> tail";
    assert_eq!(highlight_blocks(&hl, unknown), unknown);
}

#[test]
fn a_package_in_a_folder_loads_like_the_flat_one() {
    let flat = zip_of(&[
        ("config.toml", ""),
        ("DOC.md", "# Sum\n"),
        ("in/_00.in", "1 2\n"),
        ("out/_00.out", "3\n"),
        ("in/a00.in", "y"),
    ]);
    let nested = zip_of(&[
        ("pkg/", ""),
        ("pkg/config.toml", ""),
        ("pkg/DOC.md", "# Sum\n"),
        ("pkg/in/_00.in", "1 2\n"),
        ("pkg/out/_00.out", "3\n"),
        ("pkg/in/a00.in", "y"),
    ]);
    let hl = Highlighter::new();
    let a = load(&hl, &flat).ok().unwrap();
    let b = load(&hl, &nested).ok().unwrap();
    assert_eq!(a.doc, b.doc);
    assert_eq!(a.examples.len(), b.examples.len());
    assert_eq!(a.examples[0].input, b.examples[0].input);
    assert_eq!(a.examples[0].output, b.examples[0].output);
    assert_eq!(a.groups, b.groups);
    let flat_bad = zip_of(&[("config.toml", ""), ("DOC.md", ""), ("in/_00.in", "")]);
    let nested_bad = zip_of(&[("q/", ""), ("q/config.toml", ""), ("q/DOC.md", ""), ("q/in/_00.in", "")]);
    assert!(load(&hl, &flat_bad).is_err());
    assert!(load(&hl, &nested_bad).is_err());
}

#[test]
fn a_folder_entry_anywhere_or_none_loads_the_same() {
    let hl = Highlighter::new();
    let flat = zip_of(&[("config.toml", ""), ("DOC.md", "doc"), ("in/_1.in", "i"), ("out/_1.out", "o"), ("in/b1.in", "")]);
    let without = zip_of(&[("d/config.toml", ""), ("d/DOC.md", "doc"), ("d/in/_1.in", "i"), ("d/out/_1.out", "o"), ("d/in/b1.in", "")]);
    let last = zip_of(&[("d/config.toml", ""), ("d/DOC.md", "doc"), ("d/in/_1.in", "i"), ("d/out/_1.out", "o"), ("d/in/b1.in", ""), ("d/", "")]);
    let a = load(&hl, &flat).ok().unwrap();
    for data in [&without, &last] {
        let b = load(&hl, data).ok().unwrap();
        assert_eq!(a.doc, b.doc);
        assert_eq!(a.examples.len(), b.examples.len());
        assert_eq!(a.examples[0].input, b.examples[0].input);
        assert_eq!(a.examples[0].output, b.examples[0].output);
        assert_eq!(a.groups, b.groups);
    }
}
