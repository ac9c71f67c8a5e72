use xioioi::db::Problem;
use xioioi::frontend::{
    encode, escape, examples, link, memory, page_id, problem_page, problemset_page, render, render_with, row, time,
};
use xioioi::pkg::{unescape, Example, Pkg};

fn files(list: &[(&str, &str)]) -> Vec<(String, String)> {
    list.iter().map(|(k, v)| (k.to_string(), v.to_string())).collect()
}

fn problem(slug: &str, title: &str, time_limit: i64, memory_limit: i64) -> Problem {
    Problem {
        id: 1,
        slug: slug.to_string(),
        title: title.to_string(),
        time_limit,
        memory_limit,
        created_at: "2026-01-01 00:00:00".to_string(),
    }
}

#[test]
fn escape_writes_entities() {
    assert_eq!(
        escape("<a href=\"x\">Tom & 'Jerry'</a>"),
        "&lt;a href=&quot;x&quot;&gt;Tom &amp; &#39;Jerry&#39;&lt;/a&gt;"
    );
    assert_eq!(escape("plain text"), "plain text");
    assert_eq!(escape(""), "");
}

#[test]
fn escaped_text_has_no_markup() {
    let out = escape("<<>>\"\"''&&");
    assert!(!out.contains('<') && !out.contains('>') && !out.contains('"') && !out.contains('\''));
}

#[test]
fn encode_keeps_unreserved_and_escapes_the_rest() {
    assert_eq!(encode("sum"), "sum");
    assert_eq!(encode("A-z_0.9~"), "A-z_0.9~");
    assert_eq!(encode("a b/\u{107}#"), "a%20b%2F%C4%87%23");
    assert_eq!(encode(""), "");
}

fn decode(s: &str) -> Vec<u8> {
    let b = s.as_bytes();
    let mut out = Vec::new();
    let mut i = 0;
    while i < b.len() {
        if b[i] == b'%' {
            out.push(u8::from_str_radix(&s[i + 1..i + 3], 16).unwrap());
            i += 3;
        } else {
            out.push(b[i]);
            i += 1;
        }
    }
    out
}

#[test]
fn encode_decodes_back() {
    for s in ["", "x y", "%41", "\u{1f600} ok", "a#b/c?d=e&f"] {
        assert_eq!(decode(&encode(s)), s.as_bytes());
    }
}

#[test]
fn time_formats_seconds_and_milliseconds() {
    assert_eq!(time(1000), "1 s");
    assert_eq!(time(60000), "60 s");
    assert_eq!(time(0), "0 s");
    assert_eq!(time(2500), "2500 ms");
    assert_eq!(time(-3000), "-3 s");
    assert_eq!(time(-1), "-1 ms");
    assert_eq!(time(i64::MIN), "-9223372036854775808 ms");
}

#[test]
fn memory_formats_megabytes_and_kilobytes() {
    assert_eq!(memory(262144), "256 MB");
    assert_eq!(memory(1024), "1 MB");
    assert_eq!(memory(1000), "1000 KB");
    assert_eq!(memory(0), "0 MB");
}

#[test]
fn link_splits_at_the_first_hash() {
    assert_eq!(link("sum#741cf79"), "/p/sum/741cf79");
    assert_eq!(link("no hash"), "/p/no%20hash/");
    assert_eq!(link("a#b#c"), "/p/a/b%23c");
    assert_eq!(link("#x"), "/p//x");
}

#[test]
fn row_of_a_problem() {
    let p = problem("sum#741cf79", "A+B <easy>", 1000, 262144);
    assert_eq!(
        row(&p),
        "<tr>\n\t<td class=\"font-mono whitespace-nowrap\">sum#741cf79</td>\n\t<td><a href=\"/p/sum/741cf79\">A+B &lt;easy&gt;</a></td>\n\t<td class=\"text-center whitespace-nowrap\">1 s</td>\n\t<td class=\"text-center whitespace-nowrap\">256 MB</td>\n</tr>"
    );
}

#[test]
fn examples_are_numbered_from_one() {
    let list = vec![
        Example { input: "1 2\n".to_string(), output: "3\n".to_string() },
        Example { input: "<".to_string(), output: "&".to_string() },
    ];
    let expected = "<h2 class=\"mt-8 mb-3 text-xl font-bold\">Example 1</h2>\n<div class=\"grid gap-4 md:grid-cols-2\">\n\t<div>\n\t\t<h3 class=\"mb-2 font-bold\">Input</h3>\n\t\t<pre><code>1 2\n</code></pre>\n\t</div>\n\t<div>\n\t\t<h3 class=\"mb-2 font-bold\">Output</h3>\n\t\t<pre><code>3\n</code></pre>\n\t</div>\n</div>\n<h2 class=\"mt-8 mb-3 text-xl font-bold\">Example 2</h2>\n<div class=\"grid gap-4 md:grid-cols-2\">\n\t<div>\n\t\t<h3 class=\"mb-2 font-bold\">Input</h3>\n\t\t<pre><code>&lt;</code></pre>\n\t</div>\n\t<div>\n\t\t<h3 class=\"mb-2 font-bold\">Output</h3>\n\t\t<pre><code>&amp;</code></pre>\n\t</div>\n</div>\n";
    assert_eq!(examples(&list), expected);
    assert_eq!(examples(&[]), "");
}

#[test]
fn templates_fill_variables_and_partials() {
    let t = files(&[
        ("page.html", "Hello %%name%%! %%footer%% %%missing%% end %%open"),
        ("partials/footer.html", "bye \n\n"),
        ("partials/name.html", "never used"),
    ]);
    let vars = vec![("name".to_string(), "World".to_string()), ("name".to_string(), "Other".to_string())];
    assert_eq!(render_with(&t, "page.html", &vars), "Hello World! bye %%missing%% end %%open");
    assert_eq!(render(&t, "page.html"), "Hello never used! bye %%missing%% end %%open");
}

#[test]
fn missing_template_renders_empty() {
    assert_eq!(render(&files(&[]), "index.html"), "");
}

#[test]
fn unknown_placeholders_are_kept() {
    let t = files(&[("a.html", "%%x%% and %%y%%%%")]);
    assert_eq!(render(&t, "a.html"), "%%x%% and %%y%%%%");
    let plain = files(&[("b.html", "no markers here")]);
    assert_eq!(render(&plain, "b.html"), "no markers here");
}

#[test]
fn problemset_without_problems() {
    let t = files(&[("problemset.html", "%%rows%%|%%q%%|%%qs%%")]);
    assert_eq!(
        problemset_page(&t, &[], ""),
        "<tr><td colspan=\"4\" class=\"text-center text-muted\">No problems found.</td></tr>||"
    );
}

#[test]
fn problemset_with_problems_and_query() {
    let t = files(&[("problemset.html", "%%rows%%|%%q%%|%%qs%%")]);
    let ps = vec![problem("a#1", "A", 1000, 1024), problem("b#2", "B", 1500, 1000)];
    let expected = format!("{}\n{}|a b&lt;|&amp;q=a%20b%3C", row(&ps[0]), row(&ps[1]));
    assert_eq!(problemset_page(&t, &ps, "a b<"), expected);
}

#[test]
fn problem_page_fills_everything() {
    let t = files(&[("problem.html", "%%title%%/%%id%%/%%time%%/%%memory%%/%%doc%%/%%examples%%")]);
    let p = problem("x#1", "T&T", 2000, 65536);
    let pkg = Pkg { doc: "<p>d</p>".to_string(), examples: vec![], groups: vec![] };
    assert_eq!(problem_page(&t, &p, &pkg), "T&amp;T/x#1/2 s/64 MB/<p>d</p>/");
}

#[test]
fn unescaping_escaped_text_gives_it_back() {
    let s = "a < b && c > \"d\"";
    assert_eq!(unescape(&escape(s)), s);
    // A quote is written `&#39;`, which unescaping leaves alone.
    assert_eq!(unescape(&escape("it's")), "it&#39;s");
}

#[test]
fn examples_of_joined_lists_are_numbered_on() {
    let a = vec![Example { input: "1".to_string(), output: "2".to_string() }];
    let b = vec![Example { input: "3".to_string(), output: "4".to_string() }];
    let both = vec![
        Example { input: "1".to_string(), output: "2".to_string() },
        Example { input: "3".to_string(), output: "4".to_string() },
    ];
    let whole = examples(&both);
    let first = examples(&a);
    assert!(whole.starts_with(&first));
    let second = examples(&b).replace("Example 1</h2>", "Example 2</h2>");
    assert_eq!(whole, format!("{}{}", first, second));
}

#[test]
fn link_segments_hold_no_slash_and_decode_back() {
    let l = link("a/b c#x/y");
    assert_eq!(l, "/p/a%2Fb%20c/x%2Fy");
    let parts: Vec<&str> = l.split('/').collect();
    assert_eq!(parts.len(), 4);
    assert_eq!(decode(parts[2]), "a/b c".as_bytes().to_vec());
    assert_eq!(decode(parts[3]), "x/y".as_bytes().to_vec());
}

#[test]
fn page_id_joins_name_and_hash() {
    assert_eq!(page_id("two-sum", "741cf79"), "two-sum#741cf79");
    assert_eq!(link(&page_id("a b", "x")), "/p/a%20b/x");
}

#[test]
fn three_examples_renumber_the_joined_tail() {
    let ex = |i: &str, o: &str| Example { input: i.to_string(), output: o.to_string() };
    let whole = examples(&[ex("1", "2"), ex("3", "4"), ex("Example 1</h2>", "6")]);
    let head = examples(&[ex("1", "2")]);
    let tail = examples(&[ex("3", "4"), ex("Example 1</h2>", "6")])
        .replace("Example 2</h2>", "Example 3</h2>")
        .replace("Example 1</h2>\n", "Example 2</h2>\n");
    assert_eq!(whole, format!("{}{}", head, tail));
}
