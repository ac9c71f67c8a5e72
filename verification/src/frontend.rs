//! HTML pages: escaping, links, problem rows, examples and templates.
use vstd::prelude::*;
use vstd::utf8::encode_utf8;

use crate::db::Problem;
use crate::pkg::{
    ent_amp, ent_apos, ent_gt, ent_lt, ent_quot, examples_view, unescape_spec, Example, Pkg,
};
use crate::auth::{all_digits, digits_value};
use crate::text::{
    chars_of, eq_chars, find, find_chars, has_prefix, hex_char, hex_digit, int_decimal, lemma_find,
    nat_decimal, occurs_at, push_chars, replace_all, push_i64, push_str, push_u64, string_of, trim_end, trim_end_spec,
};

verus! {

// ---------------------------------------------------------------------------
// Escaping

/// What `c` becomes in HTML text or an attribute value.
pub open spec fn escape_char(c: char) -> Seq<char> {
    if c == '&' {
        seq!['&', 'a', 'm', 'p', ';']
    } else if c == '<' {
        seq!['&', 'l', 't', ';']
    } else if c == '>' {
        seq!['&', 'g', 't', ';']
    } else if c == '"' {
        seq!['&', 'q', 'u', 'o', 't', ';']
    } else if c == '\'' {
        seq!['&', '#', '3', '9', ';']
    } else {
        seq![c]
    }
}

/// `s` with `&`, `<`, `>`, `"` and `'` written as entities.
pub open spec fn escape_spec(s: Seq<char>) -> Seq<char>
    decreases s.len(),
{
    if s.len() == 0 {
        seq![]
    } else {
        escape_spec(s.drop_last()) + escape_char(s.last())
    }
}

fn push_escaped(out: &mut Vec<char>, s: &[char])
    ensures
        final(out)@ == old(out)@ + escape_spec(s@),
{
    let mut i: usize = 0;
    while i < s.len()
        invariant
            i <= s.len(),
            out@ == old(out)@ + escape_spec(s@.take(i as int)),
        decreases s.len() - i,
    {
        let c = s[i];
        let ghost before = out@;
        if c == '&' {
            push_chars(out, &['&', 'a', 'm', 'p', ';']);
        } else if c == '<' {
            push_chars(out, &['&', 'l', 't', ';']);
        } else if c == '>' {
            push_chars(out, &['&', 'g', 't', ';']);
        } else if c == '"' {
            push_chars(out, &['&', 'q', 'u', 'o', 't', ';']);
        } else if c == '\'' {
            push_chars(out, &['&', '#', '3', '9', ';']);
        } else {
            out.push(c);
        }
        assert(out@ =~= before + escape_char(c));
        assert(s@.take(i + 1).drop_last() =~= s@.take(i as int));
        i += 1;
    }
    assert(s@.take(s.len() as int) =~= s@);
}

/// Escapes text for HTML.
pub fn escape(s: &str) -> (r: String)
    ensures
        r@ == escape_spec(s@),
{
    let c = chars_of(s);
    let mut out: Vec<char> = Vec::new();
    push_escaped(&mut out, c.as_slice());
    string_of(out.as_slice())
}

// ---------------------------------------------------------------------------
// Percent-encoding

/// Bytes that stay as they are in a URL path segment: ASCII letters, digits and `-_.~`.
pub open spec fn unreserved(b: u8) -> bool {
    ||| (48 <= b && b <= 57)
    ||| (65 <= b && b <= 90)
    ||| (97 <= b && b <= 122)
    ||| b == 45
    ||| b == 95
    ||| b == 46
    ||| b == 126
}

/// What byte `b` becomes: itself, or `%` and two upper-case hex digits.
pub open spec fn pct_byte(b: u8) -> Seq<char> {
    if unreserved(b) {
        seq![b as char]
    } else {
        seq!['%', hex_digit((b / 16) as int, true), hex_digit((b % 16) as int, true)]
    }
}

/// Percent-encoding of `bytes`, byte by byte.
pub open spec fn pct(bytes: Seq<u8>) -> Seq<char>
    decreases bytes.len(),
{
    if bytes.len() == 0 {
        seq![]
    } else {
        pct(bytes.drop_last()) + pct_byte(bytes.last())
    }
}

fn push_pct(out: &mut Vec<char>, bytes: &[u8])
    ensures
        final(out)@ == old(out)@ + pct(bytes@),
{
    let mut i: usize = 0;
    while i < bytes.len()
        invariant
            i <= bytes.len(),
            out@ == old(out)@ + pct(bytes@.take(i as int)),
        decreases bytes.len() - i,
    {
        let b = bytes[i];
        let ghost before = out@;
        if (48 <= b && b <= 57) || (65 <= b && b <= 90) || (97 <= b && b <= 122) || b == 45 || b == 95
            || b == 46 || b == 126 {
            out.push(b as char);
        } else {
            out.push('%');
            out.push(hex_char(b / 16, true));
            out.push(hex_char(b % 16, true));
        }
        assert(out@ =~= before + pct_byte(b));
        assert(bytes@.take(i + 1).drop_last() =~= bytes@.take(i as int));
        i += 1;
    }
    assert(bytes@.take(bytes.len() as int) =~= bytes@);
}

/// Percent-encodes the UTF-8 bytes of `s` for a URL path segment.
pub fn encode(s: &str) -> (r: String)
    ensures
        r@ == pct(encode_utf8(s@)),
{
    let bytes = s.as_bytes();
    let mut out: Vec<char> = Vec::new();
    push_pct(&mut out, bytes);
    string_of(out.as_slice())
}

// ---------------------------------------------------------------------------
// Limits

/// ` s`
pub open spec fn unit_s() -> Seq<char> {
    seq![' ', 's']
}

/// ` ms`
pub open spec fn unit_ms() -> Seq<char> {
    seq![' ', 'm', 's']
}

/// ` MB`
pub open spec fn unit_mb() -> Seq<char> {
    seq![' ', 'M', 'B']
}

/// ` KB`
pub open spec fn unit_kb() -> Seq<char> {
    seq![' ', 'K', 'B']
}

/// A time limit: whole seconds as `N s`, otherwise `N ms`.
pub open spec fn time_spec(ms: int) -> Seq<char> {
    if ms % 1000 == 0 {
        int_decimal(ms / 1000) + unit_s()
    } else {
        int_decimal(ms) + unit_ms()
    }
}

/// A memory limit: whole MiB as `N MB`, otherwise `N KB`.
pub open spec fn memory_spec(kib: int) -> Seq<char> {
    if kib % 1024 == 0 {
        int_decimal(kib / 1024) + unit_mb()
    } else {
        int_decimal(kib) + unit_kb()
    }
}

/// Formats a time limit given in milliseconds.
pub fn time(ms: i64) -> (r: String)
    ensures
        r@ == time_spec(ms as int),
{
    let mut out: Vec<char> = Vec::new();
    if ms % 1000 == 0 {
        push_i64(&mut out, ms / 1000);
        push_chars(&mut out, &[' ', 's']);
        assert(out@ =~= time_spec(ms as int));
    } else {
        push_i64(&mut out, ms);
        push_chars(&mut out, &[' ', 'm', 's']);
        assert(out@ =~= time_spec(ms as int));
    }
    string_of(out.as_slice())
}

/// Formats a memory limit given in KiB.
pub fn memory(kib: i64) -> (r: String)
    ensures
        r@ == memory_spec(kib as int),
{
    let mut out: Vec<char> = Vec::new();
    if kib % 1024 == 0 {
        push_i64(&mut out, kib / 1024);
        push_chars(&mut out, &[' ', 'M', 'B']);
        assert(out@ =~= memory_spec(kib as int));
    } else {
        push_i64(&mut out, kib);
        push_chars(&mut out, &[' ', 'K', 'B']);
        assert(out@ =~= memory_spec(kib as int));
    }
    string_of(out.as_slice())
}


// ---------------------------------------------------------------------------
// Links and rows

/// An id cut at its first `#` into name and hash (the hash is empty without `#`).
pub open spec fn split_id(id: Seq<char>) -> (Seq<char>, Seq<char>) {
    match find(id, seq!['#']) {
        Some(k) => (id.take(k), id.skip(k + 1)),
        None => (id, Seq::empty()),
    }
}

/// The page of problem `id`: `/p/<name>/<hash>`, both percent-encoded.
pub open spec fn link_spec(id: Seq<char>) -> Seq<char> {
    let (name, hash) = split_id(id);
    seq!['/', 'p', '/'] + pct(encode_utf8(name)) + seq!['/'] + pct(encode_utf8(hash))
}

fn push_encoded(out: &mut Vec<char>, s: &[char])
    ensures
        final(out)@ == old(out)@ + pct(encode_utf8(s@)),
{
    let st = string_of(s);
    let bytes = st.as_str().as_bytes();
    push_pct(out, bytes);
}

/// The link to the page of problem `id`.
pub fn link(id: &str) -> (r: String)
    ensures
        r@ == link_spec(id@),
{
    let c = chars_of(id);
    let sharp = vec!['#'];
    assert(sharp@ =~= seq!['#']);
    let (name, hash): (&[char], &[char]) = match find_chars(c.as_slice(), sharp.as_slice(), 0) {
        Some(k) => {
            proof {
                lemma_find(c@, seq!['#']);
            }
            assert(k < c.len());
            (&c.as_slice()[0..k], &c.as_slice()[k + 1..c.len()])
        },
        None => (c.as_slice(), &[]),
    };
    assert(name@ == split_id(id@).0 && hash@ =~= split_id(id@).1);
    let mut out: Vec<char> = Vec::new();
    push_chars(&mut out, &['/', 'p', '/']);
    push_encoded(&mut out, name);
    out.push('/');
    push_encoded(&mut out, hash);
    assert(out@ =~= link_spec(id@));
    string_of(out.as_slice())
}


/// The id of the problem whose page is `/p/<name>/<hash>`: `name#hash`.
pub fn page_id(name: &str, hash: &str) -> (r: String)
    ensures
        r@ == name@ + seq!['#'] + hash@,
{
    let mut out: Vec<char> = Vec::new();
    push_str(&mut out, name);
    out.push('#');
    push_str(&mut out, hash);
    string_of(out.as_slice())
}

/// The table row of a problem: its id, title (linked to its page), time and memory limit.
pub open spec fn row_spec(slug: Seq<char>, title: Seq<char>, time_limit: int, memory_limit: int) -> Seq<char> {
    "<tr>\n\t<td class=\"font-mono whitespace-nowrap\">"@ + escape_spec(slug)
        + "</td>\n\t<td><a href=\""@ + link_spec(slug) + "\">"@ + escape_spec(title)
        + "</a></td>\n\t<td class=\"text-center whitespace-nowrap\">"@ + time_spec(time_limit)
        + "</td>\n\t<td class=\"text-center whitespace-nowrap\">"@ + memory_spec(memory_limit)
        + "</td>\n</tr>"@
}

/// The table row of problem `p`.
pub fn row(p: &Problem) -> (r: String)
    ensures
        r@ == row_spec(p.slug@, p.title@, p.time_limit as int, p.memory_limit as int),
{
    let mut out: Vec<char> = Vec::new();
    push_str(&mut out, "<tr>\n\t<td class=\"font-mono whitespace-nowrap\">");
    push_str(&mut out, escape(p.slug.as_str()).as_str());
    push_str(&mut out, "</td>\n\t<td><a href=\"");
    push_str(&mut out, link(p.slug.as_str()).as_str());
    push_str(&mut out, "\">");
    push_str(&mut out, escape(p.title.as_str()).as_str());
    push_str(&mut out, "</a></td>\n\t<td class=\"text-center whitespace-nowrap\">");
    push_str(&mut out, time(p.time_limit).as_str());
    push_str(&mut out, "</td>\n\t<td class=\"text-center whitespace-nowrap\">");
    push_str(&mut out, memory(p.memory_limit).as_str());
    push_str(&mut out, "</td>\n</tr>");
    string_of(out.as_slice())
}

// ---------------------------------------------------------------------------
// Examples

/// Example number `n` of a statement, input and output side by side.
pub open spec fn example_html(n: nat, input: Seq<char>, output: Seq<char>) -> Seq<char> {
    "<h2 class=\"mt-8 mb-3 text-xl font-bold\">Example "@ + nat_decimal(n)
        + "</h2>\n<div class=\"grid gap-4 md:grid-cols-2\">\n\t<div>\n\t\t<h3 class=\"mb-2 font-bold\">Input</h3>\n\t\t<pre><code>"@
        + escape_spec(input)
        + "</code></pre>\n\t</div>\n\t<div>\n\t\t<h3 class=\"mb-2 font-bold\">Output</h3>\n\t\t<pre><code>"@
        + escape_spec(output) + "</code></pre>\n\t</div>\n</div>\n"@
}

/// All examples, numbered from 1.
pub open spec fn examples_spec(list: Seq<(Seq<char>, Seq<char>)>) -> Seq<char>
    decreases list.len(),
{
    if list.len() == 0 {
        seq![]
    } else {
        examples_spec(list.drop_last()) + example_html(list.len(), list.last().0, list.last().1)
    }
}

/// The HTML of the examples of a statement.
pub fn examples(list: &[Example]) -> (r: String)
    ensures
        r@ == examples_spec(examples_view(list@)),
{
    let mut out: Vec<char> = Vec::new();
    let mut i: usize = 0;
    while i < list.len()
        invariant
            i <= list.len(),
            out@ == examples_spec(examples_view(list@).take(i as int)),
        decreases list.len() - i,
    {
        let ex = &list[i];
        let ghost before = out@;
        push_str(&mut out, "<h2 class=\"mt-8 mb-3 text-xl font-bold\">Example ");
        push_u64(&mut out, (i + 1) as u64);
        push_str(
            &mut out,
            "</h2>\n<div class=\"grid gap-4 md:grid-cols-2\">\n\t<div>\n\t\t<h3 class=\"mb-2 font-bold\">Input</h3>\n\t\t<pre><code>",
        );
        push_str(&mut out, escape(ex.input.as_str()).as_str());
        push_str(
            &mut out,
            "</code></pre>\n\t</div>\n\t<div>\n\t\t<h3 class=\"mb-2 font-bold\">Output</h3>\n\t\t<pre><code>",
        );
        push_str(&mut out, escape(ex.output.as_str()).as_str());
        push_str(&mut out, "</code></pre>\n\t</div>\n</div>\n");
        let ghost v = examples_view(list@);
        assert(v.take(i + 1).drop_last() =~= v.take(i as int));
        assert(v.take(i + 1).last() == (ex.input@, ex.output@));
        assert(out@ =~= before + example_html((i + 1) as nat, ex.input@, ex.output@));
        i += 1;
    }
    assert(examples_view(list@).take(list.len() as int) =~= examples_view(list@));
    string_of(out.as_slice())
}


// ---------------------------------------------------------------------------
// Templates

/// The views of a table of string pairs.
pub open spec fn pairs_view(t: Seq<(String, String)>) -> Seq<(Seq<char>, Seq<char>)> {
    t.map_values(|e: (String, String)| (e.0@, e.1@))
}

/// The value of the first entry of `table` under `key`.
pub open spec fn lookup(table: Seq<(Seq<char>, Seq<char>)>, key: Seq<char>) -> Option<Seq<char>>
    decreases table.len(),
{
    if table.len() == 0 {
        None
    } else if table[0].0 == key {
        Some(table[0].1)
    } else {
        lookup(table.skip(1), key)
    }
}

/// `%%`, which opens and closes a placeholder.
pub open spec fn marker() -> Seq<char> {
    seq!['%', '%']
}

/// Where the partial template `key` lies: `partials/<key>.html`.
pub open spec fn partial_path(key: Seq<char>) -> Seq<char> {
    seq!['p', 'a', 'r', 't', 'i', 'a', 'l', 's', '/'] + key + seq!['.', 'h', 't', 'm', 'l']
}

/// `src` with each placeholder `%%key%%` replaced, from left to right: by the value of
/// `key` in `vars`, else by the partial `partials/<key>.html` without trailing
/// white space, else left as it is. An unclosed `%%` ends the scan.
pub open spec fn expand(
    src: Seq<char>,
    vars: Seq<(Seq<char>, Seq<char>)>,
    files: Seq<(Seq<char>, Seq<char>)>,
) -> Seq<char>
    decreases src.len(),
{
    match find(src, marker()) {
        None => src,
        Some(start) => {
            let after = src.skip(start + 2);
            match find(after, marker()) {
                None => src,
                Some(end) => {
                    if 0 <= start && start + 2 <= src.len() && 0 <= end && end + 2 <= after.len() {
                        let key = after.take(end);
                        let piece = match lookup(vars, key) {
                            Some(v) => v,
                            None => match lookup(files, partial_path(key)) {
                                Some(p) => trim_end_spec(p),
                                None => src.subrange(start, start + end + 4),
                            },
                        };
                        src.take(start) + piece + expand(after.skip(end + 2), vars, files)
                    } else {
                        src
                    }
                },
            }
        },
    }
}

/// Template `name` of `files` (empty when there is none) with its placeholders filled.
pub open spec fn render_spec(
    files: Seq<(Seq<char>, Seq<char>)>,
    name: Seq<char>,
    vars: Seq<(Seq<char>, Seq<char>)>,
) -> Seq<char> {
    let src = match lookup(files, name) {
        Some(t) => t,
        None => Seq::empty(),
    };
    expand(src, vars, files)
}

fn find_entry(table: &[(String, String)], key: &[char]) -> (r: Option<usize>)
    ensures
        match r {
            Some(i) => i < table@.len() && lookup(pairs_view(table@), key@) == Some(table@[i as int].1@),
            None => lookup(pairs_view(table@), key@) is None,
        },
{
    let ghost t = pairs_view(table@);
    let mut i: usize = 0;
    assert(t.skip(0) =~= t);
    while i < table.len()
        invariant
            i <= table.len(),
            t == pairs_view(table@),
            lookup(t, key@) == lookup(t.skip(i as int), key@),
        decreases table.len() - i,
    {
        let k = chars_of(table[i].0.as_str());
        assert(t.skip(i as int)[0] == t[i as int]);
        if eq_chars(k.as_slice(), key) {
            return Some(i);
        }
        assert(t.skip(i as int).skip(1) =~= t.skip(i + 1));
        i += 1;
    }
    None
}

/// Fills the placeholders of a template (see [`expand`]).
fn expand_chars(src: &[char], vars: &[(String, String)], files: &[(String, String)]) -> (r: Vec<char>)
    ensures
        r@ == expand(src@, pairs_view(vars@), pairs_view(files@)),
{
    let mark = vec!['%', '%'];
    assert(mark@ =~= marker());
    let ghost vv = pairs_view(vars@);
    let ghost fv = pairs_view(files@);
    let mut out: Vec<char> = Vec::new();
    let mut rest: &[char] = src;
    loop
        invariant
            mark@ == marker(),
            vv == pairs_view(vars@),
            fv == pairs_view(files@),
            expand(src@, vv, fv) == out@ + expand(rest@, vv, fv),
        decreases rest@.len(),
    {
        let start = match find_chars(rest, mark.as_slice(), 0) {
            None => {
                push_chars(&mut out, rest);
                return out;
            },
            Some(start) => start,
        };
        proof {
            lemma_find(rest@, marker());
            assert(occurs_at(rest@, marker(), start as int));
        }
        let rlen = rest.len();
        let after = &rest[start + 2..rlen];
        assert(after@ == rest@.skip(start + 2));
        let end = match find_chars(after, mark.as_slice(), 0) {
            None => {
                push_chars(&mut out, rest);
                return out;
            },
            Some(end) => end,
        };
        proof {
            lemma_find(after@, marker());
            assert(occurs_at(after@, marker(), end as int));
        }
        let alen = after.len();
        let key = &after[0..end];
        assert(key@ == after@.take(end as int));
        let head = &rest[0..start];
        assert(head@ == rest@.take(start as int));
        push_chars(&mut out, head);
        let ghost before = out@;
        match find_entry(vars, key) {
            Some(i) => {
                push_str(&mut out, vars[i].1.as_str());
            },
            None => {
                let mut path: Vec<char> = Vec::new();
                push_chars(&mut path, &['p', 'a', 'r', 't', 'i', 'a', 'l', 's', '/']);
                push_chars(&mut path, key);
                push_chars(&mut path, &['.', 'h', 't', 'm', 'l']);
                assert(path@ =~= partial_path(key@));
                match find_entry(files, path.as_slice()) {
                    Some(j) => {
                        let body = chars_of(files[j].1.as_str());
                        let trimmed = trim_end(body.as_slice());
                        push_chars(&mut out, trimmed.as_slice());
                    },
                    None => {
                        let whole = &rest[start..start + end + 4];
                        assert(whole@ == rest@.subrange(start as int, start + end + 4));
                        push_chars(&mut out, whole);
                    },
                }
            },
        }
        let next = &after[end + 2..alen];
        assert(next@ == after@.skip(end + 2));
        rest = next;
    }
}

/// Renders template `name` of `files` with `vars` (see [`render_spec`]).
pub fn render_with(files: &[(String, String)], name: &str, vars: &[(String, String)]) -> (r: String)
    ensures
        r@ == render_spec(pairs_view(files@), name@, pairs_view(vars@)),
{
    let n = chars_of(name);
    let src = match find_entry(files, n.as_slice()) {
        Some(i) => chars_of(files[i].1.as_str()),
        None => Vec::new(),
    };
    let out = expand_chars(src.as_slice(), vars, files);
    string_of(out.as_slice())
}

/// Renders template `name` of `files` without variables.
pub fn render(files: &[(String, String)], name: &str) -> (r: String)
    ensures
        r@ == render_spec(pairs_view(files@), name@, Seq::empty()),
{
    let none: Vec<(String, String)> = Vec::new();
    assert(pairs_view(none@) =~= Seq::<(Seq<char>, Seq<char>)>::empty());
    render_with(files, name, none.as_slice())
}


// ---------------------------------------------------------------------------
// Pages

/// The row of a problem as [`row_spec`] writes it.
pub open spec fn row_of(p: Problem) -> Seq<char> {
    row_spec(p.slug@, p.title@, p.time_limit as int, p.memory_limit as int)
}

/// The rows of the problems, one per line.
pub open spec fn rows_spec(ps: Seq<Problem>) -> Seq<char>
    decreases ps.len(),
{
    if ps.len() == 0 {
        seq![]
    } else if ps.len() == 1 {
        row_of(ps[0])
    } else {
        rows_spec(ps.drop_last()) + seq!['\n'] + row_of(ps.last())
    }
}

/// The row shown when a search finds nothing.
pub open spec fn no_problems() -> Seq<char> {
    "<tr><td colspan=\"4\" class=\"text-center text-muted\">No problems found.</td></tr>"@
}

/// The variables of the problem set page for `problems` found by query `q`.
pub open spec fn problemset_vars(problems: Seq<Problem>, q: Seq<char>) -> Seq<(Seq<char>, Seq<char>)> {
    seq![
        ("rows"@, if problems.len() == 0 { no_problems() } else { rows_spec(problems) }),
        ("q"@, escape_spec(q)),
        ("qs"@, if q.len() == 0 { Seq::empty() } else { "&amp;q="@ + pct(encode_utf8(q)) }),
    ]
}

fn pair(k: &str, v: String) -> (r: (String, String))
    ensures
        r.0@ == k@,
        r.1@ == v@,
{
    let kc = chars_of(k);
    (string_of(kc.as_slice()), v)
}

/// The problem set page: `problemset.html` with the rows of `problems`, the query
/// `q` (escaped) and the query-string suffix `&amp;q=<q percent-encoded>` (empty for
/// an empty query).
pub fn problemset_page(files: &[(String, String)], problems: &[Problem], q: &str) -> (r: String)
    ensures
        r@ == render_spec(pairs_view(files@), "problemset.html"@, problemset_vars(problems@, q@)),
{
    let mut rows: Vec<char> = Vec::new();
    if problems.len() == 0 {
        push_str(&mut rows, "<tr><td colspan=\"4\" class=\"text-center text-muted\">No problems found.</td></tr>");
    } else {
        let mut i: usize = 0;
        while i < problems.len()
            invariant
                i <= problems.len(),
                rows@ == rows_spec(problems@.take(i as int)),
            decreases problems.len() - i,
        {
            assert(problems@.take(i + 1).drop_last() =~= problems@.take(i as int));
            if i > 0 {
                rows.push('\n');
            }
            push_str(&mut rows, row(&problems[i]).as_str());
            i += 1;
        }
        assert(problems@.take(problems.len() as int) =~= problems@);
    }
    let mut qs: Vec<char> = Vec::new();
    let qc = chars_of(q);
    if qc.len() > 0 {
        push_str(&mut qs, "&amp;q=");
        push_str(&mut qs, encode(q).as_str());
    }
    let mut vars: Vec<(String, String)> = Vec::new();
    vars.push(pair("rows", string_of(rows.as_slice())));
    vars.push(pair("q", escape(q)));
    vars.push(pair("qs", string_of(qs.as_slice())));
    assert(pairs_view(vars@) =~= problemset_vars(problems@, q@));
    render_with(files, "problemset.html", vars.as_slice())
}

/// The variables of the page of problem `p` with rendered statement `doc` and examples.
pub open spec fn problem_vars(p: Problem, doc: Seq<char>, exs: Seq<(Seq<char>, Seq<char>)>) -> Seq<
    (Seq<char>, Seq<char>),
> {
    seq![
        ("title"@, escape_spec(p.title@)),
        ("id"@, escape_spec(p.slug@)),
        ("time"@, time_spec(p.time_limit as int)),
        ("memory"@, memory_spec(p.memory_limit as int)),
        ("doc"@, doc),
        ("examples"@, examples_spec(exs)),
    ]
}

/// The page of problem `p`: `problem.html` with its title, id, limits, statement and examples.
pub fn problem_page(files: &[(String, String)], p: &Problem, pkg: &Pkg) -> (r: String)
    ensures
        r@ == render_spec(
            pairs_view(files@),
            "problem.html"@,
            problem_vars(*p, pkg.doc@, examples_view(pkg.examples@)),
        ),
{
    let mut vars: Vec<(String, String)> = Vec::new();
    vars.push(pair("title", escape(p.title.as_str())));
    vars.push(pair("id", escape(p.slug.as_str())));
    vars.push(pair("time", time(p.time_limit)));
    vars.push(pair("memory", memory(p.memory_limit)));
    let doc = chars_of(pkg.doc.as_str());
    vars.push(pair("doc", string_of(doc.as_slice())));
    vars.push(pair("examples", examples(pkg.examples.as_slice())));
    assert(pairs_view(vars@) =~= problem_vars(*p, pkg.doc@, examples_view(pkg.examples@)));
    render_with(files, "problem.html", vars.as_slice())
}


// ---------------------------------------------------------------------------
// Laws

/// A character that stays out of escaped text: `<`, `>`, `"` or `'`.
pub open spec fn markup_char(c: char) -> bool {
    c == '<' || c == '>' || c == '"' || c == '\''
}

/// Escaped text holds no `<`, `>`, `"` or `'`, and each `&` in it starts one of the
/// five entities.
pub proof fn law_escape_is_inert(s: Seq<char>)
    ensures
        forall|i: int| 0 <= i < escape_spec(s).len() ==> !markup_char(#[trigger] escape_spec(s)[i]),
    decreases s.len(),
{
    if s.len() > 0 {
        law_escape_is_inert(s.drop_last());
        let a = escape_spec(s.drop_last());
        let b = escape_char(s.last());
        assert(escape_spec(s) == a + b);
        assert forall|i: int| 0 <= i < escape_spec(s).len() implies !markup_char(#[trigger] escape_spec(s)[i]) by {
            if i < a.len() {
                assert(escape_spec(s)[i] == a[i]);
            } else {
                assert(escape_spec(s)[i] == b[i - a.len()]);
            }
        }
    }
}

/// The value of a hex digit character (either case).
pub open spec fn hex_value(c: char) -> int {
    if '0' <= c && c <= '9' {
        c as int - 48
    } else if 'A' <= c && c <= 'F' {
        c as int - 55
    } else {
        c as int - 87
    }
}

/// Percent-decoding from the end: a `%` three characters from the end starts an
/// escape, anything else is a byte by itself.
pub open spec fn unpct(s: Seq<char>) -> Seq<u8>
    decreases s.len(),
{
    if s.len() == 0 {
        seq![]
    } else if s.len() >= 3 && s[s.len() - 3] == '%' {
        unpct(s.take(s.len() - 3)).push((hex_value(s[s.len() - 2]) * 16 + hex_value(s[s.len() - 1])) as u8)
    } else {
        unpct(s.drop_last()).push(s.last() as u8)
    }
}

proof fn lemma_pct_percent(b: Seq<u8>)
    ensures
        forall|i: int| 0 <= i < pct(b).len() && #[trigger] pct(b)[i] == '%' ==> i + 3 <= pct(b).len(),
    decreases b.len(),
{
    if b.len() > 0 {
        lemma_pct_percent(b.drop_last());
        let a = pct(b.drop_last());
        let c = pct_byte(b.last());
        assert(pct(b) == a + c);
        assert forall|i: int| 0 <= i < pct(b).len() && #[trigger] pct(b)[i] == '%' implies i + 3 <= pct(b).len() by {
            if i < a.len() {
                assert(pct(b)[i] == a[i]);
            } else {
                assert(pct(b)[i] == c[i - a.len()]);
                if unreserved(b.last()) {
                    let x = b.last();
                    assert((x as char) != '%');
                }
            }
        }
    }
}

proof fn lemma_hex_value(d: int)
    requires
        0 <= d < 16,
    ensures
        hex_value(hex_digit(d, true)) == d,
        hex_digit(d, true) != '%',
{
}

/// Percent-decoding gives back the bytes that were encoded: [`encode`] loses nothing.
pub proof fn law_encode_decodes(b: Seq<u8>)
    ensures
        unpct(pct(b)) == b,
    decreases b.len(),
{
    if b.len() > 0 {
        law_encode_decodes(b.drop_last());
        lemma_pct_percent(b.drop_last());
        let a = pct(b.drop_last());
        let x = b.last();
        let s = pct(b);
        assert(s == a + pct_byte(x));
        if unreserved(x) {
            assert(s.drop_last() =~= a);
            if s.len() >= 3 && s[s.len() - 3] == '%' {
                assert(a[a.len() - 2] == '%');
                assert(false);
            }
            assert((x as char) as u8 == x);
        } else {
            lemma_hex_value((x / 16) as int);
            lemma_hex_value((x % 16) as int);
            assert(s.take(s.len() - 3) =~= a);
            assert(s[s.len() - 3] == '%');
            assert((hex_value(s[s.len() - 2]) * 16 + hex_value(s[s.len() - 1])) as u8 == x);
        }
        assert(b.drop_last().push(x) =~= b);
    }
}

/// Different texts never get the same encoding.
pub proof fn law_encode_injective(a: Seq<char>, b: Seq<char>)
    requires
        pct(encode_utf8(a)) == pct(encode_utf8(b)),
    ensures
        encode_utf8(a) == encode_utf8(b),
{
    law_encode_decodes(encode_utf8(a));
    law_encode_decodes(encode_utf8(b));
}

/// The page of `name#hash`, where the name holds no `#`, is `/p/<name>/<hash>`.
pub proof fn law_link_of_id(name: Seq<char>, hash: Seq<char>)
    requires
        !name.contains('#'),
    ensures
        split_id(name + seq!['#'] + hash) == (name, hash),
        link_spec(name + seq!['#'] + hash) == seq!['/', 'p', '/'] + pct(encode_utf8(name)) + seq!['/']
            + pct(encode_utf8(hash)),
{
    let id = name + seq!['#'] + hash;
    crate::text::lemma_find(id, seq!['#']);
    assert(crate::text::occurs_at(id, seq!['#'], name.len() as int)) by {
        assert(id.subrange(name.len() as int, name.len() + 1 as int) =~= seq!['#']);
    }
    match find(id, seq!['#']) {
        Some(k) => {
            if k < name.len() {
                assert(id.subrange(k, k + 1)[0] == name[k]);
                assert(name.contains('#'));
            }
            assert(k == name.len());
            assert(id.take(k) =~= name);
            assert(id.skip(k + 1) =~= hash);
        },
        None => {},
    }
}


/// The examples of `list` numbered from `k + 1`.
pub open spec fn examples_from(list: Seq<(Seq<char>, Seq<char>)>, k: nat) -> Seq<char>
    decreases list.len(),
{
    if list.len() == 0 {
        seq![]
    } else {
        examples_from(list.drop_last(), k) + example_html(k + list.len(), list.last().0, list.last().1)
    }
}

/// The examples of two lists one after the other are the examples of the first
/// followed by those of the second, numbered on from where the first stopped; no
/// examples give nothing.
pub proof fn law_examples_concat(a: Seq<(Seq<char>, Seq<char>)>, b: Seq<(Seq<char>, Seq<char>)>)
    ensures
        examples_spec(a + b) == examples_spec(a) + examples_from(b, a.len()),
        examples_spec(Seq::empty()) == Seq::<char>::empty(),
    decreases b.len(),
{
    if b.len() == 0 {
        assert(a + b =~= a);
    } else {
        law_examples_concat(a, b.drop_last());
        assert((a + b).drop_last() =~= a + b.drop_last());
        assert((a + b).last() == b.last());
    }
}

/// How the heading of an example starts, up to its number.
pub open spec fn heading_start() -> Seq<char> {
    "<h2 class=\"mt-8 mb-3 text-xl font-bold\">Example "@
}

/// `</h2>`, how a heading ends.
pub open spec fn heading_end() -> Seq<char> {
    "</h2>"@
}

/// The length of the run of ASCII digits that `s` starts with.
pub open spec fn digit_run(s: Seq<char>) -> nat
    decreases s.len(),
{
    if s.len() > 0 && '0' <= s[0] <= '9' {
        1 + digit_run(s.skip(1))
    } else {
        0
    }
}

/// `h` with the number of each example heading, `Example <digits></h2>`, raised by `k`.
pub open spec fn renumber(h: Seq<char>, k: nat) -> Seq<char>
    decreases h.len(),
{
    let hs = heading_start();
    match find(h, hs) {
        Some(i) => {
            if 0 <= i && hs.len() > 0 && i + hs.len() <= h.len() {
                let rest = h.skip(i + hs.len());
                let n = digit_run(rest);
                if n > 0 && n <= rest.len() && has_prefix(rest.skip(n as int), heading_end()) {
                    h.take(i) + hs + nat_decimal(digits_value(rest.take(n as int)) + k) + renumber(
                        rest.skip(n as int),
                        k,
                    )
                } else {
                    h.take(i + hs.len()) + renumber(rest, k)
                }
            } else {
                h
            }
        },
        None => h,
    }
}

/// No `<` of `s` starts `<h2` (and each is followed by two more characters).
spec fn no_h2(s: Seq<char>) -> bool {
    forall|j: int|
        0 <= j < s.len() && #[trigger] s[j] == '<' ==> j + 2 < s.len() && (s[j + 1] != 'h' || s[j + 2]
            != '2')
}

proof fn lemma_no_h2_concat(a: Seq<char>, b: Seq<char>)
    requires
        no_h2(a),
        no_h2(b),
    ensures
        no_h2(a + b),
{
    assert forall|j: int| 0 <= j < (a + b).len() && #[trigger] (a + b)[j] == '<' implies j + 2 < (a
        + b).len() && ((a + b)[j + 1] != 'h' || (a + b)[j + 2] != '2') by {
        if j < a.len() {
            assert(a[j] == '<');
        } else {
            assert(b[j - a.len()] == '<');
        }
    }
}

proof fn lemma_no_h2_escaped(s: Seq<char>)
    ensures
        no_h2(escape_spec(s)),
{
    law_escape_is_inert(s);
    assert forall|j: int| 0 <= j < escape_spec(s).len() && #[trigger] escape_spec(s)[j] == '<' implies false by {
        assert(!markup_char(escape_spec(s)[j]));
    }
}

/// The fixed text of an example block after its number holds no `<h2`.
proof fn lemma_block_text_no_h2(input: Seq<char>, output: Seq<char>)
    ensures
        no_h2("</h2>\n<div class=\"grid gap-4 md:grid-cols-2\">\n\t<div>\n\t\t<h3 class=\"mb-2 font-bold\">Input</h3>\n\t\t<pre><code>"@ + escape_spec(input) + "</code></pre>\n\t</div>\n\t<div>\n\t\t<h3 class=\"mb-2 font-bold\">Output</h3>\n\t\t<pre><code>"@ + escape_spec(output) + "</code></pre>\n\t</div>\n</div>\n"@),
{
    reveal_strlit("</h2>\n<div class=\"grid gap-4 md:grid-cols-2\">\n\t<div>\n\t\t<h3 class=\"mb-2 font-bold\">Input</h3>\n\t\t<pre><code>");
    reveal_strlit("</code></pre>\n\t</div>\n\t<div>\n\t\t<h3 class=\"mb-2 font-bold\">Output</h3>\n\t\t<pre><code>");
    reveal_strlit("</code></pre>\n\t</div>\n</div>\n");
    let l1 = "</h2>\n<div class=\"grid gap-4 md:grid-cols-2\">\n\t<div>\n\t\t<h3 class=\"mb-2 font-bold\">Input</h3>\n\t\t<pre><code>"@;
    let l2 = "</code></pre>\n\t</div>\n\t<div>\n\t\t<h3 class=\"mb-2 font-bold\">Output</h3>\n\t\t<pre><code>"@;
    let l3 = "</code></pre>\n\t</div>\n</div>\n"@;
    assert(no_h2(l1));
    assert(no_h2(l2));
    assert(no_h2(l3));
    lemma_no_h2_escaped(input);
    lemma_no_h2_escaped(output);
    lemma_no_h2_concat(l1, escape_spec(input));
    lemma_no_h2_concat(l1 + escape_spec(input), l2);
    lemma_no_h2_concat(l1 + escape_spec(input) + l2, escape_spec(output));
    lemma_no_h2_concat(l1 + escape_spec(input) + l2 + escape_spec(output), l3);
}

/// Where no heading starts inside `x`, renumbering runs over it unchanged.
proof fn lemma_renumber_over(x: Seq<char>, y: Seq<char>, k: nat)
    requires
        no_h2(x),
    ensures
        renumber(x + y, k) == x + renumber(y, k),
{
    let hs = heading_start();
    let s = x + y;
    reveal_strlit("<h2 class=\"mt-8 mb-3 text-xl font-bold\">Example ");
    assert(hs[0] == '<' && hs[1] == 'h' && hs[2] == '2');
    lemma_find(s, hs);
    lemma_find(y, hs);
    assert forall|j: int| 0 <= j < x.len() implies !occurs_at(s, hs, j) by {
        if occurs_at(s, hs, j) {
            let w = s.subrange(j, j + hs.len());
            assert(w[0] == s[j] && s[j] == x[j]);
            assert(j + 2 < x.len());
            assert(w[1] == s[j + 1] && s[j + 1] == x[j + 1]);
            assert(w[2] == s[j + 2] && s[j + 2] == x[j + 2]);
        }
    }
    assert forall|j: int| x.len() <= j implies occurs_at(s, hs, j) == occurs_at(y, hs, j - x.len()) by {
        if j + hs.len() <= s.len() {
            assert(s.subrange(j, j + hs.len()) =~= y.subrange(j - x.len(), j - x.len() + hs.len()));
        }
    }
    match find(y, hs) {
        Some(i) => {
            match find(s, hs) {
                Some(m) => {
                    if m < i + x.len() {
                        assert(!occurs_at(s, hs, m));
                    }
                    if m > i + x.len() {
                        assert(occurs_at(s, hs, i + x.len()));
                    }
                },
                None => {
                    assert(occurs_at(s, hs, i + x.len()));
                },
            }
            let m = i + x.len();
            assert(s.skip(m + hs.len()) =~= y.skip(i + hs.len()));
            assert(s.take(m) =~= x + y.take(i));
            assert(s.take(m + hs.len()) =~= x + y.take(i + hs.len()));
            let rest = y.skip(i + hs.len());
            let n = digit_run(rest);
            if n > 0 && n <= rest.len() && has_prefix(rest.skip(n as int), heading_end()) {
                let tail = hs + nat_decimal(digits_value(rest.take(n as int)) + k) + renumber(
                    rest.skip(n as int),
                    k,
                );
                assert(s.take(m) + tail =~= x + (y.take(i) + tail));
            } else {
                assert(s.take(m + hs.len()) + renumber(rest, k) =~= x + (y.take(i + hs.len())
                    + renumber(rest, k)));
            }
        },
        None => {
            match find(s, hs) {
                Some(m) => {
                    assert(occurs_at(s, hs, m));
                },
                None => {},
            }
        },
    }
}

proof fn lemma_decimal_digits(n: nat)
    ensures
        nat_decimal(n).len() > 0,
        all_digits(nat_decimal(n)),
        digits_value(nat_decimal(n)) == n,
    decreases n,
{
    if n >= 10 {
        lemma_decimal_digits(n / 10);
        let a = nat_decimal(n / 10);
        let s = nat_decimal(n);
        assert(s.drop_last() =~= a);
        assert(s.last() == crate::text::digit((n % 10) as int));
        assert(crate::text::digit((n % 10) as int) as int == (n % 10) + 48);
        assert(digits_value(s) == digits_value(a) * 10 + (s.last() as int - '0' as int) as nat);
        assert((n / 10) * 10 + n % 10 == n);
        assert(digits_value(a) == n / 10);
        assert forall|i: int| 0 <= i < s.len() implies '0' <= #[trigger] s[i] <= '9' by {
            if i < a.len() {
                assert(s[i] == a[i]);
            }
        }
    } else {
        let s = nat_decimal(n);
        assert(s.drop_last() =~= Seq::<char>::empty());
        assert(digits_value(s.drop_last()) == 0);
        assert(s.last() == crate::text::digit(n as int));
        assert(crate::text::digit(n as int) as int == n + 48);
        assert(digits_value(s) == digits_value(s.drop_last()) * 10 + (s.last() as int - '0' as int) as nat);
    }
}

proof fn lemma_digit_run(d: Seq<char>, r: Seq<char>)
    requires
        all_digits(d),
        r.len() > 0,
        !('0' <= r[0] <= '9'),
    ensures
        digit_run(d + r) == d.len(),
        (d + r).take(d.len() as int) == d,
        (d + r).skip(d.len() as int) == r,
    decreases d.len(),
{
    if d.len() > 0 {
        assert((d + r).skip(1) =~= d.skip(1) + r);
        lemma_digit_run(d.skip(1), r);
    } else {
        assert(d + r =~= r);
    }
    assert((d + r).take(d.len() as int) =~= d);
    assert((d + r).skip(d.len() as int) =~= r);
}

/// Renumbering an example block raises its number and leaves the rest of it alone.
#[verifier::spinoff_prover]
proof fn lemma_renumber_block(n: nat, input: Seq<char>, output: Seq<char>, rest: Seq<char>, k: nat)
    ensures
        renumber(example_html(n, input, output) + rest, k) == example_html(n + k, input, output)
            + renumber(rest, k),
{
    let hs = heading_start();
    let body = "</h2>\n<div class=\"grid gap-4 md:grid-cols-2\">\n\t<div>\n\t\t<h3 class=\"mb-2 font-bold\">Input</h3>\n\t\t<pre><code>"@ + escape_spec(input) + "</code></pre>\n\t</div>\n\t<div>\n\t\t<h3 class=\"mb-2 font-bold\">Output</h3>\n\t\t<pre><code>"@ + escape_spec(output) + "</code></pre>\n\t</div>\n</div>\n"@;
    let d = nat_decimal(n);
    assert(example_html(n, input, output) =~= hs + d + body);
    assert(example_html(n + k, input, output) =~= hs + nat_decimal(n + k) + body);
    let s = hs + d + body + rest;
    assert(example_html(n, input, output) + rest =~= s);
    reveal_strlit("<h2 class=\"mt-8 mb-3 text-xl font-bold\">Example ");
    reveal_strlit("</h2>");
    reveal_strlit("</h2>\n<div class=\"grid gap-4 md:grid-cols-2\">\n\t<div>\n\t\t<h3 class=\"mb-2 font-bold\">Input</h3>\n\t\t<pre><code>");
    assert(s.subrange(0, hs.len() as int) =~= hs);
    lemma_find_at(s, hs, 0);
    let after = s.skip(hs.len() as int);
    let r = body + rest;
    assert(after =~= d + r);
    lemma_decimal_digits(n);
    assert(r[0] == '<');
    lemma_digit_run(d, r);
    assert(r.take(5) =~= heading_end());
    assert(has_prefix(r, heading_end()));
    assert(s.take(0) =~= Seq::<char>::empty());
    lemma_block_text_no_h2(input, output);
    lemma_renumber_over(body, rest, k);
    assert(renumber(s, k) == hs + nat_decimal(n + k) + renumber(r, k));
    assert(hs + nat_decimal(n + k) + (body + renumber(rest, k)) =~= hs + nat_decimal(n + k) + body
        + renumber(rest, k));
}

/// `pat` is first found in `s` at `k` where it occurs there and nowhere before.
proof fn lemma_find_at(s: Seq<char>, pat: Seq<char>, k: int)
    requires
        occurs_at(s, pat, k),
        forall|j: int| 0 <= j < k ==> !occurs_at(s, pat, j),
    ensures
        find(s, pat) == Some(k),
{
    lemma_find(s, pat);
    match find(s, pat) {
        Some(m) => {
            if m < k {
                assert(!occurs_at(s, pat, m));
            }
        },
        None => {},
    }
}

proof fn lemma_renumber_examples(list: Seq<(Seq<char>, Seq<char>)>, rest: Seq<char>, k: nat)
    ensures
        renumber(examples_spec(list) + rest, k) == examples_from(list, k) + renumber(rest, k),
    decreases list.len(),
{
    if list.len() == 0 {
        assert(examples_spec(list) + rest =~= rest);
        assert(examples_from(list, k) + renumber(rest, k) =~= renumber(rest, k));
    } else {
        let x = example_html(list.len(), list.last().0, list.last().1);
        lemma_renumber_examples(list.drop_last(), x + rest, k);
        assert(examples_spec(list) + rest =~= examples_spec(list.drop_last()) + (x + rest));
        lemma_renumber_block(list.len(), list.last().0, list.last().1, rest, k);
        assert(examples_from(list.drop_last(), k) + (example_html(list.len() + k, list.last().0, list.last().1)
            + renumber(rest, k)) =~= examples_from(list, k) + renumber(rest, k));
    }
}

/// The examples of two lists one after the other are the examples of the first
/// followed by those of the second with every heading `Example i</h2>` renumbered
/// to `Example i+n</h2>`, `n` the length of the first list.
pub proof fn law_examples_renumbered(a: Seq<(Seq<char>, Seq<char>)>, b: Seq<(Seq<char>, Seq<char>)>)
    ensures
        examples_spec(a + b) == examples_spec(a) + renumber(examples_spec(b), a.len()),
        examples_spec(Seq::empty()) == Seq::<char>::empty(),
{
    law_examples_concat(a, b);
    lemma_renumber_examples(b, Seq::empty(), a.len());
    assert(examples_spec(b) + Seq::<char>::empty() =~= examples_spec(b));
    lemma_find(Seq::<char>::empty(), heading_start());
    assert(renumber(Seq::<char>::empty(), a.len()) =~= Seq::<char>::empty());
    assert(examples_from(b, a.len()) + Seq::<char>::empty() =~= examples_from(b, a.len()));
}

/// Percent-encoded text holds no `/`: it stays one segment of a path.
pub proof fn law_encoded_segment(b: Seq<u8>)
    ensures
        !pct(b).contains('/'),
    decreases b.len(),
{
    if b.len() > 0 {
        law_encoded_segment(b.drop_last());
        let a = pct(b.drop_last());
        let c = pct_byte(b.last());
        assert(pct(b) == a + c);
        if pct(b).contains('/') {
            let i = choose|i: int| 0 <= i < pct(b).len() && pct(b)[i] == '/';
            if i < a.len() {
                assert(pct(b)[i] == a[i]);
            } else {
                assert(pct(b)[i] == c[i - a.len()]);
                let x = b.last();
                if unreserved(x) {
                    assert((x as char) != '/');
                } else {
                    assert(hex_digit((x / 16) as int, true) != '/');
                    assert(hex_digit((x % 16) as int, true) != '/');
                }
            }
        }
    }
}

/// The page of `name#hash` (a name without `#`) is `/p/`, a segment, `/` and a
/// segment, where neither segment holds a `/` and they decode to the UTF-8 of the
/// name and of the hash; the id cut at its `#` gives the name and hash back, so the
/// page's path gives the id back ([`page_id`]).
pub proof fn law_link_round_trip(name: Seq<char>, hash: Seq<char>)
    requires
        !name.contains('#'),
    ensures
        split_id(name + seq!['#'] + hash) == (name, hash),
        link_spec(name + seq!['#'] + hash) == seq!['/', 'p', '/'] + pct(encode_utf8(name)) + seq!['/']
            + pct(encode_utf8(hash)),
        !pct(encode_utf8(name)).contains('/'),
        !pct(encode_utf8(hash)).contains('/'),
        unpct(pct(encode_utf8(name))) == encode_utf8(name),
        unpct(pct(encode_utf8(hash))) == encode_utf8(hash),
{
    law_link_of_id(name, hash);
    law_encoded_segment(encode_utf8(name));
    law_encoded_segment(encode_utf8(hash));
    law_encode_decodes(encode_utf8(name));
    law_encode_decodes(encode_utf8(hash));
}

proof fn lemma_escape_front(s: Seq<char>)
    requires
        s.len() > 0,
    ensures
        escape_spec(s) == escape_char(s[0]) + escape_spec(s.skip(1)),
    decreases s.len(),
{
    if s.len() > 1 {
        lemma_escape_front(s.drop_last());
        assert(s.drop_last().skip(1) =~= s.skip(1).drop_last());
        assert(s.skip(1).last() == s.last());
        assert(s.drop_last()[0] == s[0]);
    } else {
        assert(s.drop_last() =~= Seq::<char>::empty());
        assert(s.skip(1) =~= Seq::<char>::empty());
    }
}

/// The character that pass `k` of unescaping turns back (`'` is never turned back).
spec fn pass_char(k: nat) -> char {
    if k == 0 {
        '<'
    } else if k == 1 {
        '>'
    } else if k == 2 {
        '"'
    } else if k == 3 {
        '\''
    } else {
        '&'
    }
}

/// The entity that pass `k` of unescaping looks for.
spec fn pass_entity(k: nat) -> Seq<char> {
    if k == 0 {
        ent_lt()
    } else if k == 1 {
        ent_gt()
    } else if k == 2 {
        ent_quot()
    } else if k == 3 {
        ent_apos()
    } else {
        ent_amp()
    }
}

/// What `c` of the original text is after `k` passes of unescaping its escape.
spec fn staged_char(c: char, k: nat) -> Seq<char> {
    if (c == '<' && k >= 1) || (c == '>' && k >= 2) || (c == '"' && k >= 3) || (c == '&' && k >= 5) {
        seq![c]
    } else {
        escape_char(c)
    }
}

/// The escape of `s` after `k` passes of unescaping.
spec fn staged(s: Seq<char>, k: nat) -> Seq<char>
    decreases s.len(),
{
    if s.len() == 0 {
        seq![]
    } else {
        staged_char(s[0], k) + staged(s.skip(1), k)
    }
}

/// Replacing runs over a part that holds no first character of the pattern unchanged.
proof fn lemma_replace_over(x: Seq<char>, t: Seq<char>, pat: Seq<char>, rep: Seq<char>)
    requires
        pat.len() > 0,
        !x.contains(pat[0]),
    ensures
        replace_all(x + t, pat, rep) == x + replace_all(t, pat, rep),
    decreases x.len(),
{
    if x.len() > 0 {
        let s = x + t;
        if has_prefix(s, pat) {
            assert(s.take(pat.len() as int)[0] == s[0]);
            assert(s[0] == x[0]);
        }
        assert(!x.skip(1).contains(pat[0])) by {
            if x.skip(1).contains(pat[0]) {
                let k = choose|k: int| 0 <= k < x.skip(1).len() && x.skip(1)[k] == pat[0];
                assert(x[k + 1] == pat[0]);
            }
        }
        assert(s.skip(1) =~= x.skip(1) + t);
        lemma_replace_over(x.skip(1), t, pat, rep);
        assert(seq![s[0]] + (x.skip(1) + replace_all(t, pat, rep)) =~= x + replace_all(t, pat, rep));
    } else {
        assert(x + t =~= t);
    }
}

/// A piece that does not start the pattern, and whose tail holds no first character
/// of it, comes through replacing unchanged.
#[verifier::spinoff_prover]
proof fn lemma_replace_piece(u: Seq<char>, t: Seq<char>, pat: Seq<char>, rep: Seq<char>, i: int)
    requires
        pat.len() > 0,
        0 <= i < u.len(),
        i < pat.len(),
        u[i] != pat[i],
        !u.skip(1).contains(pat[0]),
    ensures
        replace_all(u + t, pat, rep) == u + replace_all(t, pat, rep),
{
    let s = u + t;
    if has_prefix(s, pat) {
        assert(s.take(pat.len() as int)[i] == s[i]);
        assert(s[i] == u[i]);
    }
    assert(s.skip(1) =~= u.skip(1) + t);
    lemma_replace_over(u.skip(1), t, pat, rep);
    assert(seq![s[0]] + (u.skip(1) + replace_all(t, pat, rep)) =~= u + replace_all(t, pat, rep));
}

/// One pass of unescaping turns back exactly the escapes of its character.
#[verifier::spinoff_prover]
proof fn lemma_pass(s: Seq<char>, k: nat)
    requires
        k < 5,
        !s.contains('\''),
    ensures
        replace_all(staged(s, k), pass_entity(k), seq![pass_char(k)]) == staged(s, k + 1),
    decreases s.len(),
{
    if s.len() > 0 {
        let c = s[0];
        let rest = s.skip(1);
        assert(!rest.contains('\'')) by {
            if rest.contains('\'') {
                let j = choose|j: int| 0 <= j < rest.len() && rest[j] == '\'';
                assert(s[j + 1] == '\'');
            }
        }
        lemma_pass(rest, k);
        assert(c != '\'');
        let u = staged_char(c, k);
        let t = staged(rest, k);
        let pat = pass_entity(k);
        let rep = seq![pass_char(k)];
        assert(staged(s, k) == u + t);
        if c == pass_char(k) {
            assert(u =~= pat);
            assert(has_prefix(u + t, pat)) by {
                assert((u + t).take(pat.len() as int) =~= pat);
            }
            assert((u + t).skip(pat.len() as int) =~= t);
            assert(staged_char(c, k + 1) =~= rep);
        } else {
            assert(staged_char(c, k + 1) == u);
            let e = escape_char(c);
            if u.len() == 1 {
                assert(u[0] != '&');
                assert(u.skip(1) =~= Seq::<char>::empty());
                lemma_replace_piece(u, t, pat, rep, 0);
            } else {
                assert(u == e);
                assert(!u.skip(1).contains('&')) by {
                    if u.skip(1).contains('&') {
                        let j = choose|j: int| 0 <= j < u.skip(1).len() && u.skip(1)[j] == '&';
                        assert(u[j + 1] == '&');
                    }
                }
                if u[1] != pat[1] {
                    lemma_replace_piece(u, t, pat, rep, 1);
                } else {
                    lemma_replace_piece(u, t, pat, rep, 2);
                }
            }
        }
    }
}

proof fn lemma_staged_start(s: Seq<char>)
    ensures
        staged(s, 0) == escape_spec(s),
    decreases s.len(),
{
    if s.len() > 0 {
        lemma_staged_start(s.skip(1));
        lemma_escape_front(s);
    }
}

proof fn lemma_staged_end(s: Seq<char>)
    requires
        !s.contains('\''),
    ensures
        staged(s, 5) == s,
    decreases s.len(),
{
    if s.len() > 0 {
        assert(!s.skip(1).contains('\'')) by {
            if s.skip(1).contains('\'') {
                let j = choose|j: int| 0 <= j < s.skip(1).len() && s.skip(1)[j] == '\'';
                assert(s[j + 1] == '\'');
            }
        }
        lemma_staged_end(s.skip(1));
        assert(s[0] != '\'');
        assert(seq![s[0]] + s.skip(1) =~= s);
    }
}

/// Unescaping escaped text gives it back where it holds no `'`: escaping writes
/// `&#39;`, which unescaping leaves as it is.
pub proof fn law_unescape_undoes_escape(s: Seq<char>)
    requires
        !s.contains('\''),
    ensures
        unescape_spec(escape_spec(s)) == s,
{
    lemma_staged_start(s);
    lemma_pass(s, 0);
    lemma_pass(s, 1);
    lemma_pass(s, 2);
    lemma_pass(s, 3);
    lemma_pass(s, 4);
    lemma_staged_end(s);
}

/// A memory limit is shown in MB only when it is a whole number of MiB, and then
/// the number shown times 1024 is the limit; any other limit is shown as its own
/// number of KB.
pub proof fn law_memory_units(kib: int)
    ensures
        kib % 1024 == 0 ==> memory_spec(kib) == int_decimal(kib / 1024) + seq![' ', 'M', 'B'] && (kib
            / 1024) * 1024 == kib,
        kib % 1024 != 0 ==> memory_spec(kib) == int_decimal(kib) + seq![' ', 'K', 'B'],
{
}

/// A time limit is shown in seconds only when it is a whole number of seconds, and
/// then the number shown times 1000 is the limit; any other limit is shown as its
/// own number of milliseconds.
pub proof fn law_time_units(ms: int)
    ensures
        ms % 1000 == 0 ==> time_spec(ms) == int_decimal(ms / 1000) + seq![' ', 's'] && (ms / 1000)
            * 1000 == ms,
        ms % 1000 != 0 ==> time_spec(ms) == int_decimal(ms) + seq![' ', 'm', 's'],
{
}

/// A character that may stand in a percent-encoded path segment: an ASCII letter or
/// digit, `-`, `_`, `.`, `~`, or the `%` that starts an escape.
pub open spec fn segment_char(c: char) -> bool {
    ||| ('A' <= c && c <= 'Z')
    ||| ('a' <= c && c <= 'z')
    ||| ('0' <= c && c <= '9')
    ||| c == '-'
    ||| c == '_'
    ||| c == '.'
    ||| c == '~'
    ||| c == '%'
}

/// An upper-case hex digit.
pub open spec fn upper_hex(c: char) -> bool {
    ('0' <= c && c <= '9') || ('A' <= c && c <= 'F')
}

/// A byte that stands for itself in a path segment: an ASCII letter or digit, or one
/// of `-`, `_`, `.`, `~`.
pub open spec fn plain_byte(x: u8) -> bool {
    segment_char(x as char) && x != 37
}

/// Each byte is encoded on its own: a plain byte as itself, any other byte (such as
/// `+`, `/`, a space or a byte of a multi-byte character) as `%` and two upper-case
/// hex digits of its value.
pub proof fn law_encode_byte(x: u8)
    ensures
        plain_byte(x) ==> pct(seq![x]) == seq![x as char],
        !plain_byte(x) ==> pct(seq![x]).len() == 3 && pct(seq![x])[0] == '%' && upper_hex(
            pct(seq![x])[1],
        ) && upper_hex(pct(seq![x])[2]) && hex_value(pct(seq![x])[1]) * 16 + hex_value(
            pct(seq![x])[2],
        ) == x,
{
    assert(seq![x].drop_last() =~= Seq::<u8>::empty());
    assert(seq![x].last() == x);
    assert(pct(Seq::<u8>::empty()) =~= Seq::<char>::empty());
    assert(pct(seq![x]) == pct(seq![x].drop_last()) + pct_byte(x));
    assert(pct(seq![x]) =~= pct_byte(x));
    if !unreserved(x) {
        lemma_hex_value((x / 16) as int);
        lemma_hex_value((x % 16) as int);
    }
}

/// Percent-encoded text holds only letters, digits, `-`, `_`, `.`, `~` and `%`, and
/// each `%` is followed by two upper-case hex digits.
pub proof fn law_encode_charset(b: Seq<u8>)
    ensures
        forall|i: int| 0 <= i < pct(b).len() ==> segment_char(#[trigger] pct(b)[i]),
        forall|i: int|
            0 <= i < pct(b).len() && #[trigger] pct(b)[i] == '%' ==> i + 2 < pct(b).len() && upper_hex(
                pct(b)[i + 1],
            ) && upper_hex(pct(b)[i + 2]),
    decreases b.len(),
{
    if b.len() > 0 {
        law_encode_charset(b.drop_last());
        let a = pct(b.drop_last());
        let x = b.last();
        let c = pct_byte(x);
        assert(pct(b) == a + c);
        if !unreserved(x) {
            lemma_hex_value((x / 16) as int);
            lemma_hex_value((x % 16) as int);
        }
        assert forall|i: int| 0 <= i < pct(b).len() implies segment_char(#[trigger] pct(b)[i]) by {
            if i < a.len() {
                assert(pct(b)[i] == a[i]);
            } else {
                assert(pct(b)[i] == c[i - a.len()]);
            }
        }
        assert forall|i: int|
            0 <= i < pct(b).len() && #[trigger] pct(b)[i] == '%' implies i + 2 < pct(b).len() && upper_hex(
                pct(b)[i + 1],
            ) && upper_hex(pct(b)[i + 2]) by {
            if i < a.len() {
                assert(pct(b)[i] == a[i]);
                assert(pct(b)[i + 1] == a[i + 1]);
                assert(pct(b)[i + 2] == a[i + 2]);
            } else {
                assert(pct(b)[i] == c[i - a.len()]);
                if unreserved(x) {
                    assert((x as char) != '%');
                }
            }
        }
    }
}

/// The rows shown on the problem set page: the "No problems found." row only when
/// no problem was found; for one problem its row; for more, the rows of all but
/// the last, a newline, and the row of the last. The query is shown escaped, and
/// carried on in links as `&amp;q=` and its percent-encoding, or not at all when it
/// is empty.
pub proof fn law_problemset_rows(ps: Seq<Problem>, q: Seq<char>)
    ensures
        problemset_vars(ps, q).len() == 3,
        problemset_vars(ps, q)[0].0 == "rows"@,
        problemset_vars(ps, q)[1] == ("q"@, escape_spec(q)),
        problemset_vars(ps, q)[2].0 == "qs"@,
        q.len() == 0 ==> problemset_vars(ps, q)[2].1 == Seq::<char>::empty(),
        q.len() > 0 ==> problemset_vars(ps, q)[2].1 == "&amp;q="@ + pct(encode_utf8(q)),
        ps.len() == 0 ==> problemset_vars(ps, q)[0].1 == "<tr><td colspan=\"4\" class=\"text-center text-muted\">No problems found.</td></tr>"@,
        ps.len() == 1 ==> problemset_vars(ps, q)[0].1 == row_spec(
            ps[0].slug@,
            ps[0].title@,
            ps[0].time_limit as int,
            ps[0].memory_limit as int,
        ),
        ps.len() > 1 ==> problemset_vars(ps, q)[0].1 == problemset_vars(ps.drop_last(), q)[0].1
            + seq!['\n'] + row_spec(
            ps.last().slug@,
            ps.last().title@,
            ps.last().time_limit as int,
            ps.last().memory_limit as int,
        ),
{
}

/// Every placeholder that the scan of `src` meets names neither a variable nor a partial.
pub open spec fn no_key_known(
    src: Seq<char>,
    vars: Seq<(Seq<char>, Seq<char>)>,
    files: Seq<(Seq<char>, Seq<char>)>,
) -> bool
    decreases src.len(),
{
    match find(src, marker()) {
        None => true,
        Some(start) => {
            let after = src.skip(start + 2);
            match find(after, marker()) {
                None => true,
                Some(end) => {
                    if 0 <= start && start + 2 <= src.len() && 0 <= end && end + 2 <= after.len() {
                        let key = after.take(end);
                        &&& lookup(vars, key) is None
                        &&& lookup(files, partial_path(key)) is None
                        &&& no_key_known(after.skip(end + 2), vars, files)
                    } else {
                        true
                    }
                },
            }
        },
    }
}

/// A template whose placeholders are all unknown comes out as it is; in particular
/// one without `%%`.
pub proof fn law_unknown_placeholders_kept(
    src: Seq<char>,
    vars: Seq<(Seq<char>, Seq<char>)>,
    files: Seq<(Seq<char>, Seq<char>)>,
)
    requires
        no_key_known(src, vars, files),
    ensures
        expand(src, vars, files) == src,
    decreases src.len(),
{
    match find(src, marker()) {
        None => {},
        Some(start) => {
            let after = src.skip(start + 2);
            match find(after, marker()) {
                None => {},
                Some(end) => {
                    if 0 <= start && start + 2 <= src.len() && 0 <= end && end + 2 <= after.len() {
                        let next = after.skip(end + 2);
                        law_unknown_placeholders_kept(next, vars, files);
                        assert(src =~= src.take(start) + src.subrange(start, start + end + 4) + next);
                    }
                },
            }
        },
    }
}

} // verus!
