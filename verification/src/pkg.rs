//! Problem packages: statement rendering and the layout of the archive.
use vstd::prelude::*;

use markdown::{CompileOptions, Constructs, Options, ParseOptions};
use syntect::easy::HighlightLines;
use syntect::highlighting::{Theme, ThemeSet};
use syntect::html::{styled_line_to_highlighted_html, IncludeBackground};
use syntect::parsing::SyntaxSet;
use std::io::{Cursor, Read};
use syntect::util::LinesWithEndings;
use zip::ZipArchive;

use crate::text::{
    chars_all, chars_of, eq_chars, find, find_chars, has_prefix, has_suffix, lemma_find, occurs_at, push_chars,
    lemma_replace_absent, lex_le, lex_leq, lemma_lex_total_ordering, replace, replace_all, sort_strings, starts_with, ends_with, string_of, strings_all,
    strings_view, vviews,
};

verus! {

#[verifier::external_type_specification]
#[verifier::external_body]
pub struct ExSyntaxSet(SyntaxSet);

#[verifier::external_type_specification]
#[verifier::external_body]
pub struct ExTheme(Theme);

// ---------------------------------------------------------------------------
// Outside renderers

/// What the Markdown renderer makes of `src`: GitHub-flavoured Markdown with raw
/// HTML (flow and text) switched off, or `None` where it reports an error.
pub uninterp spec fn gfm_html(src: Seq<char>) -> Option<Seq<char>>;

/// What the syntax highlighter makes of `code` in language `lang` with the default
/// syntaxes and the `base16-ocean.dark` theme, or `None` where no syntax matches
/// the token or highlighting fails.
pub uninterp spec fn highlighted(code: Seq<char>, lang: Seq<char>) -> Option<Seq<char>>;

/// The view of an optional string.
pub open spec fn opt_view(o: Option<String>) -> Option<Seq<char>> {
    match o {
        Some(s) => Some(s@),
        None => None,
    }
}

/// Calls `markdown::to_html_with_options` with GFM options and raw HTML disabled.
/// Claims only that the result is the renderer's (named) output for `src`.
#[verifier::external_body]
fn render_gfm(src: &str) -> (r: Option<String>)
    ensures
        opt_view(r) == gfm_html(src@),
{
    let opts = Options {
        parse: ParseOptions {
            constructs: Constructs { html_flow: false, html_text: false, ..Constructs::gfm() },
            ..ParseOptions::gfm()
        },
        compile: CompileOptions::gfm(),
    };
    markdown::to_html_with_options(src, &opts).ok()
}

/// Calls `SyntaxSet::load_defaults_newlines`.
#[verifier::external_body]
fn default_syntaxes() -> SyntaxSet {
    SyntaxSet::load_defaults_newlines()
}

/// Calls `ThemeSet::load_defaults` and takes its `base16-ocean.dark` theme.
#[verifier::external_body]
fn default_theme() -> Theme {
    ThemeSet::load_defaults().themes["base16-ocean.dark"].clone()
}

/// Syntax highlighting for fenced code blocks: the default syntaxes and the
/// `base16-ocean.dark` theme, loaded once.
pub struct Highlighter {
    syntaxes: SyntaxSet,
    theme: Theme,
}

impl Highlighter {
    /// Loads the default syntaxes and theme.
    pub fn new() -> (h: Highlighter) {
        Highlighter { syntaxes: default_syntaxes(), theme: default_theme() }
    }

    /// Calls syntect's `find_syntax_by_token`, then `HighlightLines::highlight_line` and
    /// `styled_line_to_highlighted_html` (without background) on each line of
    /// `LinesWithEndings`, the lines sharing one parse state. A `Highlighter` only
    /// ever holds the defaults, so the result is claimed to be the named
    /// highlighting of `code` in `lang`.
    #[verifier::external_body]
    pub(crate) fn highlight(&self, code: &str, lang: &str) -> (r: Option<String>)
        ensures
            opt_view(r) == highlighted(code@, lang@),
    {
        let syntax = self.syntaxes.find_syntax_by_token(lang)?;
        let mut lines = HighlightLines::new(syntax, &self.theme);
        let mut out = String::new();
        for line in LinesWithEndings::from(code) {
            let ranges = lines.highlight_line(line, &self.syntaxes).ok()?;
            out.push_str(&styled_line_to_highlighted_html(&ranges, IncludeBackground::No).ok()?);
        }
        Some(out)
    }
}

// ---------------------------------------------------------------------------
// Entities

/// `&lt;`
pub open spec fn ent_lt() -> Seq<char> { seq!['&', 'l', 't', ';'] }
/// `&gt;`
pub open spec fn ent_gt() -> Seq<char> { seq!['&', 'g', 't', ';'] }
/// `&quot;`
pub open spec fn ent_quot() -> Seq<char> { seq!['&', 'q', 'u', 'o', 't', ';'] }
/// `&#x27;`
pub open spec fn ent_apos() -> Seq<char> { seq!['&', '#', 'x', '2', '7', ';'] }
/// `&amp;`
pub open spec fn ent_amp() -> Seq<char> { seq!['&', 'a', 'm', 'p', ';'] }

/// The text of a rendered code block: the five entities the renderer writes are
/// replaced in turn by the characters they stand for, `&amp;` last.
pub open spec fn unescape_spec(s: Seq<char>) -> Seq<char> {
    replace_all(
        replace_all(
            replace_all(
                replace_all(replace_all(s, ent_lt(), seq!['<']), ent_gt(), seq!['>']),
                ent_quot(),
                seq!['"'],
            ),
            ent_apos(),
            seq!['\''],
        ),
        ent_amp(),
        seq!['&'],
    )
}

fn unescape_chars(s: &[char]) -> (r: Vec<char>)
    ensures
        r@ == unescape_spec(s@),
{
    let lt = vec!['&', 'l', 't', ';'];
    let gt = vec!['&', 'g', 't', ';'];
    let quot = vec!['&', 'q', 'u', 'o', 't', ';'];
    let apos = vec!['&', '#', 'x', '2', '7', ';'];
    let amp = vec!['&', 'a', 'm', 'p', ';'];
    let c_lt = vec!['<'];
    let c_gt = vec!['>'];
    let c_quot = vec!['"'];
    let c_apos = vec!['\''];
    let c_amp = vec!['&'];
    assert(lt@ =~= ent_lt() && gt@ =~= ent_gt() && quot@ =~= ent_quot() && apos@ =~= ent_apos()
        && amp@ =~= ent_amp());
    assert(c_lt@ =~= seq!['<'] && c_gt@ =~= seq!['>'] && c_quot@ =~= seq!['"'] && c_apos@ =~= seq!['\'']
        && c_amp@ =~= seq!['&']);
    let a = replace(s, lt.as_slice(), c_lt.as_slice());
    let b = replace(a.as_slice(), gt.as_slice(), c_gt.as_slice());
    let c = replace(b.as_slice(), quot.as_slice(), c_quot.as_slice());
    let d = replace(c.as_slice(), apos.as_slice(), c_apos.as_slice());
    replace(d.as_slice(), amp.as_slice(), c_amp.as_slice())
}


// ---------------------------------------------------------------------------
// Code blocks

/// `<pre><code class="language-`, how the renderer opens a fenced block with an info string.
pub open spec fn block_open() -> Seq<char> {
    seq!['<', 'p', 'r', 'e', '>', '<', 'c', 'o', 'd', 'e', ' ', 'c', 'l', 'a', 's', 's', '=', '"',
        'l', 'a', 'n', 'g', 'u', 'a', 'g', 'e', '-']
}

/// `</code></pre>`, how the renderer closes a code block.
pub open spec fn block_close() -> Seq<char> {
    seq!['<', '/', 'c', 'o', 'd', 'e', '>', '<', '/', 'p', 'r', 'e', '>']
}

/// `">`, the end of the opening tag.
pub open spec fn tag_end() -> Seq<char> {
    seq!['"', '>']
}

/// The first block opening in `html` is followed by both a tag end and a close,
/// and the tag end does not come after the close: the block can be cut out.
/// `None` when the scan stops here (no opening, or an opening left unfinished).
pub open spec fn first_block(html: Seq<char>) -> Option<(int, int, int)> {
    match find(html, block_open()) {
        None => None,
        Some(start) => {
            let after = html.skip(start + block_open().len());
            match (find(after, tag_end()), find(after, block_close())) {
                (Some(q), Some(e)) => Some((start, q, e)),
                _ => None,
            }
        },
    }
}

/// Every block that the scan of `html` cuts out has its tag end (`">`) no later
/// than its close; otherwise the language and body of a block cannot be sliced.
pub open spec fn blocks_well_formed(html: Seq<char>) -> bool
    decreases html.len(),
{
    match first_block(html) {
        None => true,
        Some((start, q, e)) => {
            let after = html.skip(start + block_open().len());
            if 0 <= q && q + 2 <= e && 0 <= start && start + block_open().len() <= html.len() && e
                + block_close().len() <= after.len() {
                blocks_well_formed(after.skip(e + block_close().len()))
            } else {
                false
            }
        },
    }
}

/// What one cut-out block becomes: re-opened with its language and the highlighted
/// text of its unescaped body, or left exactly as it was where highlighting fails.
pub open spec fn block_html(after: Seq<char>, q: int, e: int) -> Seq<char> {
    let lang = after.take(q);
    let body = after.subrange(q + 2, e);
    match highlighted(unescape_spec(body), lang) {
        Some(colored) => block_open() + lang + tag_end() + colored + block_close(),
        None => block_open() + after.take(e + block_close().len()),
    }
}

/// `html` with each fenced code block that has a language replaced by its
/// highlighted form; text outside blocks is kept as it is.
pub open spec fn highlight_blocks_spec(html: Seq<char>) -> Seq<char>
    decreases html.len(),
{
    match first_block(html) {
        None => html,
        Some((start, q, e)) => {
            let after = html.skip(start + block_open().len());
            if 0 <= q && q + 2 <= e && 0 <= start && start + block_open().len() <= html.len() && e
                + block_close().len() <= after.len() {
                html.take(start) + block_html(after, q, e) + highlight_blocks_spec(
                    after.skip(e + block_close().len()),
                )
            } else {
                html
            }
        },
    }
}

/// The block opening, the block close and the tag end, as character vectors.
fn block_marks() -> (r: (Vec<char>, Vec<char>, Vec<char>))
    ensures
        r.0@ == block_open(),
        r.1@ == block_close(),
        r.2@ == tag_end(),
{
    let open = vec!['<', 'p', 'r', 'e', '>', '<', 'c', 'o', 'd', 'e', ' ', 'c', 'l', 'a', 's', 's', '=', '"',
        'l', 'a', 'n', 'g', 'u', 'a', 'g', 'e', '-'];
    let close = vec!['<', '/', 'c', 'o', 'd', 'e', '>', '<', '/', 'p', 'r', 'e', '>'];
    let quote = vec!['"', '>'];
    assert(open@ =~= block_open() && close@ =~= block_close() && quote@ =~= tag_end());
    (open, close, quote)
}

fn blocks_ok_chars(html: &[char]) -> (r: bool)
    ensures
        r == blocks_well_formed(html@),
{
    let (open, close, quote) = block_marks();
    let mut rest: &[char] = html;
    loop
        invariant
            open@ == block_open(),
            close@ == block_close(),
            quote@ == tag_end(),
            blocks_well_formed(html@) == blocks_well_formed(rest@),
        decreases rest@.len(),
    {
        let start = match find_chars(rest, open.as_slice(), 0) {
            None => return true,
            Some(start) => start,
        };
        proof {
            lemma_find(rest@, block_open());
            assert(find(rest@, block_open()) == Some(start as int));
            assert(occurs_at(rest@, block_open(), start as int));
            assert(start + block_open().len() <= rest@.len());
            assert(open@.len() == block_open().len());
        }
        let olen = open.len();
        let rlen = rest.len();
        assert(olen == block_open().len());
        assert(rlen == rest@.len());
        assert(start + olen <= rlen);
        let after = &rest[start + olen..rlen];
        assert(after@ == rest@.skip(start + block_open().len()));
        let q = find_chars(after, quote.as_slice(), 0);
        let e = find_chars(after, close.as_slice(), 0);
        match (q, e) {
            (Some(q), Some(e)) => {
                proof {
                    lemma_find(after@, block_close());
                    lemma_find(after@, tag_end());
                    assert(find(after@, block_close()) == Some(e as int));
                    assert(find(after@, tag_end()) == Some(q as int));
                }
                if q > e || e - q < 2 {
                    return false;
                }
                rest = &after[e + close.len()..after.len()];
            },
            _ => return true,
        }
    }
}

/// One step of the scan: the first block is cut out and the scan goes on after its close.
proof fn lemma_blocks_step(html: Seq<char>, start: int, q: int, e: int)
    requires
        first_block(html) == Some((start, q, e)),
        blocks_well_formed(html),
    ensures
        ({
            let after = html.skip(start + block_open().len());
            let next = after.skip(e + block_close().len());
            &&& 0 <= start
            &&& start + block_open().len() <= html.len()
            &&& 0 <= q
            &&& q + 2 <= e
            &&& e + block_close().len() <= after.len()
            &&& blocks_well_formed(next)
            &&& highlight_blocks_spec(html) == html.take(start) + block_html(after, q, e)
                + highlight_blocks_spec(next)
        }),
{
}

/// Appends what one cut-out block becomes (see [`block_html`]).
fn push_block(hl: &Highlighter, out: &mut Vec<char>, after: &[char], q: usize, e: usize)
    requires
        q + 2 <= e,
        e + block_close().len() <= after@.len(),
    ensures
        final(out)@ == old(out)@ + block_html(after@, q as int, e as int),
{
    let (open, close, quote) = block_marks();
    let lang = &after[0..q];
    let body = &after[q + 2..e];
    let text = unescape_chars(body);
    let text_s = string_of(text.as_slice());
    let lang_s = string_of(lang);
    assert(lang@ == after@.take(q as int));
    let clen = close.len();
    let alen = after.len();
    assert(clen == block_close().len() && alen == after@.len());
    let whole = &after[0..e + clen];
    assert(whole@ == after@.take(e + block_close().len()));
    match hl.highlight(text_s.as_str(), lang_s.as_str()) {
        Some(colored) => {
            let colored_c = chars_of(colored.as_str());
            push_chars(out, open.as_slice());
            push_chars(out, lang);
            push_chars(out, quote.as_slice());
            push_chars(out, colored_c.as_slice());
            push_chars(out, close.as_slice());
            assert(out@ == old(out)@ + block_html(after@, q as int, e as int));
        },
        None => {
            push_chars(out, open.as_slice());
            push_chars(out, whole);
            assert(out@ == old(out)@ + block_html(after@, q as int, e as int));
        },
    }
}

fn highlight_chars(hl: &Highlighter, html: &[char]) -> (r: Vec<char>)
    requires
        blocks_well_formed(html@),
    ensures
        r@ == highlight_blocks_spec(html@),
{
    let (open, close, quote) = block_marks();
    let mut out: Vec<char> = Vec::new();
    let mut rest: &[char] = html;
    loop
        invariant
            open@ == block_open(),
            close@ == block_close(),
            quote@ == tag_end(),
            blocks_well_formed(rest@),
            highlight_blocks_spec(html@) == out@ + highlight_blocks_spec(rest@),
        decreases rest@.len(),
    {
        let start = match find_chars(rest, open.as_slice(), 0) {
            None => {
                push_chars(&mut out, rest);
                return out;
            },
            Some(start) => start,
        };
        proof {
            lemma_find(rest@, block_open());
            assert(occurs_at(rest@, block_open(), start as int));
        }
        let olen = open.len();
        let rlen = rest.len();
        let after = &rest[start + olen..rlen];
        assert(after@ == rest@.skip(start + block_open().len()));
        let q = find_chars(after, quote.as_slice(), 0);
        let e = find_chars(after, close.as_slice(), 0);
        match (q, e) {
            (Some(q), Some(e)) => {
                proof {
                    assert(first_block(rest@) == Some((start as int, q as int, e as int)));
                    lemma_blocks_step(rest@, start as int, q as int, e as int);
                }
                let head = &rest[0..start];
                assert(head@ == rest@.take(start as int));
                push_chars(&mut out, head);
                push_block(hl, &mut out, after, q, e);
                let next = &after[e + close.len()..after.len()];
                assert(next@ == after@.skip(e + block_close().len()));
                rest = next;
            },
            _ => {
                push_chars(&mut out, rest);
                return out;
            },
        }
    }
}

/// Turns the entities of rendered code back into characters.
pub fn unescape(s: &str) -> (r: String)
    ensures
        r@ == unescape_spec(s@),
{
    let c = chars_of(s);
    let r = unescape_chars(c.as_slice());
    string_of(r.as_slice())
}

/// Whether `html` is well formed for [`highlight_blocks`].
pub fn check_blocks(html: &str) -> (r: bool)
    ensures
        r == blocks_well_formed(html@),
{
    let c = chars_of(html);
    blocks_ok_chars(c.as_slice())
}

/// Replaces each fenced code block that names a language by its highlighted form
/// (the body is unescaped first); a block whose language is unknown is kept as it is.
pub fn highlight_blocks(hl: &Highlighter, html: &str) -> (r: String)
    requires
        blocks_well_formed(html@),
    ensures
        r@ == highlight_blocks_spec(html@),
{
    let c = chars_of(html);
    let r = highlight_chars(hl, c.as_slice());
    string_of(r.as_slice())
}

/// Renders a statement: Markdown to HTML (an empty page where the renderer
/// reports an error), then highlights its code blocks. `None` where the
/// rendered HTML has a block whose tag end comes after its close.
pub fn markdown(hl: &Highlighter, src: &str) -> (r: Option<String>)
    ensures
        ({
            let html = match gfm_html(src@) {
                Some(h) => h,
                None => Seq::<char>::empty(),
            };
            &&& (r is Some <==> blocks_well_formed(html))
            &&& (r matches Some(s) ==> s@ == highlight_blocks_spec(html))
        }),
{
    let html = match render_gfm(src) {
        Some(h) => chars_of(h.as_str()),
        None => Vec::new(),
    };
    if !blocks_ok_chars(html.as_slice()) {
        return None;
    }
    let out = highlight_chars(hl, html.as_slice());
    Some(string_of(out.as_slice()))
}


// ---------------------------------------------------------------------------
// Archive layout

/// `/`
pub open spec fn slash() -> Seq<char> {
    seq!['/']
}

/// `config.toml`
pub open spec fn config_name() -> Seq<char> {
    seq!['c', 'o', 'n', 'f', 'i', 'g', '.', 't', 'o', 'm', 'l']
}

/// The entries of a listing that are files (names not ending in `/`), in order.
pub open spec fn files_of(names: Seq<Seq<char>>) -> Seq<Seq<char>>
    decreases names.len(),
{
    if names.len() == 0 {
        seq![]
    } else if has_suffix(names.last(), slash()) {
        files_of(names.drop_last())
    } else {
        files_of(names.drop_last()).push(names.last())
    }
}

/// The part of `s` before its first `/` (all of `s` when it has none).
pub open spec fn first_segment(s: Seq<char>) -> Seq<char> {
    match find(s, slash()) {
        Some(k) => s.take(k),
        None => s,
    }
}

/// The folder that the whole package sits in, with its trailing `/`, or empty when
/// the package sits at the root: `config.toml` at the root, no files, or files
/// that do not all lie under the first file's top folder.
pub open spec fn prefix_spec(names: Seq<Seq<char>>) -> Seq<char> {
    let files = files_of(names);
    if files.contains(config_name()) || files.len() == 0 {
        Seq::empty()
    } else {
        let top = first_segment(files[0]) + slash();
        if forall|i: int| 0 <= i < files.len() ==> has_prefix(#[trigger] files[i], top) {
            top
        } else {
            Seq::empty()
        }
    }
}

fn files_in(names: &[Vec<char>]) -> (r: Vec<Vec<char>>)
    ensures
        vviews(r@) == files_of(vviews(names@)),
{
    let sl = vec!['/'];
    assert(sl@ =~= slash());
    let mut r: Vec<Vec<char>> = Vec::new();
    let mut i: usize = 0;
    while i < names.len()
        invariant
            i <= names.len(),
            sl@ == slash(),
            vviews(r@) == files_of(vviews(names@).take(i as int)),
        decreases names.len() - i,
    {
        let ghost before = vviews(names@).take(i as int);
        assert(vviews(names@).take(i + 1).drop_last() =~= before);
        if !ends_with(names[i].as_slice(), sl.as_slice()) {
            r.push(names[i].clone());
        }
        i += 1;
        assert(vviews(r@) =~= files_of(vviews(names@).take(i as int)));
    }
    assert(vviews(names@).take(names.len() as int) =~= vviews(names@));
    r
}

fn prefix_chars(names: &[Vec<char>]) -> (r: Vec<char>)
    ensures
        r@ == prefix_spec(vviews(names@)),
{
    let files = files_in(names);
    let ghost fs = vviews(files@);
    let cfg = vec!['c', 'o', 'n', 'f', 'i', 'g', '.', 't', 'o', 'm', 'l'];
    assert(cfg@ =~= config_name());
    let mut i: usize = 0;
    while i < files.len()
        invariant
            i <= files.len(),
            fs == vviews(files@),
            fs == files_of(vviews(names@)),
            cfg@ == config_name(),
            forall|k: int| 0 <= k < i ==> fs[k] != config_name(),
        decreases files.len() - i,
    {
        if eq_chars(files[i].as_slice(), cfg.as_slice()) {
            assert(fs[i as int] == config_name());
            assert(fs.contains(config_name()));
            assert(prefix_spec(vviews(names@)) == Seq::<char>::empty());
            return Vec::new();
        }
        i += 1;
    }
    assert(!fs.contains(config_name())) by {
        if fs.contains(config_name()) {
            let k = choose|k: int| 0 <= k < fs.len() && fs[k] == config_name();
            assert(fs[k] != config_name());
        }
    }
    if files.len() == 0 {
        return Vec::new();
    }
    let sl = vec!['/'];
    assert(sl@ =~= slash());
    let first = files[0].as_slice();
    let mut top: Vec<char> = match find_chars(first, sl.as_slice(), 0) {
        Some(k) => {
            proof {
                lemma_find(first@, slash());
            }
            let mut t = Vec::new();
            push_chars(&mut t, &first[0..k]);
            t
        },
        None => {
            let mut t = Vec::new();
            push_chars(&mut t, first);
            t
        },
    };
    top.push('/');
    assert(top@ == first_segment(fs[0]) + slash());
    let mut j: usize = 0;
    while j < files.len()
        invariant
            j <= files.len(),
            fs == vviews(files@),
            fs == files_of(vviews(names@)),
            !fs.contains(config_name()),
            fs.len() > 0,
            top@ == first_segment(fs[0]) + slash(),
            forall|k: int| 0 <= k < j ==> has_prefix(#[trigger] fs[k], top@),
        decreases files.len() - j,
    {
        if !starts_with(files[j].as_slice(), top.as_slice()) {
            assert(!has_prefix(fs[j as int], top@));
            assert(!(forall|i: int| 0 <= i < fs.len() ==> has_prefix(#[trigger] fs[i], top@)));
            assert(prefix_spec(vviews(names@)) == Seq::<char>::empty());
            return Vec::new();
        }
        j += 1;
    }
    top
}

/// The folder prefix of a package listing (see [`prefix_spec`]).
pub fn prefix(names: &[String]) -> (r: String)
    ensures
        r@ == prefix_spec(strings_view(names@)),
{
    let v = chars_all(names);
    let p = prefix_chars(v.as_slice());
    string_of(p.as_slice())
}


/// `.in`
pub open spec fn in_suffix() -> Seq<char> {
    seq!['.', 'i', 'n']
}

/// The test that entry `n` holds the input of: `n` is `in_dir`, a name without
/// `/`, then `.in`.
pub open spec fn test_name(n: Seq<char>, in_dir: Seq<char>) -> Option<Seq<char>> {
    if has_prefix(n, in_dir) && has_suffix(n.skip(in_dir.len() as int), in_suffix()) {
        let mid = n.subrange(in_dir.len() as int, n.len() - 3);
        if mid.contains('/') {
            None
        } else {
            Some(mid)
        }
    } else {
        None
    }
}

/// The tests of a listing, in listing order.
pub open spec fn tests_of(names: Seq<Seq<char>>, in_dir: Seq<char>) -> Seq<Seq<char>>
    decreases names.len(),
{
    if names.len() == 0 {
        seq![]
    } else {
        match test_name(names.last(), in_dir) {
            Some(t) => tests_of(names.drop_last(), in_dir).push(t),
            None => tests_of(names.drop_last(), in_dir),
        }
    }
}

fn contains_char(s: &[char], c: char) -> (r: bool)
    ensures
        r == s@.contains(c),
{
    let mut i: usize = 0;
    while i < s.len()
        invariant
            i <= s.len(),
            forall|k: int| 0 <= k < i ==> s@[k] != c,
        decreases s.len() - i,
    {
        if s[i] == c {
            return true;
        }
        i += 1;
    }
    false
}

fn test_of(n: &[char], in_dir: &[char]) -> (r: Option<Vec<char>>)
    ensures
        match r {
            Some(t) => test_name(n@, in_dir@) == Some(t@),
            None => test_name(n@, in_dir@) is None,
        },
{
    let suffix = vec!['.', 'i', 'n'];
    assert(suffix@ =~= in_suffix());
    if !starts_with(n, in_dir) {
        return None;
    }
    let rest = &n[in_dir.len()..n.len()];
    assert(rest@ == n@.skip(in_dir@.len() as int));
    if !ends_with(rest, suffix.as_slice()) {
        return None;
    }
    let mid = &n[in_dir.len()..n.len() - 3];
    assert(mid@ == n@.subrange(in_dir@.len() as int, n@.len() - 3));
    if contains_char(mid, '/') {
        return None;
    }
    let mut t: Vec<char> = Vec::new();
    push_chars(&mut t, mid);
    Some(t)
}

fn tests_in(names: &[Vec<char>], in_dir: &[char]) -> (r: Vec<Vec<char>>)
    ensures
        vviews(r@) == tests_of(vviews(names@), in_dir@),
{
    let mut r: Vec<Vec<char>> = Vec::new();
    let mut i: usize = 0;
    while i < names.len()
        invariant
            i <= names.len(),
            vviews(r@) == tests_of(vviews(names@).take(i as int), in_dir@),
        decreases names.len() - i,
    {
        assert(vviews(names@).take(i + 1).drop_last() =~= vviews(names@).take(i as int));
        match test_of(names[i].as_slice(), in_dir) {
            Some(t) => r.push(t),
            None => {},
        }
        i += 1;
        assert(vviews(r@) =~= tests_of(vviews(names@).take(i as int), in_dir@));
    }
    assert(vviews(names@).take(names.len() as int) =~= vviews(names@));
    r
}

// ---------------------------------------------------------------------------
// Groups

/// An example test: its name starts with `_`.
pub open spec fn is_example(n: Seq<char>) -> bool {
    n.len() > 0 && n[0] == '_'
}

/// A name whose first character is a single byte, so that it can be cut off as the group.
pub open spec fn keyable(n: Seq<char>) -> bool {
    n.len() > 0 && (n[0] as u32) < 128
}

/// The non-example tests whose name starts with `c`, in order.
pub open spec fn members(tests: Seq<Seq<char>>, c: char) -> Seq<Seq<char>>
    decreases tests.len(),
{
    if tests.len() == 0 {
        seq![]
    } else {
        let t = tests.last();
        if !is_example(t) && t.len() > 0 && t[0] == c {
            members(tests.drop_last(), c).push(t)
        } else {
            members(tests.drop_last(), c)
        }
    }
}

/// `groups` maps each first character of a non-example test to the tests that
/// start with it, in order, with the keys ascending (what a `BTreeMap` keyed by the
/// first character holds).
pub open spec fn groups_ok(groups: Seq<(char, Seq<Seq<char>>)>, tests: Seq<Seq<char>>) -> bool {
    &&& forall|i: int, j: int| 0 <= i < j < groups.len() ==> #[trigger] groups[i].0 < #[trigger] groups[j].0
    &&& forall|i: int| 0 <= i < groups.len() ==> #[trigger] groups[i].1 == members(tests, groups[i].0)
    &&& forall|i: int| 0 <= i < groups.len() ==> (#[trigger] groups[i].1).len() > 0
    &&& forall|k: int|
        0 <= k < tests.len() && !is_example(#[trigger] tests[k]) && tests[k].len() > 0 ==> exists|i: int|
            0 <= i < groups.len() && #[trigger] groups[i].0 == tests[k][0]
}

/// The views of grouped tests.
pub open spec fn groups_view(g: Seq<(char, Vec<Vec<char>>)>) -> Seq<(char, Seq<Seq<char>>)> {
    g.map_values(|e: (char, Vec<Vec<char>>)| (e.0, vviews(e.1@)))
}

proof fn lemma_members_absent(tests: Seq<Seq<char>>, c: char)
    requires
        forall|k: int| 0 <= k < tests.len() && !is_example(tests[k]) && tests[k].len() > 0 ==> #[trigger] tests[k][0] != c,
    ensures
        members(tests, c) == Seq::<Seq<char>>::empty(),
    decreases tests.len(),
{
    if tests.len() > 0 {
        assert forall|k: int| 0 <= k < tests.drop_last().len() && !is_example(tests.drop_last()[k]) && tests.drop_last()[k].len() > 0 implies #[trigger] tests.drop_last()[k][0] != c by {
            assert(tests.drop_last()[k] == tests[k]);
        }
        lemma_members_absent(tests.drop_last(), c);
        let t = tests.last();
        assert(t == tests[tests.len() - 1]);
    }
}

proof fn lemma_members_push(done: Seq<Seq<char>>, t: Seq<char>, d: char)
    ensures
        members(done.push(t), d) == if !is_example(t) && t.len() > 0 && t[0] == d {
            members(done, d).push(t)
        } else {
            members(done, d)
        },
{
    assert(done.push(t).drop_last() =~= done);
}

/// Groups the non-example tests by their first character.
fn group_tests(tests: &[Vec<char>]) -> (r: Vec<(char, Vec<Vec<char>>)>)
    requires
        forall|k: int| 0 <= k < tests@.len() && !is_example(#[trigger] tests@[k]@) ==> keyable(tests@[k]@),
    ensures
        groups_ok(groups_view(r@), vviews(tests@)),
{
    let mut groups: Vec<(char, Vec<Vec<char>>)> = Vec::new();
    let mut k: usize = 0;
    let ghost all = vviews(tests@);
    while k < tests.len()
        invariant
            k <= tests.len(),
            all == vviews(tests@),
            groups_ok(groups_view(groups@), all.take(k as int)),
        decreases tests.len() - k,
    {
        let ghost before = groups_view(groups@);
        let ghost done = all.take(k as int);
        let t = &tests[k];
        let ghost now = all.take(k + 1);
        assert(now =~= done.push(t@));
        if t.len() > 0 && t[0] != '_' {
            let c = t[0];
            let mut i: usize = 0;
            while i < groups.len() && groups[i].0 < c
                invariant
                    i <= groups.len(),
                    forall|j: int| 0 <= j < i ==> (#[trigger] groups@[j]).0 < c,
                decreases groups.len() - i,
            {
                i += 1;
            }
            assert(forall|j: int| 0 <= j < i ==> before[j].0 < c);
            if i < groups.len() && groups[i].0 == c {
                let ghost old_groups = groups@;
                let (key, mut list) = groups.remove(i);
                assert(key == c);
                assert(vviews(list@) == before[i as int].1);
                let tc = t.clone();
                assert(tc@ == t@);
                list.push(tc);
                assert(vviews(list@) =~= before[i as int].1.push(t@));
                groups.insert(i, (key, list));
                proof {
                    assert(groups@ =~= old_groups.update(i as int, (key, list)));
                    let after = groups_view(groups@);
                    assert(after =~= before.update(i as int, (c, before[i as int].1.push(t@))));
                    assert forall|d: char| #[trigger] members(now, d) == if d == c {
                        members(done, d).push(t@)
                    } else {
                        members(done, d)
                    } by {
                        lemma_members_push(done, t@, d);
                    }
                    assert forall|x: int| 0 <= x < after.len() implies #[trigger] after[x].1 == members(
                        now,
                        after[x].0,
                    ) by {
                        if x != i {
                            assert(after[x] == before[x]);
                            if before[x].0 == c {
                                if x < i {
                                    assert(before[x].0 < before[i as int].0);
                                } else {
                                    assert(before[i as int].0 < before[x].0);
                                }
                            }
                        }
                    }
                    assert forall|y: int|
                        0 <= y < now.len() && !is_example(#[trigger] now[y]) && now[y].len() > 0 implies exists|x: int|
                        0 <= x < after.len() && #[trigger] after[x].0 == now[y][0] by {
                        if y < k {
                            assert(now[y] == done[y]);
                            let x = choose|x: int| 0 <= x < before.len() && #[trigger] before[x].0 == done[y][0];
                            assert(after[x].0 == before[x].0);
                        } else {
                            assert(after[i as int].0 == now[y][0]);
                        }
                    }
                    assert forall|a: int, b: int| 0 <= a < b < after.len() implies #[trigger] after[a].0 < #[trigger] after[b].0 by {
                        assert(before[a].0 < before[b].0);
                    }
                    assert forall|x: int| 0 <= x < after.len() implies (#[trigger] after[x].1).len() > 0 by {
                        assert(before[x].1.len() > 0);
                    }
                }
            } else {
                let mut list: Vec<Vec<char>> = Vec::new();
                let tc = t.clone();
                assert(tc@ == t@);
                list.push(tc);
                assert(vviews(list@) =~= seq![t@]);
                let ghost old_groups = groups@;
                groups.insert(i, (c, list));
                proof {
                    assert(groups@ =~= old_groups.insert(i as int, (c, list)));
                    let after = groups_view(groups@);
                    assert(after =~= before.insert(i as int, (c, seq![t@])));
                    assert forall|j: int| 0 <= j < before.len() implies #[trigger] before[j].0 != c by {
                        if j >= i {
                            assert(i < before.len());
                            if j > i {
                                assert(before[i as int].0 < before[j].0);
                            }
                        }
                    }
                    assert forall|y: int| 0 <= y < done.len() && !is_example(done[y]) && done[y].len() > 0 implies #[trigger] done[y][0] != c by {
                        let x = choose|x: int| 0 <= x < before.len() && #[trigger] before[x].0 == done[y][0];
                    }
                    lemma_members_absent(done, c);
                    assert forall|d: char| #[trigger] members(now, d) == if d == c {
                        members(done, d).push(t@)
                    } else {
                        members(done, d)
                    } by {
                        lemma_members_push(done, t@, d);
                    }
                    assert(members(now, c) =~= seq![t@]);
                    assert forall|x: int| 0 <= x < after.len() implies #[trigger] after[x].1 == members(
                        now,
                        after[x].0,
                    ) by {
                        if x < i {
                            assert(after[x] == before[x]);
                        } else if x > i {
                            assert(after[x] == before[x - 1]);
                        }
                    }
                    assert forall|y: int|
                        0 <= y < now.len() && !is_example(#[trigger] now[y]) && now[y].len() > 0 implies exists|x: int|
                        0 <= x < after.len() && #[trigger] after[x].0 == now[y][0] by {
                        if y < k {
                            assert(now[y] == done[y]);
                            let x = choose|x: int| 0 <= x < before.len() && #[trigger] before[x].0 == done[y][0];
                            if x < i {
                                assert(after[x].0 == before[x].0);
                            } else {
                                assert(after[x + 1].0 == before[x].0);
                            }
                        } else {
                            assert(after[i as int].0 == now[y][0]);
                        }
                    }
                    assert forall|a: int, b: int| 0 <= a < b < after.len() implies #[trigger] after[a].0 < #[trigger] after[b].0 by {
                        if b < i {
                            assert(before[a].0 < before[b].0);
                        } else if b == i {
                        } else if a < i {
                            assert(before[a].0 < c);
                            assert(before[b - 1].0 != c);
                            if b - 1 > i {
                                assert(before[i as int].0 < before[b - 1].0);
                            }
                        } else if a == i {
                            assert(before[b - 1].0 != c);
                            if b - 1 > i {
                                assert(before[i as int].0 < before[b - 1].0);
                            }
                        } else {
                            assert(before[a - 1].0 < before[b - 1].0);
                        }
                    }
                    assert forall|x: int| 0 <= x < after.len() implies (#[trigger] after[x].1).len() > 0 by {
                        if x < i {
                            assert(before[x].1.len() > 0);
                        } else if x > i {
                            assert(before[x - 1].1.len() > 0);
                        }
                    }
                }
            }
        } else {
            proof {
                assert forall|d: char| #[trigger] members(now, d) == members(done, d) by {
                    lemma_members_push(done, t@, d);
                }
                assert forall|y: int|
                    0 <= y < now.len() && !is_example(#[trigger] now[y]) && now[y].len() > 0 implies exists|x: int|
                    0 <= x < before.len() && #[trigger] before[x].0 == now[y][0] by {
                    assert(y < k);
                    assert(now[y] == done[y]);
                }
            }
        }
        k += 1;
    }
    assert(all.take(tests.len() as int) =~= all);
    groups
}


// ---------------------------------------------------------------------------
// Loading a package

/// The entry names of the archive held in `data`, in the order the archive lists
/// them, or `None` where the bytes are not a readable archive.
pub uninterp spec fn zip_listing(data: Seq<u8>) -> Option<Seq<Seq<char>>>;

/// The text of entry `name` of the archive held in `data`, or `None` where the
/// archive, the entry or its UTF-8 cannot be read.
pub uninterp spec fn zip_text(data: Seq<u8>, name: Seq<char>) -> Option<Seq<char>>;

/// Calls `ZipArchive::new` on the bytes and collects its `file_names`.
/// Claims that the result is the (named) listing of the bytes.
#[verifier::external_body]
fn zip_names(data: &[u8]) -> (r: Option<Vec<String>>)
    ensures
        match r {
            Some(v) => zip_listing(data@) == Some(strings_view(v@)),
            None => zip_listing(data@) is None,
        },
{
    let archive = ZipArchive::new(Cursor::new(data)).ok()?;
    Some(archive.file_names().map(String::from).collect())
}

/// Calls `ZipArchive::new` on the bytes, `by_name` for the entry and `read_to_string`
/// on it. Claims that the result is the (named) text of that entry.
#[verifier::external_body]
fn zip_entry(data: &[u8], name: &str) -> (r: Option<String>)
    ensures
        opt_view(r) == zip_text(data@, name@),
{
    let mut archive = ZipArchive::new(Cursor::new(data)).ok()?;
    let mut file = archive.by_name(name).ok()?;
    let mut out = String::new();
    file.read_to_string(&mut out).ok()?;
    Some(out)
}

/// An example of the statement: an input and the expected output.
pub struct Example {
    pub input: String,
    pub output: String,
}

/// A loaded problem package.
pub struct Pkg {
    /// The statement, rendered to HTML.
    pub doc: String,
    /// The example tests (names starting with `_`), in name order.
    pub examples: Vec<Example>,
    /// The other tests grouped by the first character of their name, groups in
    /// ascending order, tests in name order.
    pub groups: Vec<(String, Vec<String>)>,
}

/// Why a package could not be loaded.
pub enum PkgError {
    /// The bytes are not a readable archive.
    Archive,
    /// The named entry is missing or is not UTF-8 text.
    Entry(String),
    /// A test name that is neither an example nor starts with a one-byte character.
    TestName(String),
    /// The rendered statement has a code block whose tag end follows its close.
    Markup,
}

/// [`PkgError`] over plain values.
pub enum Fault {
    Archive,
    Entry(Seq<char>),
    TestName(Seq<char>),
    Markup,
}

impl View for PkgError {
    type V = Fault;

    open spec fn view(&self) -> Fault {
        match self {
            PkgError::Archive => Fault::Archive,
            PkgError::Entry(s) => Fault::Entry(s@),
            PkgError::TestName(s) => Fault::TestName(s@),
            PkgError::Markup => Fault::Markup,
        }
    }
}

/// `DOC.md`
pub open spec fn doc_name() -> Seq<char> {
    seq!['D', 'O', 'C', '.', 'm', 'd']
}

/// `in/`
pub open spec fn in_dir_name() -> Seq<char> {
    seq!['i', 'n', '/']
}

/// `out/`
pub open spec fn out_dir_name() -> Seq<char> {
    seq!['o', 'u', 't', '/']
}

/// `.out`
pub open spec fn out_suffix() -> Seq<char> {
    seq!['.', 'o', 'u', 't']
}

/// Where the input of test `n` lies.
pub open spec fn input_path(pre: Seq<char>, n: Seq<char>) -> Seq<char> {
    pre + in_dir_name() + n + in_suffix()
}

/// Where the expected output of test `n` lies.
pub open spec fn output_path(pre: Seq<char>, n: Seq<char>) -> Seq<char> {
    pre + out_dir_name() + n + out_suffix()
}

/// The tests of a listing in name order.
pub open spec fn listing_tests(names: Seq<Seq<char>>) -> Seq<Seq<char>> {
    tests_of(names, prefix_spec(names) + in_dir_name()).sort_by(lex_leq())
}

/// Going through the tests in order: the examples read so far, or the first
/// entry that cannot be read or the first name that cannot be grouped.
pub open spec fn walk(data: Seq<u8>, pre: Seq<char>, tests: Seq<Seq<char>>) -> Result<
    Seq<(Seq<char>, Seq<char>)>,
    Fault,
>
    decreases tests.len(),
{
    if tests.len() == 0 {
        Ok(seq![])
    } else {
        match walk(data, pre, tests.drop_last()) {
            Err(f) => Err(f),
            Ok(exs) => {
                let n = tests.last();
                if is_example(n) {
                    match zip_text(data, input_path(pre, n)) {
                        None => Err(Fault::Entry(input_path(pre, n))),
                        Some(i) => match zip_text(data, output_path(pre, n)) {
                            None => Err(Fault::Entry(output_path(pre, n))),
                            Some(o) => Ok(exs.push((i, o))),
                        },
                    }
                } else if keyable(n) {
                    Ok(exs)
                } else {
                    Err(Fault::TestName(n))
                }
            },
        }
    }
}

/// The renderer's HTML, or nothing where it reports an error.
pub open spec fn rendered(md: Seq<char>) -> Seq<char> {
    match gfm_html(md) {
        Some(h) => h,
        None => Seq::empty(),
    }
}

/// What loading the archive `data` yields: the rendered statement and the
/// examples, or why it fails.
pub open spec fn load_spec(data: Seq<u8>) -> Result<(Seq<char>, Seq<(Seq<char>, Seq<char>)>), Fault> {
    match zip_listing(data) {
        None => Err(Fault::Archive),
        Some(names) => {
            let pre = prefix_spec(names);
            let doc_path = pre + doc_name();
            match zip_text(data, doc_path) {
                None => Err(Fault::Entry(doc_path)),
                Some(md) => {
                    let html = rendered(md);
                    if !blocks_well_formed(html) {
                        Err(Fault::Markup)
                    } else {
                        match walk(data, pre, listing_tests(names)) {
                            Err(f) => Err(f),
                            Ok(exs) => Ok((highlight_blocks_spec(html), exs)),
                        }
                    }
                },
            }
        },
    }
}

/// The views of examples.
pub open spec fn examples_view(v: Seq<Example>) -> Seq<(Seq<char>, Seq<char>)> {
    v.map_values(|e: Example| (e.input@, e.output@))
}

/// The views of named groups.
pub open spec fn named_groups(g: Seq<(String, Vec<String>)>) -> Seq<(Seq<char>, Seq<Seq<char>>)> {
    g.map_values(|e: (String, Vec<String>)| (e.0@, strings_view(e.1@)))
}

/// Named groups keyed by the one character of their name.
pub open spec fn keyed(g: Seq<(Seq<char>, Seq<Seq<char>>)>) -> Seq<(char, Seq<Seq<char>>)> {
    g.map_values(|e: (Seq<char>, Seq<Seq<char>>)| (e.0[0], e.1))
}

fn name_groups(g: Vec<(char, Vec<Vec<char>>)>) -> (r: Vec<(String, Vec<String>)>)
    ensures
        forall|i: int| 0 <= i < r@.len() ==> (#[trigger] named_groups(r@)[i]).0 == seq![g@[i].0],
        keyed(named_groups(r@)) == groups_view(g@),
{
    let mut r: Vec<(String, Vec<String>)> = Vec::new();
    let mut i: usize = 0;
    while i < g.len()
        invariant
            i <= g.len(),
            r@.len() == i,
            forall|j: int| 0 <= j < i ==> (#[trigger] named_groups(r@)[j]).0 == seq![g@[j].0],
            keyed(named_groups(r@)) == groups_view(g@).take(i as int),
        decreases g.len() - i,
    {
        let key = vec![g[i].0];
        let name = string_of(key.as_slice());
        let tests = strings_all(g[i].1.as_slice());
        assert(key@ =~= seq![g@[i as int].0]);
        let ghost old_r = r@;
        r.push((name, tests));
        assert(named_groups(r@) =~= named_groups(old_r).push((seq![g@[i as int].0], vviews(g@[i as int].1@))));
        assert(keyed(named_groups(r@)) =~= groups_view(g@).take(i + 1));
        i += 1;
    }
    assert(groups_view(g@).take(g.len() as int) =~= groups_view(g@));
    r
}

proof fn lemma_walk_err(data: Seq<u8>, pre: Seq<char>, tests: Seq<Seq<char>>, k: int)
    requires
        0 <= k <= tests.len(),
        walk(data, pre, tests.take(k)) is Err,
    ensures
        walk(data, pre, tests) == walk(data, pre, tests.take(k)),
    decreases tests.len(),
{
    if k == tests.len() {
        assert(tests.take(k) =~= tests);
    } else {
        assert(tests.drop_last().take(k) =~= tests.take(k));
        lemma_walk_err(data, pre, tests.drop_last(), k);
    }
}

/// Loads a package from the bytes of its archive: the statement `DOC.md`
/// rendered, the examples (tests named `_...`) read from `in/` and `out/`, and the
/// other tests grouped by their first character; everything below the folder
/// that the package sits in (see [`prefix`]).
#[verifier::loop_isolation(false)]
pub fn load(hl: &Highlighter, data: &[u8]) -> (r: Result<Pkg, PkgError>)
    ensures
        match r {
            Ok(p) => {
                &&& load_spec(data@) == Ok::<_, Fault>((p.doc@, examples_view(p.examples@)))
                &&& zip_listing(data@) matches Some(names) && groups_ok(
                    keyed(named_groups(p.groups@)),
                    listing_tests(names),
                )
                &&& forall|i: int| 0 <= i < p.groups@.len() ==> (#[trigger] named_groups(p.groups@)[i]).0.len() == 1
            },
            Err(e) => load_spec(data@) == Err::<(Seq<char>, Seq<(Seq<char>, Seq<char>)>), Fault>(e@),
        },
{
    let names = match zip_names(data) {
        None => return Err(PkgError::Archive),
        Some(n) => n,
    };
    let ghost names_v = strings_view(names@);
    let name_chars = chars_all(names.as_slice());
    let pre = prefix_chars(name_chars.as_slice());
    assert(pre@ == prefix_spec(names_v));
    let mut doc_path = pre.clone();
    push_chars(&mut doc_path, &['D', 'O', 'C', '.', 'm', 'd']);
    assert(doc_path@ =~= pre@ + doc_name());
    let doc_path_s = string_of(doc_path.as_slice());
    let md = match zip_entry(data, doc_path_s.as_str()) {
        None => return Err(PkgError::Entry(doc_path_s)),
        Some(md) => md,
    };
    let doc = match markdown(hl, md.as_str()) {
        None => return Err(PkgError::Markup),
        Some(d) => d,
    };
    let mut in_dir = pre.clone();
    push_chars(&mut in_dir, &['i', 'n', '/']);
    assert(in_dir@ =~= pre@ + in_dir_name());
    let unsorted = tests_in(name_chars.as_slice(), in_dir.as_slice());
    let tests = sort_strings(unsorted);
    let ghost tv = vviews(tests@);
    assert(tv == listing_tests(names_v));
    let mut examples: Vec<Example> = Vec::new();
    assert(examples_view(examples@) =~= seq![]);
    assert(tv.take(0) =~= seq![]);
    let mut k: usize = 0;
    while k < tests.len()
        invariant
            k <= tests.len(),
            tv == vviews(tests@),
            walk(data@, pre@, tv.take(k as int)) == Ok::<_, Fault>(examples_view(examples@)),
            forall|j: int| 0 <= j < k && !is_example(#[trigger] tests@[j]@) ==> keyable(tests@[j]@),
        decreases tests.len() - k,
    {
        assert(tv.take(k + 1).drop_last() =~= tv.take(k as int));
        assert(tv.take(k + 1).last() == tests@[k as int]@);
        let t = tests[k].as_slice();
        if t.len() > 0 && t[0] == '_' {
            let mut ip = pre.clone();
            push_chars(&mut ip, &['i', 'n', '/']);
            push_chars(&mut ip, t);
            push_chars(&mut ip, &['.', 'i', 'n']);
            assert(ip@ =~= input_path(pre@, t@));
            let ip_s = string_of(ip.as_slice());
            let input = match zip_entry(data, ip_s.as_str()) {
                None => {
                    proof {
                        lemma_walk_err(data@, pre@, tv, k + 1);
                    }
                    return Err(PkgError::Entry(ip_s));
                },
                Some(x) => x,
            };
            let mut op = pre.clone();
            push_chars(&mut op, &['o', 'u', 't', '/']);
            push_chars(&mut op, t);
            push_chars(&mut op, &['.', 'o', 'u', 't']);
            assert(op@ =~= output_path(pre@, t@));
            let op_s = string_of(op.as_slice());
            let output = match zip_entry(data, op_s.as_str()) {
                None => {
                    proof {
                        lemma_walk_err(data@, pre@, tv, k + 1);
                    }
                    return Err(PkgError::Entry(op_s));
                },
                Some(x) => x,
            };
            let ghost before = examples_view(examples@);
            examples.push(Example { input, output });
            assert(examples_view(examples@) =~= before.push((input@, output@)));
        } else if t.len() == 0 || !((t[0] as u32) < 128) {
            assert(!keyable(t@));
            assert(!is_example(t@));
            let bad = string_of(t);
            proof {
                lemma_walk_err(data@, pre@, tv, k + 1);
            }
            return Err(PkgError::TestName(bad));
        }
        k += 1;
    }
    assert(tv.take(tests.len() as int) =~= tv);
    let g = group_tests(tests.as_slice());
    let groups = name_groups(g);
    Ok(Pkg { doc, examples, groups })
}



/// The tests of a package listing in name order: the entries `<prefix>in/<name>.in`
/// whose name holds no `/`.
pub fn test_names(names: &[String]) -> (r: Vec<String>)
    ensures
        strings_view(r@) == listing_tests(strings_view(names@)),
{
    let name_chars = chars_all(names);
    let pre = prefix_chars(name_chars.as_slice());
    let mut in_dir = pre.clone();
    push_chars(&mut in_dir, &['i', 'n', '/']);
    assert(in_dir@ =~= pre@ + in_dir_name());
    let unsorted = tests_in(name_chars.as_slice(), in_dir.as_slice());
    let tests = sort_strings(unsorted);
    strings_all(tests.as_slice())
}

/// Groups the tests that are not examples by their first character (see
/// [`groups_ok`]); `None` where such a test is empty or starts with a character of
/// more than one byte.
pub fn group(tests: &[String]) -> (r: Option<Vec<(String, Vec<String>)>>)
    ensures
        r is Some <==> forall|k: int|
            0 <= k < tests@.len() && !is_example(#[trigger] tests@[k]@) ==> keyable(tests@[k]@),
        r matches Some(g) ==> groups_ok(keyed(named_groups(g@)), strings_view(tests@)) && forall|i: int|
            0 <= i < g@.len() ==> (#[trigger] named_groups(g@)[i]).0.len() == 1,
{
    let t = chars_all(tests);
    let mut k: usize = 0;
    while k < t.len()
        invariant
            k <= t.len(),
            vviews(t@) == strings_view(tests@),
            forall|j: int| 0 <= j < k && !is_example(#[trigger] t@[j]@) ==> keyable(t@[j]@),
        decreases t.len() - k,
    {
        let n = t[k].as_slice();
        assert(t@.len() == vviews(t@).len());
        assert(tests@.len() == strings_view(tests@).len());
        assert(vviews(t@)[k as int] == t@[k as int]@);
        assert(strings_view(tests@)[k as int] == tests@[k as int]@);
        assert(n@ == tests@[k as int]@);
        if !(n.len() > 0 && n[0] == '_') && !(n.len() > 0 && (n[0] as u32) < 128) {
            assert(!is_example(tests@[k as int]@) && !keyable(tests@[k as int]@));
            return None;
        }
        k += 1;
    }
    assert forall|j: int| 0 <= j < tests@.len() && !is_example(#[trigger] tests@[j]@) implies keyable(tests@[j]@) by {
        assert(t@.len() == vviews(t@).len());
        assert(tests@.len() == strings_view(tests@).len());
        assert(vviews(t@)[j] == t@[j]@);
        assert(strings_view(tests@)[j] == tests@[j]@);
        assert(t@[j]@ == tests@[j]@);
        assert(!is_example(t@[j]@));
    }
    let g = group_tests(t.as_slice());
    Some(name_groups(g))
}

// ---------------------------------------------------------------------------
// Laws

/// Text without `&` holds no entity, and unescaping leaves it as it is.
pub proof fn law_unescape_plain(s: Seq<char>)
    requires
        !s.contains('&'),
    ensures
        unescape_spec(s) == s,
{
    lemma_replace_absent(s, ent_lt(), seq!['<']);
    lemma_replace_absent(s, ent_gt(), seq!['>']);
    lemma_replace_absent(s, ent_quot(), seq!['"']);
    lemma_replace_absent(s, ent_apos(), seq!['\'']);
    lemma_replace_absent(s, ent_amp(), seq!['&']);
}

/// Every block that the scan of `html` cuts out names a language that the
/// highlighter does not know (or cannot highlight).
pub open spec fn no_language_known(html: Seq<char>) -> bool
    decreases html.len(),
{
    match first_block(html) {
        None => true,
        Some((start, q, e)) => {
            let after = html.skip(start + block_open().len());
            if 0 <= q && q + 2 <= e && 0 <= start && start + block_open().len() <= html.len() && e
                + block_close().len() <= after.len() {
                &&& highlighted(unescape_spec(after.subrange(q + 2, e)), after.take(q)) is None
                &&& no_language_known(after.skip(e + block_close().len()))
            } else {
                true
            }
        },
    }
}

/// HTML whose code blocks are all in languages the highlighter does not know comes
/// out exactly as it went in; in particular HTML without code blocks.
pub proof fn law_unknown_blocks_kept(html: Seq<char>)
    requires
        blocks_well_formed(html),
        no_language_known(html),
    ensures
        highlight_blocks_spec(html) == html,
    decreases html.len(),
{
    match first_block(html) {
        None => {},
        Some((start, q, e)) => {
            let after = html.skip(start + block_open().len());
            let next = after.skip(e + block_close().len());
            law_unknown_blocks_kept(next);
            lemma_find(html, block_open());
            assert(occurs_at(html, block_open(), start));
            assert(html =~= html.take(start) + (block_open() + after.take(e + block_close().len())) + next);
        },
    }
}

/// `pat` is first found in `s` at `k` where it occurs there and nowhere before.
proof fn lemma_find_at(s: Seq<char>, pat: Seq<char>, k: int)
    requires
        occurs_at(s, pat, k),
        forall|j: int| 0 <= j < k ==> !occurs_at(s, pat, j),
    ensures
        find(s, pat) == Some(k),
{
    lemma_find(s, pat);
    match find(s, pat) {
        Some(m) => {
            if m < k {
                assert(!occurs_at(s, pat, m));
            }
        },
        None => {},
    }
}

/// Where the text in front holds no first character of `pat`, `pat` is first found
/// in `x + y` where it is first found in `y`, past `x`.
#[verifier::spinoff_prover]
proof fn lemma_find_past(x: Seq<char>, y: Seq<char>, pat: Seq<char>)
    requires
        pat.len() > 0,
        !x.contains(pat[0]),
    ensures
        find(x + y, pat) == match find(y, pat) {
            Some(k) => Some(k + x.len()),
            None => None::<int>,
        },
{
    let s = x + y;
    lemma_find(s, pat);
    lemma_find(y, pat);
    assert forall|j: int| x.len() <= j implies occurs_at(s, pat, j) == occurs_at(
        y,
        pat,
        j - x.len(),
    ) by {
        if j + pat.len() <= s.len() {
            assert(s.subrange(j, j + pat.len()) =~= y.subrange(
                j - x.len(),
                j - x.len() + pat.len(),
            ));
        }
    }
    assert forall|j: int| 0 <= j < x.len() implies !occurs_at(s, pat, j) by {
        if occurs_at(s, pat, j) {
            assert(s.subrange(j, j + pat.len())[0] == s[j]);
            assert(s[j] == x[j]);
        }
    }
    match find(y, pat) {
        Some(k) => {
            lemma_find_at(s, pat, k + x.len());
        },
        None => {
            match find(s, pat) {
                Some(m) => {
                    assert(occurs_at(s, pat, m));
                },
                None => {},
            }
        },
    }
}

/// Text without `<` in front of HTML passes through untouched: what comes out for
/// `x + y` is `x` followed by what comes out for `y`.
#[verifier::spinoff_prover]
pub proof fn law_plain_text_kept(x: Seq<char>, y: Seq<char>)
    requires
        !x.contains('<'),
    ensures
        highlight_blocks_spec(x + y) == x + highlight_blocks_spec(y),
{
    let s = x + y;
    assert(block_open()[0] == '<');
    lemma_find_past(x, y, block_open());
    match find(y, block_open()) {
        None => {},
        Some(k) => {
            lemma_find(y, block_open());
            assert(s.skip(k + x.len() + block_open().len()) =~= y.skip(k + block_open().len()));
            assert(s.take(k + x.len()) =~= x + y.take(k));
            let after = y.skip(k + block_open().len());
            match first_block(y) {
                Some((start, q, e)) => {
                    if 0 <= q && q + 2 <= e && e + block_close().len() <= after.len() {
                        let rest = highlight_blocks_spec(after.skip(e + block_close().len()));
                        assert(s.take(k + x.len()) + block_html(after, q, e) + rest =~= x + (y.take(k)
                            + block_html(after, q, e) + rest));
                    }
                },
                None => {},
            }
        },
    }
}

/// No tail of a block close is also its head: where a later character of the close
/// is its first, `<`, the character two further on differs from its third.
proof fn lemma_close_unbordered()
    ensures
        forall|d: int|
            1 <= d < block_close().len() && #[trigger] block_close()[d] == block_close()[0] ==> d + 2
                < block_close().len() && block_close()[d + 2] != block_close()[2],
{
    let close = block_close();
    assert forall|d: int| 1 <= d < close.len() && #[trigger] close[d] == close[0] implies d + 2
        < close.len() && close[d + 2] != close[2] by {
        assert(d == 1 || d == 2 || d == 3 || d == 4 || d == 5 || d == 6 || d == 7 || d == 8 || d == 9
            || d == 10 || d == 11 || d == 12);
    }
}

/// No block close straddles the end of a body that holds none: the first close in
/// `body + close + b` is the one after the body.
#[verifier::spinoff_prover]
proof fn lemma_close_after_body(body: Seq<char>, b: Seq<char>)
    requires
        forall|j: int| !occurs_at(body, block_close(), j),
    ensures
        find(body + block_close() + b, block_close()) == Some(body.len() as int),
{
    let close = block_close();
    let u = body + close + b;
    let n = body.len() as int;
    assert(u.subrange(n, n + close.len()) =~= close);
    lemma_close_unbordered();
    assert forall|j: int| 0 <= j < n implies !occurs_at(u, close, j) by {
        if occurs_at(u, close, j) {
            let w = u.subrange(j, j + close.len());
            if j + close.len() <= n {
                assert(w =~= body.subrange(j, j + close.len()));
                assert(occurs_at(body, close, j));
            } else {
                let d = n - j;
                assert(w[d] == u[n]);
                assert(u[n] == close[0]);
                assert(close[d] == close[0]);
                assert(w[d + 2] == u[n + 2]);
                assert(u[n + 2] == close[2]);
            }
        }
    }
    lemma_find_at(u, close, n);
}

/// The scan cuts a block that opens at the start of `t` at its own tag end and close.
#[verifier::spinoff_prover]
proof fn lemma_block_found(lang: Seq<char>, body: Seq<char>, b: Seq<char>)
    requires
        !lang.contains('<'),
        !lang.contains('"'),
        forall|j: int| !occurs_at(body, block_close(), j),
    ensures
        first_block(block_open() + lang + tag_end() + body + block_close() + b) == Some(
            (0int, lang.len() as int, (lang.len() + 2 + body.len()) as int),
        ),
{
    let open = block_open();
    let close = block_close();
    let tag = tag_end();
    let t = open + lang + tag + body + close + b;
    assert(t.subrange(0, open.len() as int) =~= open);
    lemma_find_at(t, open, 0);
    let after = t.skip(open.len() as int);
    let tail = tag + body + close + b;
    assert(after =~= lang + tail);
    assert(tag[0] == '"');
    assert(tail.subrange(0, 2) =~= tag);
    lemma_find_at(tail, tag, 0);
    lemma_find_past(lang, tail, tag);
    let u = body + close + b;
    lemma_close_after_body(body, b);
    let lt = lang + tag;
    assert(close[0] == '<');
    assert(!lt.contains('<')) by {
        if lt.contains('<') {
            let k = choose|k: int| 0 <= k < lt.len() && lt[k] == '<';
            if k < lang.len() {
                assert(lt[k] == lang[k]);
            }
        }
    }
    assert(after =~= lt + u);
    lemma_find_past(lt, u, close);
}

/// What a block is turned into: its highlighted form, or itself where the
/// highlighter gives nothing.
pub open spec fn block_out(lang: Seq<char>, body: Seq<char>) -> Seq<char> {
    match highlighted(unescape_spec(body), lang) {
        Some(c) => block_open() + lang + tag_end() + c + block_close(),
        None => block_open() + lang + tag_end() + body + block_close(),
    }
}

#[verifier::spinoff_prover]
proof fn lemma_block_out(lang: Seq<char>, body: Seq<char>, b: Seq<char>)
    requires
        !lang.contains('<'),
        !lang.contains('"'),
        forall|j: int| !occurs_at(body, block_close(), j),
    ensures
        highlight_blocks_spec(block_open() + lang + tag_end() + body + block_close() + b)
            == block_out(lang, body) + highlight_blocks_spec(b),
{
    let open = block_open();
    let close = block_close();
    let tag = tag_end();
    let t = open + lang + tag + body + close + b;
    lemma_block_found(lang, body, b);
    let after = t.skip(open.len() as int);
    let q = lang.len() as int;
    let e = (lang.len() + 2 + body.len()) as int;
    assert(after =~= lang + tag + body + close + b);
    assert(after.take(q) =~= lang);
    assert(after.subrange(q + 2, e) =~= body);
    assert(after.take(e + close.len()) =~= lang + tag + body + close);
    assert(after.skip(e + close.len()) =~= b);
    assert(t.take(0) =~= Seq::<char>::empty());
    assert(highlight_blocks_spec(t) == t.take(0) + block_html(after, q, e) + highlight_blocks_spec(b));
    assert(block_html(after, q, e) =~= block_out(lang, body));
}

/// A fenced block with a language comes out in place: as the highlighted text of
/// its unescaped body with the language kept, or as it was where the highlighter
/// gives nothing ([`block_out`]); what follows it is highlighted in turn. (The text
/// in front holds no `<`, the language neither `<` nor `"`, and no block close
/// occurs in the body.)
pub proof fn law_block_spliced(a: Seq<char>, lang: Seq<char>, body: Seq<char>, b: Seq<char>)
    requires
        !a.contains('<'),
        !lang.contains('<'),
        !lang.contains('"'),
        forall|j: int| !occurs_at(body, block_close(), j),
    ensures
        highlight_blocks_spec(a + (block_open() + lang + tag_end() + body + block_close()) + b) == a
            + block_out(lang, body) + highlight_blocks_spec(b),
{
    let blk = block_open() + lang + tag_end() + body + block_close();
    assert(a + blk + b =~= a + (blk + b));
    law_plain_text_kept(a, blk + b);
    lemma_block_out(lang, body, b);
    assert(a + (block_out(lang, body) + highlight_blocks_spec(b)) =~= a + block_out(lang, body)
        + highlight_blocks_spec(b));
}

/// When the package is not in a folder (the prefix is empty), every file of the
/// listing starts with the prefix; otherwise the prefix ends in `/` and every file
/// starts with it.
pub proof fn law_prefix_covers(names: Seq<Seq<char>>)
    ensures
        forall|i: int| 0 <= i < files_of(names).len() ==> has_prefix(#[trigger] files_of(names)[i], prefix_spec(names)),
        prefix_spec(names).len() > 0 ==> prefix_spec(names).last() == '/',
{
    let p = prefix_spec(names);
    if p.len() == 0 {
        assert forall|i: int| 0 <= i < files_of(names).len() implies has_prefix(#[trigger] files_of(names)[i], p) by {
            assert(files_of(names)[i].take(0) =~= p);
        }
    }
}


/// `names2` is the listing `names` moved into the folder `top` (a name ending in
/// `/`): each name of `names`, in order, under `top`, with entries for the folder
/// itself anywhere among them, as many as there are (none too).
pub open spec fn moved_into(names2: Seq<Seq<char>>, names: Seq<Seq<char>>, top: Seq<char>) -> bool
    decreases names2.len(),
{
    if names2.len() == 0 {
        names.len() == 0
    } else {
        ||| (names2.last() == top && moved_into(names2.drop_last(), names, top))
        ||| (names.len() > 0 && names2.last() == top + names.last() && moved_into(
            names2.drop_last(),
            names.drop_last(),
            top,
        ))
    }
}

/// The archive `z2` is `z` zipped inside the folder `d`: its listing is `z`'s moved
/// into `d/`, and each entry `d/n` holds what entry `n` of `z` holds.
pub open spec fn zipped_in_folder(z: Seq<u8>, z2: Seq<u8>, d: Seq<char>) -> bool {
    &&& zip_listing(z) is Some
    &&& zip_listing(z2) is Some
    &&& moved_into(zip_listing(z2)->0, zip_listing(z)->0, d + slash())
    &&& forall|n: Seq<char>| #[trigger] zip_text(z2, d + slash() + n) == zip_text(z, n)
}

proof fn lemma_moved_under(names2: Seq<Seq<char>>, names: Seq<Seq<char>>, top: Seq<char>)
    requires
        moved_into(names2, names, top),
    ensures
        forall|i: int| 0 <= i < names2.len() ==> has_prefix(#[trigger] names2[i], top),
        forall|x: Seq<char>| #[trigger] names.contains(x) ==> names2.contains(top + x),
    decreases names2.len(),
{
    if names2.len() > 0 {
        let init = names2.drop_last();
        let last = names2.last();
        assert(last.take(top.len() as int) =~= top) by {
            if last != top {
                assert(last == top + names.last());
            }
        }
        if last == top && moved_into(init, names, top) {
            lemma_moved_under(init, names, top);
            assert forall|x: Seq<char>| #[trigger] names.contains(x) implies names2.contains(top + x) by {
                let k = choose|k: int| 0 <= k < init.len() && init[k] == top + x;
                assert(names2[k] == init[k]);
            }
        } else {
            lemma_moved_under(init, names.drop_last(), top);
            assert forall|x: Seq<char>| #[trigger] names.contains(x) implies names2.contains(top + x) by {
                let j = choose|j: int| 0 <= j < names.len() && names[j] == x;
                if j < names.len() - 1 {
                    assert(names.drop_last()[j] == x);
                    assert(names.drop_last().contains(x));
                    let k = choose|k: int| 0 <= k < init.len() && init[k] == top + x;
                    assert(names2[k] == init[k]);
                } else {
                    assert(names2[names2.len() - 1] == top + x);
                }
            }
        }
        assert forall|i: int| 0 <= i < names2.len() implies has_prefix(#[trigger] names2[i], top) by {
            if i < init.len() {
                assert(names2[i] == init[i]);
            }
        }
    }
}

proof fn lemma_files_from(names: Seq<Seq<char>>)
    ensures
        forall|i: int| 0 <= i < files_of(names).len() ==> names.contains(#[trigger] files_of(names)[i]),
        forall|x: Seq<char>| #[trigger] names.contains(x) && !has_suffix(x, slash()) ==> files_of(
            names,
        ).contains(x),
    decreases names.len(),
{
    if names.len() > 0 {
        let init = names.drop_last();
        lemma_files_from(init);
        assert forall|i: int| 0 <= i < files_of(names).len() implies names.contains(
            #[trigger] files_of(names)[i],
        ) by {
            if i < files_of(init).len() {
                assert(files_of(names)[i] == files_of(init)[i]);
                let k = choose|k: int| 0 <= k < init.len() && init[k] == files_of(init)[i];
                assert(names[k] == init[k]);
            } else {
                assert(files_of(names)[i] == names.last());
                assert(names[names.len() - 1] == names.last());
            }
        }
        assert forall|x: Seq<char>| #[trigger] names.contains(x) && !has_suffix(x, slash()) implies files_of(
            names,
        ).contains(x) by {
            let k = choose|k: int| 0 <= k < names.len() && names[k] == x;
            if k < init.len() {
                assert(init[k] == x);
                assert(init.contains(x));
                let j = choose|j: int| 0 <= j < files_of(init).len() && files_of(init)[j] == x;
                assert(files_of(names)[j] == x);
            } else {
                assert(files_of(names).last() == x);
                assert(files_of(names)[files_of(names).len() - 1] == x);
            }
        }
    }
}

/// A listing moved into a folder `d/` (with `config.toml` among the files moved)
/// has `d/` as its prefix.
#[verifier::spinoff_prover]
proof fn lemma_folder_prefix(names2: Seq<Seq<char>>, names: Seq<Seq<char>>, d: Seq<char>)
    requires
        d.len() > 0,
        !d.contains('/'),
        moved_into(names2, names, d + slash()),
        files_of(names).contains(config_name()),
    ensures
        prefix_spec(names2) == d + slash(),
{
    let top = d + slash();
    let files = files_of(names2);
    lemma_files_from(names);
    lemma_files_from(names2);
    lemma_moved_under(names2, names, top);
    assert(top.last() == '/');
    assert forall|i: int| 0 <= i < files.len() implies has_prefix(#[trigger] files[i], top) by {
        assert(names2.contains(files[i]));
        let k = choose|k: int| 0 <= k < names2.len() && names2[k] == files[i];
        assert(has_prefix(names2[k], top));
    }
    // The moved `config.toml` is a file of the new listing, so there are files.
    let j = choose|j: int| 0 <= j < files_of(names).len() && files_of(names)[j] == config_name();
    assert(names.contains(config_name()));
    let moved = top + config_name();
    assert(names2.contains(moved));
    assert(!has_suffix(moved, slash())) by {
        assert(moved.skip(moved.len() - 1)[0] == moved.last());
        assert(moved.last() == 'l');
    }
    assert(files.contains(moved));
    assert(files.len() > 0);
    // No file is `config.toml` itself: every file starts with `d/`, and it holds no `/`.
    assert(!files.contains(config_name())) by {
        if files.contains(config_name()) {
            let i = choose|i: int| 0 <= i < files.len() && files[i] == config_name();
            assert(has_prefix(config_name(), top));
            assert(config_name().take(top.len() as int)[d.len() as int] == top[d.len() as int]);
            assert(config_name()[d.len() as int] == '/');
        }
    }
    // The first file's top folder is `d`.
    let f0 = files[0];
    assert(has_prefix(f0, top));
    let w = f0.skip(top.len() as int);
    assert(f0.take(top.len() as int) == top);
    assert(f0 =~= f0.take(top.len() as int) + w);
    assert(top + w =~= d + (slash() + w));
    assert(f0 =~= d + (slash() + w));
    assert((slash() + w).subrange(0, 1) =~= slash());
    lemma_find_at(slash() + w, slash(), 0);
    lemma_find_past(d, slash() + w, slash());
    assert(first_segment(f0) =~= d);
}

#[verifier::spinoff_prover]
proof fn lemma_folder_test_name(n: Seq<char>, top: Seq<char>)
    ensures
        test_name(top + n, top + in_dir_name()) == test_name(n, in_dir_name()),
        test_name(top, top + in_dir_name()) is None,
{
    let m = n;
    let t = top + m;
    let dir = top + in_dir_name();
    let k = in_dir_name().len() as int;
    if has_prefix(m, in_dir_name()) {
        assert(t.take(dir.len() as int) =~= top + m.take(k));
        assert(t.skip(dir.len() as int) =~= m.skip(k));
        if has_suffix(m.skip(k), in_suffix()) {
            assert(t.subrange(dir.len() as int, t.len() - 3) =~= m.subrange(k, m.len() - 3));
        }
    } else {
        if has_prefix(t, dir) {
            assert(t.take(dir.len() as int).skip(top.len() as int) =~= m.take(k));
            assert(dir.skip(top.len() as int) =~= in_dir_name());
        }
    }
}

proof fn lemma_folder_tests(names2: Seq<Seq<char>>, names: Seq<Seq<char>>, top: Seq<char>)
    requires
        moved_into(names2, names, top),
    ensures
        tests_of(names2, top + in_dir_name()) == tests_of(names, in_dir_name()),
    decreases names2.len(),
{
    if names2.len() > 0 {
        let init = names2.drop_last();
        lemma_folder_test_name(Seq::empty(), top);
        assert(top + Seq::<char>::empty() =~= top);
        if names2.last() == top && moved_into(init, names, top) {
            lemma_folder_tests(init, names, top);
        } else {
            lemma_folder_tests(init, names.drop_last(), top);
            lemma_folder_test_name(names.last(), top);
        }
    }
}

#[verifier::spinoff_prover]
proof fn lemma_folder_walk(z: Seq<u8>, z2: Seq<u8>, d: Seq<char>, tests: Seq<Seq<char>>)
    requires
        zipped_in_folder(z, z2, d),
    ensures
        walk(z2, d + slash(), tests) is Err <==> walk(z, Seq::empty(), tests) is Err,
        walk(z, Seq::empty(), tests) is Ok ==> walk(z2, d + slash(), tests) == walk(
            z,
            Seq::empty(),
            tests,
        ),
    decreases tests.len(),
{
    if tests.len() > 0 {
        lemma_folder_walk(z, z2, d, tests.drop_last());
        let n = tests.last();
        let top = d + slash();
        let e = Seq::<char>::empty();
        assert(input_path(top, n) =~= d + slash() + input_path(e, n));
        assert(output_path(top, n) =~= d + slash() + output_path(e, n));
        assert(zip_text(z2, d + slash() + input_path(e, n)) == zip_text(z, input_path(e, n)));
        assert(zip_text(z2, d + slash() + output_path(e, n)) == zip_text(z, output_path(e, n)));
    }
}

/// A package zipped inside one folder loads as the flat package does, wherever the
/// folder's own entry stands in the listing and whether or not there is one: both
/// fail, or both give the same statement and examples and the same tests to group.
#[verifier::spinoff_prover]
pub proof fn law_folder_invariant(z: Seq<u8>, z2: Seq<u8>, d: Seq<char>)
    requires
        d.len() > 0,
        !d.contains('/'),
        zipped_in_folder(z, z2, d),
        files_of(zip_listing(z)->0).contains(config_name()),
    ensures
        load_spec(z2) is Err <==> load_spec(z) is Err,
        load_spec(z) is Ok ==> load_spec(z2) == load_spec(z),
        listing_tests(zip_listing(z2)->0) == listing_tests(zip_listing(z)->0),
{
    let names = zip_listing(z)->0;
    let top = d + slash();
    let names2 = zip_listing(z2)->0;
    let e = Seq::<char>::empty();
    assert(prefix_spec(names) == e);
    lemma_folder_prefix(names2, names, d);
    lemma_folder_tests(names2, names, top);
    assert(e + in_dir_name() =~= in_dir_name());
    assert(listing_tests(names2) == listing_tests(names));
    lemma_folder_walk(z, z2, d, listing_tests(names));
    assert(e + doc_name() =~= doc_name());
    assert(zip_text(z2, d + slash() + doc_name()) == zip_text(z, doc_name()));
}

/// The example tests of `tests` (names starting with `_`), in the order they come.
pub open spec fn example_tests(tests: Seq<Seq<char>>) -> Seq<Seq<char>> {
    tests.filter(|n: Seq<char>| is_example(n))
}

proof fn lemma_walk_reads(data: Seq<u8>, pre: Seq<char>, tests: Seq<Seq<char>>)
    ensures
        walk(data, pre, tests) matches Ok(exs) ==> {
            let ex = example_tests(tests);
            &&& exs.len() == ex.len()
            &&& forall|k: int|
                0 <= k < ex.len() ==> zip_text(data, input_path(pre, #[trigger] ex[k])) == Some(
                    exs[k].0,
                ) && zip_text(data, output_path(pre, ex[k])) == Some(exs[k].1)
        },
    decreases tests.len(),
{
    reveal(Seq::filter);
    if tests.len() > 0 {
        lemma_walk_reads(data, pre, tests.drop_last());
        let n = tests.last();
        assert(example_tests(tests) == if is_example(n) {
            example_tests(tests.drop_last()).push(n)
        } else {
            example_tests(tests.drop_last())
        });
    } else {
        assert(example_tests(tests) =~= Seq::<Seq<char>>::empty());
    }
}

proof fn lemma_examples_sorted(tests: Seq<Seq<char>>)
    requires
        vstd::relations::sorted_by(tests, lex_leq()),
    ensures
        forall|i: int, j: int|
            0 <= i < j < example_tests(tests).len() ==> lex_le(
                #[trigger] example_tests(tests)[i],
                #[trigger] example_tests(tests)[j],
            ),
        forall|i: int|
            0 <= i < example_tests(tests).len() ==> is_example(#[trigger] example_tests(tests)[i])
                && tests.contains(example_tests(tests)[i]),
        forall|t: Seq<char>| tests.contains(t) && is_example(t) ==> #[trigger] example_tests(tests).contains(t),
    decreases tests.len(),
{
    reveal(Seq::filter);
    if tests.len() > 0 {
        let init = tests.drop_last();
        let n = tests.last();
        assert(vstd::relations::sorted_by(init, lex_leq())) by {
            assert forall|i: int, j: int| 0 <= i < j < init.len() implies #[trigger] lex_leq()(init[i], init[j]) by {
                assert(init[i] == tests[i] && init[j] == tests[j]);
            }
        }
        lemma_examples_sorted(init);
        let e0 = example_tests(init);
        let e = example_tests(tests);
        assert(e == if is_example(n) { e0.push(n) } else { e0 });
        assert forall|i: int| 0 <= i < e.len() implies is_example(#[trigger] e[i]) && tests.contains(e[i]) by {
            if i < e0.len() {
                assert(e[i] == e0[i]);
                let k = choose|k: int| 0 <= k < init.len() && init[k] == e0[i];
                assert(tests[k] == init[k]);
            } else {
                assert(e[i] == n);
                assert(tests[tests.len() - 1] == n);
            }
        }
        assert forall|i: int, j: int| 0 <= i < j < e.len() implies lex_le(#[trigger] e[i], #[trigger] e[j]) by {
            if j < e0.len() {
                assert(e[i] == e0[i] && e[j] == e0[j]);
            } else {
                assert(e[j] == n && e[i] == e0[i]);
                let k = choose|k: int| 0 <= k < init.len() && init[k] == e0[i];
                assert(lex_leq()(tests[k], tests[tests.len() - 1]));
            }
        }
        assert forall|t: Seq<char>| tests.contains(t) && is_example(t) implies #[trigger] e.contains(t) by {
            let k = choose|k: int| 0 <= k < tests.len() && tests[k] == t;
            if k < init.len() {
                assert(init[k] == t);
                assert(init.contains(t));
                assert(e0.contains(t));
                let m = choose|m: int| 0 <= m < e0.len() && e0[m] == t;
                assert(e[m] == e0[m]);
                assert(e[m] == t);
            } else {
                assert(e[e.len() - 1] == t);
            }
        }
    } else {
        assert(example_tests(tests) =~= Seq::<Seq<char>>::empty());
    }
}

/// The examples of a loaded package are read from its example tests (names starting
/// with `_`) taken in ascending name order: the k-th example is the input and the
/// expected output of the k-th example name, and every example test of the listing
/// gives one.
pub proof fn law_examples_in_name_order(data: Seq<u8>)
    ensures
        load_spec(data) matches Ok((doc, exs)) ==> {
            let names = zip_listing(data)->0;
            let pre = prefix_spec(names);
            let found = tests_of(names, pre + in_dir_name());
            let ex = example_tests(listing_tests(names));
            &&& exs.len() == ex.len()
            &&& forall|k: int|
                0 <= k < ex.len() ==> zip_text(data, input_path(pre, #[trigger] ex[k])) == Some(
                    exs[k].0,
                ) && zip_text(data, output_path(pre, ex[k])) == Some(exs[k].1)
            &&& forall|i: int, j: int| 0 <= i < j < ex.len() ==> lex_le(#[trigger] ex[i], #[trigger] ex[j])
            &&& forall|i: int| 0 <= i < ex.len() ==> is_example(#[trigger] ex[i]) && found.contains(ex[i])
            &&& forall|t: Seq<char>| found.contains(t) && is_example(t) ==> #[trigger] ex.contains(t)
        },
{
    broadcast use vstd::seq_lib::group_to_multiset_ensures;
    if load_spec(data) is Ok {
        let names = zip_listing(data)->0;
        let pre = prefix_spec(names);
        let found = tests_of(names, pre + in_dir_name());
        let sorted = listing_tests(names);
        lemma_lex_total_ordering();
        found.lemma_sort_by_ensures(lex_leq());
        lemma_walk_reads(data, pre, sorted);
        lemma_examples_sorted(sorted);
        assert forall|t: Seq<char>| found.contains(t) implies #[trigger] sorted.contains(t) by {
            assert(found.to_multiset().count(t) > 0);
            assert(sorted.to_multiset().count(t) > 0);
        }
        assert forall|t: Seq<char>| sorted.contains(t) implies #[trigger] found.contains(t) by {
            assert(sorted.to_multiset().count(t) > 0);
            assert(found.to_multiset().count(t) > 0);
        }
    }
}

/// Each group holds non-example tests that start with its character, and only those.
pub proof fn law_members_start_with(tests: Seq<Seq<char>>, c: char)
    ensures
        forall|i: int| 0 <= i < members(tests, c).len() ==> {
            &&& (#[trigger] members(tests, c)[i]).len() > 0
            &&& members(tests, c)[i][0] == c
            &&& !is_example(members(tests, c)[i])
            &&& tests.contains(members(tests, c)[i])
        },
    decreases tests.len(),
{
    if tests.len() > 0 {
        law_members_start_with(tests.drop_last(), c);
        let m = members(tests.drop_last(), c);
        assert forall|i: int| 0 <= i < members(tests, c).len() implies {
            &&& (#[trigger] members(tests, c)[i]).len() > 0
            &&& members(tests, c)[i][0] == c
            &&& !is_example(members(tests, c)[i])
            &&& tests.contains(members(tests, c)[i])
        } by {
            if i < m.len() {
                assert(members(tests, c)[i] == m[i]);
                let k = choose|k: int| 0 <= k < tests.drop_last().len() && tests.drop_last()[k] == m[i];
                assert(tests[k] == m[i]);
            } else {
                assert(members(tests, c)[i] == tests.last());
                assert(tests[tests.len() - 1] == tests.last());
            }
        }
    }
}

} // verus!
