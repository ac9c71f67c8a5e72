//! Problems as the database stores them, and where their files lie.
use vstd::prelude::*;

use crate::text::{chars_of, has_prefix, push_chars, string_of, trim, trim_spec};

verus! {

/// The folder that holds the database and the packages.
pub const DATA: &'static str = "data";

/// A problem row.
pub struct Problem {
    pub id: i64,
    /// The public id, `<zip name>#<first 7 hex digits of its sha1sum>`.
    pub slug: String,
    pub title: String,
    /// Milliseconds.
    pub time_limit: i64,
    /// KiB.
    pub memory_limit: i64,
    pub created_at: String,
}

/// The order of a problem listing.
#[derive(PartialEq, Eq, Structural, Clone, Copy, Debug)]
pub enum Order {
    Id,
    Name,
}

/// `name` selects ordering by name; anything else (or nothing) by id.
pub fn search_order(order_by: Option<&str>) -> (o: Order)
    ensures
        o == (if order_by matches Some(s) && s@ == seq!['n', 'a', 'm', 'e'] {
            Order::Name
        } else {
            Order::Id
        }),
{
    match order_by {
        Some(s) => {
            let c = chars_of(s);
            if c.len() == 4 && c[0] == 'n' && c[1] == 'a' && c[2] == 'm' && c[3] == 'e' {
                assert(c@ =~= seq!['n', 'a', 'm', 'e']);
                Order::Name
            } else {
                assert(c@ != seq!['n', 'a', 'm', 'e']);
                Order::Id
            }
        },
        None => Order::Id,
    }
}

/// The text a search looks for: the query without surrounding white space.
pub fn search_text(q: &str) -> (r: String)
    ensures
        r@ == trim_spec(q@),
{
    let c = chars_of(q);
    let t = trim(c.as_slice());
    string_of(t.as_slice())
}

/// `data`, the folder that holds the database and the packages.
pub open spec fn data_dir() -> Seq<char> {
    seq!['d', 'a', 't', 'a']
}

/// `problems`
pub open spec fn problems_name() -> Seq<char> {
    seq!['p', 'r', 'o', 'b', 'l', 'e', 'm', 's']
}

/// `base` joined with `p` as `Path::join` does on Unix: an absolute `p` replaces
/// `base`; otherwise a `/` is put between them unless `base` is empty or already
/// ends in one.
pub open spec fn join(base: Seq<char>, p: Seq<char>) -> Seq<char> {
    if has_prefix(p, seq!['/']) {
        p
    } else if base.len() > 0 && base.last() != '/' {
        base + seq!['/'] + p
    } else {
        base + p
    }
}

fn join_chars(base: &[char], p: &[char]) -> (r: Vec<char>)
    ensures
        r@ == join(base@, p@),
{
    let mut r: Vec<char> = Vec::new();
    if p.len() > 0 && p[0] == '/' {
        assert(p@.take(1) =~= seq!['/']);
        push_chars(&mut r, p);
        return r;
    }
    assert(!has_prefix(p@, seq!['/'])) by {
        if p@.len() > 0 {
            assert(p@.take(1)[0] == p@[0]);
        }
    }
    push_chars(&mut r, base);
    if base.len() > 0 && base[base.len() - 1] != '/' {
        r.push('/');
    }
    push_chars(&mut r, p);
    r
}

/// The path of the files of problem `slug`: `data/problems/<slug>` joined as paths.
pub fn problem_dir(slug: &str) -> (r: String)
    ensures
        r@ == join(join(data_dir(), problems_name()), slug@),
{
    let data = vec!['d', 'a', 't', 'a'];
    let problems = vec!['p', 'r', 'o', 'b', 'l', 'e', 'm', 's'];
    assert(data@ =~= data_dir() && problems@ =~= problems_name());
    let base = join_chars(data.as_slice(), problems.as_slice());
    let s = chars_of(slug);
    let r = join_chars(base.as_slice(), s.as_slice());
    string_of(r.as_slice())
}

/// The path of the archive of problem `id`: `data/problems/<id>.zip`.
pub fn problem_zip(id: &str) -> (r: String)
    ensures
        r@ == join(join(data_dir(), problems_name()), id@ + seq!['.', 'z', 'i', 'p']),
{
    let data = vec!['d', 'a', 't', 'a'];
    let problems = vec!['p', 'r', 'o', 'b', 'l', 'e', 'm', 's'];
    assert(data@ =~= data_dir() && problems@ =~= problems_name());
    let base = join_chars(data.as_slice(), problems.as_slice());
    let mut name = chars_of(id);
    push_chars(&mut name, &['.', 'z', 'i', 'p']);
    assert(name@ =~= id@ + seq!['.', 'z', 'i', 'p']);
    let r = join_chars(base.as_slice(), name.as_slice());
    string_of(r.as_slice())
}


/// The files of a problem whose slug is a relative name lie in `data/problems/`.
pub proof fn law_problem_dir_relative(slug: Seq<char>)
    requires
        !has_prefix(slug, seq!['/']),
    ensures
        join(join(data_dir(), problems_name()), slug) == data_dir() + seq!['/'] + problems_name() + seq!['/']
            + slug,
{
    assert(!has_prefix(problems_name(), seq!['/'])) by {
        assert(problems_name().take(1)[0] == 'p');
    }
    let base = join(data_dir(), problems_name());
    assert(base == data_dir() + seq!['/'] + problems_name());
    assert(base.last() == 's');
}

} // verus!
