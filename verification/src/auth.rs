//! Sessions and passwords.
use vstd::prelude::*;
use vstd::utf8::encode_utf8;

use scrypt::password_hash::PasswordVerifier;
use scrypt::phc::PasswordHash;
use scrypt::Scrypt;
use sha2::{Digest, Sha256};

use crate::text::{
    chars_of, find, find_chars, has_prefix, hex_char, hex_digit, hex_lower, is_space, lemma_find,
    occurs_at, push_chars, split_chars, split_spec, lemma_split_join, lemma_split_plain, starts_with, string_of, trim, trim_spec, vviews,
};
use vstd::arithmetic::power2::{lemma2_to64, lemma2_to64_rest, lemma_pow2_strictly_increases, lemma_pow2_unfold, pow2};

verus! {

#[verifier::external_type_specification]
#[verifier::external_body]
pub struct ExRandomError(getrandom::Error);

/// The name of the session cookie.
pub const COOKIE: &'static str = "session";

/// How long a session lasts, in seconds (30 days).
pub const MAX_AGE: i64 = 30 * 24 * 60 * 60;

/// A well-formed scrypt hash that no password is checked against for real: it
/// stands in for a missing hash so that a login takes as long either way.
const DUMMY: &'static str = "$scrypt$ln=15,r=8,p=1$PkRCLhTptyR4I3T4eKN/Og$vktc3prdhEkcE62dBl4Jky7BB5j4E8qTbl+P+25NI5g";

/// A user account.
pub struct User {
    pub id: i64,
    pub name: String,
}

/// The user a request is made by, if it carries a valid session.
pub struct Me(pub Option<User>);

// ---------------------------------------------------------------------------
// Cookies

/// A header byte that `HeaderValue::to_str` accepts: visible ASCII or tab.
pub open spec fn visible(b: u8) -> bool {
    (32 <= b && b < 127) || b == 9
}

/// The text of a header value, or `None` where it holds a byte that is not visible ASCII.
pub open spec fn header_text(bytes: Seq<u8>) -> Option<Seq<char>> {
    if forall|i: int| 0 <= i < bytes.len() ==> visible(#[trigger] bytes[i]) {
        Some(bytes.map_values(|b: u8| b as char))
    } else {
        None
    }
}

/// The value of `name` in one `;`-separated piece `key=value` (trimmed).
pub open spec fn pair_value(seg: Seq<char>, name: Seq<char>) -> Option<Seq<char>> {
    let t = trim_spec(seg);
    match find(t, seq!['=']) {
        Some(j) => if t.take(j) == name {
            Some(t.skip(j + 1))
        } else {
            None
        },
        None => None,
    }
}

/// The value of the first piece of `raw` whose key is `name`.
pub open spec fn cookie_scan(raw: Seq<char>, name: Seq<char>) -> Option<Seq<char>>
    decreases raw.len(),
{
    match find(raw, seq![';']) {
        None => pair_value(raw, name),
        Some(k) => match pair_value(raw.take(k), name) {
            Some(v) => Some(v),
            None => if 0 <= k < raw.len() {
                cookie_scan(raw.skip(k + 1), name)
            } else {
                None
            },
        },
    }
}

/// The value of cookie `name` in a `Cookie` header (`None` when there is no header).
pub open spec fn cookie_spec(header: Option<Seq<u8>>, name: Seq<char>) -> Option<Seq<char>> {
    match header {
        None => None,
        Some(b) => match header_text(b) {
            None => None,
            Some(raw) => cookie_scan(raw, name),
        },
    }
}

fn text_of_header(bytes: &[u8]) -> (r: Option<Vec<char>>)
    ensures
        match r {
            Some(v) => header_text(bytes@) == Some(v@),
            None => header_text(bytes@) is None,
        },
{
    let mut v: Vec<char> = Vec::new();
    let mut i: usize = 0;
    while i < bytes.len()
        invariant
            i <= bytes.len(),
            forall|k: int| 0 <= k < i ==> visible(#[trigger] bytes@[k]),
            v@ == bytes@.take(i as int).map_values(|b: u8| b as char),
        decreases bytes.len() - i,
    {
        let b = bytes[i];
        if !((32 <= b && b < 127) || b == 9) {
            assert(!visible(bytes@[i as int]));
            return None;
        }
        v.push(b as char);
        i += 1;
        assert(v@ =~= bytes@.take(i as int).map_values(|b: u8| b as char));
    }
    assert(bytes@.take(bytes.len() as int) =~= bytes@);
    Some(v)
}

fn value_in(seg: &[char], name: &[char]) -> (r: Option<Vec<char>>)
    ensures
        match r {
            Some(v) => pair_value(seg@, name@) == Some(v@),
            None => pair_value(seg@, name@) is None,
        },
{
    let t = trim(seg);
    let eq = vec!['='];
    assert(eq@ =~= seq!['=']);
    match find_chars(t.as_slice(), eq.as_slice(), 0) {
        None => None,
        Some(j) => {
            proof {
                lemma_find(t@, seq!['=']);
            }
            assert(j < t.len());
            let key = &t.as_slice()[0..j];
            assert(key@ == t@.take(j as int));
            if crate::text::eq_chars(key, name) {
                let mut v: Vec<char> = Vec::new();
                push_chars(&mut v, &t.as_slice()[j + 1..t.len()]);
                assert(v@ == t@.skip(j + 1));
                Some(v)
            } else {
                None
            }
        },
    }
}

/// The value of cookie `name` in the raw `Cookie` header of a request, if any:
/// the header must be visible ASCII, and of its `;`-separated pieces the first one
/// that reads `name=value` (white space trimmed) gives the value.
#[verifier::loop_isolation(false)]
pub fn cookie(header: Option<&[u8]>, name: &str) -> (r: Option<String>)
    ensures
        opt_string(r) == cookie_spec(
            match header {
                Some(h) => Some(h@),
                None => None,
            },
            name@,
        ),
{
    let bytes = match header {
        None => return None,
        Some(b) => b,
    };
    let raw = match text_of_header(bytes) {
        None => return None,
        Some(v) => v,
    };
    let n = chars_of(name);
    let semi = vec![';'];
    assert(semi@ =~= seq![';']);
    let mut rest: &[char] = raw.as_slice();
    loop
        invariant
            semi@ == seq![';'],
            cookie_scan(raw@, n@) == cookie_scan(rest@, n@),
            n@ == name@,
        decreases rest@.len(),
    {
        match find_chars(rest, semi.as_slice(), 0) {
            None => {
                let v = value_in(rest, n.as_slice());
                return match v {
                    Some(v) => Some(string_of(v.as_slice())),
                    None => None,
                };
            },
            Some(k) => {
                proof {
                    lemma_find(rest@, seq![';']);
                }
                let seg = &rest[0..k];
                assert(seg@ == rest@.take(k as int));
                match value_in(seg, n.as_slice()) {
                    Some(v) => return Some(string_of(v.as_slice())),
                    None => {},
                }
                let rlen = rest.len();
                let next = &rest[k + 1..rlen];
                assert(next@ == rest@.skip(k + 1));
                rest = next;
            },
        }
    }
}

/// The view of an optional string.
pub open spec fn opt_string(o: Option<String>) -> Option<Seq<char>> {
    match o {
        Some(s) => Some(s@),
        None => None,
    }
}

// ---------------------------------------------------------------------------
// Tokens

/// The SHA-256 digest of `data`.
pub uninterp spec fn sha256_digest(data: Seq<u8>) -> Seq<u8>;

/// Calls `Sha256::digest`. Claims the result is the (named) digest of the input,
/// 32 bytes long as its output type says.
#[verifier::external_body]
fn sha256(data: &[u8]) -> (r: Vec<u8>)
    ensures
        r@ == sha256_digest(data@),
        r@.len() == 32,
{
    Sha256::digest(data).to_vec()
}

/// Calls `getrandom::fill` on 32 bytes. Nothing is claimed of the bytes.
#[verifier::external_body]
fn fill_random(dest: &mut [u8; 32]) -> (r: Result<(), getrandom::Error>) {
    getrandom::fill(dest)
}

/// Lower-case hex encoding of `bytes`.
pub fn hex(bytes: &[u8]) -> (s: String)
    ensures
        s@ == hex_lower(bytes@),
{
    let mut out: Vec<char> = Vec::new();
    let mut i: usize = 0;
    while i < bytes.len()
        invariant
            i <= bytes.len(),
            out@ == hex_lower(bytes@.take(i as int)),
        decreases bytes.len() - i,
    {
        let b = bytes[i];
        out.push(hex_char(b / 16, false));
        out.push(hex_char(b % 16, false));
        i += 1;
        assert(bytes@.take(i as int).drop_last() == bytes@.take(i - 1));
    }
    assert(bytes@.take(bytes.len() as int) == bytes@);
    string_of(out.as_slice())
}


/// What is stored of a session token: the lower-case hex of the SHA-256 of its text.
pub fn hash_token(token: &str) -> (r: String)
    ensures
        r@ == hex_lower(sha256_digest(encode_utf8(token@))),
        r@.len() == 64,
        forall|i: int| 0 <= i < r@.len() ==> lower_hex_char(#[trigger] r@[i]),
{
    let d = sha256(token.as_bytes());
    proof {
        law_hex_shape(d@);
    }
    hex(d.as_slice())
}

/// A fresh session token: 32 random bytes in lower-case hex, or `None` where the
/// system offers no randomness.
pub fn new_token() -> (r: Option<String>)
    ensures
        r matches Some(t) ==> exists|b: Seq<u8>| b.len() == 32 && t@ == hex_lower(b),
        r matches Some(t) ==> t@.len() == 64 && forall|i: int| 0 <= i < t@.len() ==> lower_hex_char(#[trigger] t@[i]),
{
    let mut bytes = [0u8; 32];
    match fill_random(&mut bytes) {
        Err(_) => None,
        Ok(()) => {
            let t = hex(bytes.as_slice());
            assert(bytes@.len() == 32);
            proof {
                law_hex_shape(bytes@);
            }
            Some(t)
        },
    }
}


/// The session key a request is looked up by: the stored form ([`hash_token`]) of
/// its session cookie, or `None` when it carries none.
pub fn session_key(header: Option<&[u8]>) -> (r: Option<String>)
    ensures
        opt_string(r) == match cookie_spec(
            match header {
                Some(h) => Some(h@),
                None => None,
            },
            COOKIE@,
        ) {
            Some(t) => Some(hex_lower(sha256_digest(encode_utf8(t)))),
            None => None,
        },
{
    match cookie(header, COOKIE) {
        None => None,
        Some(token) => Some(hash_token(token.as_str())),
    }
}

// ---------------------------------------------------------------------------
// Passwords

/// Whether every character of `v` is an ASCII digit.
pub open spec fn all_digits(v: Seq<char>) -> bool {
    forall|i: int| 0 <= i < v.len() ==> '0' <= #[trigger] v[i] <= '9'
}

/// The number that the ASCII digits `v` write in base ten.
pub open spec fn digits_value(v: Seq<char>) -> nat
    decreases v.len(),
{
    if v.len() == 0 {
        0
    } else {
        digits_value(v.drop_last()) * 10 + (v.last() as int - '0' as int) as nat
    }
}

/// The number a PHC parameter value stands for where it is a decimal as the PHC
/// format writes one (digits, no leading zero) that fits in 32 bits.
pub open spec fn phc_decimal(v: Seq<char>) -> Option<nat> {
    if 0 < v.len() <= 10 && all_digits(v) && (v.len() == 1 || v[0] != '0') && digits_value(v)
        < 0x1_0000_0000 {
        Some(digits_value(v))
    } else {
        None
    }
}

/// What the parameter `piece` sets `name` to, where it is `name=value` with a decimal value.
pub open spec fn param_value(piece: Seq<char>, name: Seq<char>) -> Option<nat> {
    let n = name.len() as int;
    if piece.len() > n && piece.take(n) == name && piece[n] == '=' {
        phc_decimal(piece.skip(n + 1))
    } else {
        None
    }
}

/// What the last of `pieces` that sets `name` sets it to, or `default` where none does.
pub open spec fn param_last(pieces: Seq<Seq<char>>, name: Seq<char>, default: nat) -> nat
    decreases pieces.len(),
{
    if pieces.len() == 0 {
        default
    } else {
        match param_value(pieces.last(), name) {
            Some(v) => v,
            None => param_last(pieces.drop_last(), name, default),
        }
    }
}

/// The parameter field of a PHC string `$id$params$salt$hash`: its third `$`-piece.
pub open spec fn phc_params(phc: Seq<char>) -> Seq<char> {
    let f = split_spec(phc, '$');
    if f.len() > 2 {
        f[2]
    } else {
        Seq::empty()
    }
}

/// Whether scrypt can take in the cost that the PHC string `phc` asks for. With `ln`,
/// `r` and `p` as the last pairs of its parameter field set them (else 17, 8 and 1):
/// r·p stays below 2^30, `ln` below 64, and the buffers of 128·r·2^ln and 128·r·p
/// bytes that scrypt allocates fit in an `isize`.
pub open spec fn scrypt_cost_fits(phc: Seq<char>) -> bool {
    let ps = split_spec(phc_params(phc), ',');
    let ln = param_last(ps, seq!['l', 'n'], 17);
    let r = param_last(ps, seq!['r'], 8);
    let p = param_last(ps, seq!['p'], 1);
    &&& r * p < 0x4000_0000
    &&& ln < 64
    &&& 128 * r * pow2(ln) <= isize::MAX
    &&& 128 * r * p <= isize::MAX
}

proof fn lemma_digits_prefix(v: Seq<char>, k: int)
    requires
        0 <= k <= v.len(),
        all_digits(v),
    ensures
        digits_value(v.take(k)) <= digits_value(v),
    decreases v.len(),
{
    if k < v.len() {
        assert(v.drop_last().take(k) =~= v.take(k));
        lemma_digits_prefix(v.drop_last(), k);
    } else {
        assert(v.take(k) =~= v);
    }
}

/// The PHC decimal `v[from..]` ([`phc_decimal`]).
fn decimal_at(v: &[char], from: usize) -> (r: Option<u64>)
    requires
        from <= v.len(),
    ensures
        match r {
            Some(x) => phc_decimal(v@.skip(from as int)) == Some(x as nat),
            None => phc_decimal(v@.skip(from as int)) is None,
        },
{
    let ghost d = v@.skip(from as int);
    let len = v.len() - from;
    if len == 0 || len > 10 {
        return None;
    }
    if len > 1 && v[from] == '0' {
        assert(d[0] == '0');
        return None;
    }
    let mut x: u64 = 0;
    let mut i: usize = from;
    while i < v.len()
        invariant
            from <= i <= v.len(),
            d == v@.skip(from as int),
            all_digits(d.take(i - from)),
            x == digits_value(d.take(i - from)),
            x < 0x1_0000_0000,
        decreases v.len() - i,
    {
        let c = v[i];
        let k = i - from;
        assert(d[k as int] == c);
        if c < '0' || c > '9' {
            assert(!all_digits(d));
            return None;
        }
        assert(d.take(k + 1).drop_last() =~= d.take(k as int));
        x = x * 10 + ((c as u32) - ('0' as u32)) as u64;
        i += 1;
        assert(all_digits(d.take(i - from)));
        if x >= 0x1_0000_0000 {
            proof {
                if all_digits(d) {
                    lemma_digits_prefix(d, i - from);
                }
            }
            return None;
        }
    }
    assert(d.take(d.len() as int) =~= d);
    Some(x)
}

/// What the parameter `piece` sets `name` to ([`param_value`]).
fn param_at(piece: &[char], name: &[char]) -> (r: Option<u64>)
    ensures
        match r {
            Some(x) => param_value(piece@, name@) == Some(x as nat),
            None => param_value(piece@, name@) is None,
        },
{
    let n = name.len();
    if piece.len() > n && starts_with(piece, name) && piece[n] == '=' {
        decimal_at(piece, n + 1)
    } else {
        None
    }
}

/// The parameter `name` as the last of `pieces` that sets it gives it, or `default`.
fn param_in(pieces: &Vec<Vec<char>>, name: &[char], default: u64) -> (r: u64)
    requires
        default < 0x1_0000_0000,
    ensures
        r == param_last(vviews(pieces@), name@, default as nat),
        r < 0x1_0000_0000,
{
    let mut r: u64 = default;
    let mut i: usize = 0;
    let ghost ps = vviews(pieces@);
    assert(ps.take(0) =~= Seq::<Seq<char>>::empty());
    while i < pieces.len()
        invariant
            i <= pieces.len(),
            ps == vviews(pieces@),
            default < 0x1_0000_0000,
            r == param_last(ps.take(i as int), name@, default as nat),
            r < 0x1_0000_0000,
        decreases pieces.len() - i,
    {
        assert(ps.take(i + 1).drop_last() =~= ps.take(i as int));
        assert(ps.take(i + 1).last() == pieces@[i as int]@);
        match param_at(pieces[i].as_slice(), name) {
            Some(x) => {
                r = x;
            },
            None => {},
        }
        i += 1;
    }
    assert(ps.take(pieces.len() as int) =~= ps);
    r
}

/// Whether scrypt can take in the cost that the PHC string `phc` asks for
/// ([`scrypt_cost_fits`]).
pub fn scrypt_cost_ok(phc: &str) -> (r: bool)
    ensures
        r == scrypt_cost_fits(phc@),
{
    let chars = chars_of(phc);
    let fields = split_chars(chars.as_slice(), '$');
    let none: Vec<char> = Vec::new();
    let params: &[char] = if fields.len() > 2 {
        fields[2].as_slice()
    } else {
        none.as_slice()
    };
    assert(params@ == phc_params(phc@));
    let pieces = split_chars(params, ',');
    let mut name: Vec<char> = Vec::new();
    name.push('l');
    name.push('n');
    assert(name@ =~= seq!['l', 'n']);
    let ln = param_in(&pieces, name.as_slice(), 17);
    let mut name: Vec<char> = Vec::new();
    name.push('r');
    assert(name@ =~= seq!['r']);
    let r = param_in(&pieces, name.as_slice(), 8);
    let mut name: Vec<char> = Vec::new();
    name.push('p');
    assert(name@ =~= seq!['p']);
    let p = param_in(&pieces, name.as_slice(), 1);
    assert(r * p < 0x1_0000_0000 * 0x1_0000_0000) by (nonlinear_arith)
        requires
            r < 0x1_0000_0000,
            p < 0x1_0000_0000,
    ;
    if r * p >= 0x4000_0000 || ln >= 64 {
        return false;
    }
    let r128: u128 = 128 * (r as u128);
    assert(r128 * p < 0x100_0000_0000 * 0x1_0000_0000) by (nonlinear_arith)
        requires
            r128 < 0x100_0000_0000,
            p < 0x1_0000_0000,
    ;
    if r128 * (p as u128) > isize::MAX as u128 {
        return false;
    }
    let mut m: u128 = r128;
    let mut k: u64 = 0;
    proof {
        lemma2_to64();
        lemma2_to64_rest();
    }
    while k < ln
        invariant
            k <= ln < 64,
            r128 == 128 * r,
            r < 0x1_0000_0000,
            m == r128 * pow2(k as nat),
            pow2(63) == 0x8000_0000_0000_0000,
        decreases ln - k,
    {
        proof {
            lemma_pow2_strictly_increases(k as nat, 63);
            lemma_pow2_unfold((k + 1) as nat);
            assert(r128 * pow2(k as nat) * 2 < 0x1_0000_0000_0000_0000_0000_0000_0000_0000)
                by (nonlinear_arith)
                requires
                    r128 < 0x100_0000_0000,
                    pow2(k as nat) < 0x8000_0000_0000_0000,
            ;
            assert(r128 * pow2((k + 1) as nat) == r128 * pow2(k as nat) * 2) by (nonlinear_arith)
                requires
                    pow2((k + 1) as nat) == 2 * pow2(k as nat),
            ;
        }
        m = m * 2;
        k += 1;
    }
    m <= isize::MAX as u128
}

/// What checking `password` against the PHC string `phc` with scrypt gives: `None`
/// where `phc` is not a PHC hash string, else whether the password matches.
pub uninterp spec fn scrypt_check(password: Seq<u8>, phc: Seq<char>) -> Option<bool>;

/// Calls `PasswordHash::new` on `phc` (its error gives `None`) and
/// `Scrypt::new().verify_password` with the parsed hash. Claims the result is the (named)
/// outcome for these arguments. Only text whose cost scrypt can take in
/// ([`scrypt_cost_fits`]) is admitted: past it, scrypt's parameter check multiplies
/// `r * p` in `u32` and overflows, or a buffer is asked past `isize::MAX`; either
/// panics. (Where the parse gets that far, every `ln`, `r` and `p` pair of the
/// parameter field is such a decimal and the last one counts, so those are the values
/// scrypt uses.) Left unsaid: a cost that asks for more memory than the machine has
/// does not return.
#[verifier::external_body]
fn check_password(password: &[u8], phc: &str) -> (r: Option<bool>)
    requires
        scrypt_cost_fits(phc@),
    ensures
        r == scrypt_check(password@, phc@),
{
    let parsed = PasswordHash::new(phc).ok()?;
    Some(Scrypt::new().verify_password(password, &parsed).is_ok())
}

/// Whether `password` matches the stored `hash`. Without a stored hash the password
/// is still checked, against [`DUMMY`], and the answer is `false`. A hash whose cost
/// scrypt cannot take in ([`scrypt_cost_fits`]) matches no password.
pub fn verify(password: &str, hash: Option<&str>) -> (r: bool)
    ensures
        r == (hash matches Some(h) && scrypt_cost_fits(h@) && scrypt_check(
            encode_utf8(password@),
            h@,
        ) == Some(true)),
{
    let stored = hash.is_some();
    let phc = match hash {
        Some(h) => h,
        None => DUMMY,
    };
    if !scrypt_cost_ok(phc) {
        return false;
    }
    match check_password(password.as_bytes(), phc) {
        None => false,
        Some(ok) => stored && ok,
    }
}


// ---------------------------------------------------------------------------
// Laws

/// A lower-case hex digit.
pub open spec fn lower_hex_char(c: char) -> bool {
    ('0' <= c && c <= '9') || ('a' <= c && c <= 'f')
}

/// Hex text is two lower-case hex digits per byte.
pub proof fn law_hex_shape(b: Seq<u8>)
    ensures
        hex_lower(b).len() == 2 * b.len(),
        forall|i: int| 0 <= i < hex_lower(b).len() ==> lower_hex_char(#[trigger] hex_lower(b)[i]),
    decreases b.len(),
{
    if b.len() > 0 {
        law_hex_shape(b.drop_last());
        let a = hex_lower(b.drop_last());
        let x = b.last();
        assert(hex_lower(b) == a + seq![hex_digit((x / 16) as int, false), hex_digit((x % 16) as int, false)]);
        assert forall|i: int| 0 <= i < hex_lower(b).len() implies lower_hex_char(#[trigger] hex_lower(b)[i]) by {
            if i < a.len() {
                assert(hex_lower(b)[i] == a[i]);
            }
        }
    }
}

proof fn lemma_trim_plain(s: Seq<char>)
    requires
        s.len() > 0,
        !is_space(s[0]),
        !is_space(s.last()),
    ensures
        trim_spec(s) == s,
{
}

/// The piece `seg` of a `Cookie` header, white space trimmed, is a pair whose key is
/// exactly `name`: it reads `name=` and then the value.
pub open spec fn keyed(seg: Seq<char>, name: Seq<char>) -> bool {
    has_prefix(trim_spec(seg), name + seq!['='])
}

proof fn lemma_pair_value(seg: Seq<char>, name: Seq<char>)
    requires
        !name.contains('='),
    ensures
        pair_value(seg, name) is Some <==> keyed(seg, name),
        pair_value(seg, name) matches Some(v) ==> trim_spec(seg) == name + seq!['='] + v,
{
    let t = trim_spec(seg);
    let key = name + seq!['='];
    lemma_find(t, seq!['=']);
    if keyed(seg, name) {
        assert(t.take(key.len() as int) == key);
        assert(occurs_at(t, seq!['='], name.len() as int)) by {
            assert(t.subrange(name.len() as int, name.len() + 1int) =~= seq!['=']) by {
                assert(t[name.len() as int] == t.take(key.len() as int)[name.len() as int]);
            }
        }
        let j = find(t, seq!['='])->0;
        if j < name.len() {
            assert(t.subrange(j, j + 1)[0] == t[j]);
            assert(t[j] == t.take(key.len() as int)[j]);
            assert(name[j] == '=');
            assert(name.contains('='));
        }
        assert(j == name.len());
        assert(t.take(j) =~= name) by {
            assert forall|i: int| 0 <= i < j implies t.take(j)[i] == name[i] by {
                assert(t[i] == t.take(key.len() as int)[i]);
            }
        }
        assert(t =~= name + seq!['='] + t.skip(j + 1)) by {
            assert(t[j] == t.take(key.len() as int)[j]);
        }
    }
    match pair_value(seg, name) {
        Some(v) => {
            let j = find(t, seq!['='])->0;
            assert(t.subrange(j, j + 1)[0] == t[j]);
            assert(t =~= name + seq!['='] + v);
            assert(t.take(key.len() as int) =~= key);
        },
        None => {},
    }
}

/// The cookie read from a `Cookie` header is the value of its first piece whose key
/// is exactly the name asked for: a piece whose key merely ends or starts with the
/// name is passed over, and where no piece has the name there is no value. (The
/// name holds no `=`, as a cookie name cannot.)
pub proof fn law_cookie_first_exact_key(raw: Seq<char>, name: Seq<char>)
    requires
        !name.contains('='),
    ensures
        match cookie_scan(raw, name) {
            Some(v) => exists|i: int|
                0 <= i < split_spec(raw, ';').len() && trim_spec(#[trigger] split_spec(raw, ';')[i])
                    == name + seq!['='] + v && forall|j: int|
                    0 <= j < i ==> !keyed(#[trigger] split_spec(raw, ';')[j], name),
            None => forall|i: int|
                0 <= i < split_spec(raw, ';').len() ==> !keyed(#[trigger] split_spec(raw, ';')[i], name),
        },
    decreases raw.len(),
{
    let pieces = split_spec(raw, ';');
    lemma_find(raw, seq![';']);
    match find(raw, seq![';']) {
        None => {
            assert(!raw.contains(';')) by {
                if raw.contains(';') {
                    let k = choose|k: int| 0 <= k < raw.len() && raw[k] == ';';
                    assert(raw.subrange(k, k + 1) =~= seq![';']);
                    assert(occurs_at(raw, seq![';'], k));
                }
            }
            lemma_split_plain(raw, ';');
            lemma_pair_value(raw, name);
            assert(pieces[0] == raw);
            match cookie_scan(raw, name) {
                Some(v) => {
                    assert(trim_spec(pieces[0]) == name + seq!['='] + v);
                },
                None => {},
            }
        },
        Some(k) => {
            let x = raw.take(k);
            let y = raw.skip(k + 1);
            assert(raw.subrange(k, k + 1)[0] == raw[k]);
            assert(raw =~= x + seq![';'] + y);
            assert(!x.contains(';')) by {
                if x.contains(';') {
                    let m = choose|m: int| 0 <= m < x.len() && x[m] == ';';
                    assert(raw.subrange(m, m + 1) =~= seq![';']);
                    assert(occurs_at(raw, seq![';'], m));
                }
            }
            lemma_split_join(x, y, ';');
            lemma_split_plain(x, ';');
            assert(pieces =~= seq![x] + split_spec(y, ';'));
            assert(pieces[0] == x);
            lemma_pair_value(x, name);
            match pair_value(x, name) {
                Some(v) => {
                    assert(trim_spec(pieces[0]) == name + seq!['='] + v);
                },
                None => {
                    law_cookie_first_exact_key(y, name);
                    let ys = split_spec(y, ';');
                    assert forall|i: int| 0 < i < pieces.len() implies pieces[i] == ys[i - 1] by {}
                    match cookie_scan(y, name) {
                        Some(v) => {
                            let i = choose|i: int|
                                0 <= i < ys.len() && trim_spec(#[trigger] ys[i]) == name + seq!['='] + v
                                    && forall|j: int| 0 <= j < i ==> !keyed(#[trigger] ys[j], name);
                            assert(pieces[i + 1] == ys[i]);
                            assert forall|j: int| 0 <= j < i + 1 implies !keyed(#[trigger] pieces[j], name) by {
                                if j > 0 {
                                    assert(pieces[j] == ys[j - 1]);
                                }
                            }
                        },
                        None => {
                            assert forall|i: int| 0 <= i < pieces.len() implies !keyed(#[trigger] pieces[i], name) by {
                                if i > 0 {
                                    assert(pieces[i] == ys[i - 1]);
                                }
                            }
                        },
                    }
                },
            }
        },
    }
}

/// A `Cookie` header that is just `name=value` gives `value` for `name`, where the
/// name holds no `=` and neither holds `;`, and the header neither starts nor ends
/// with white space.
pub proof fn law_cookie_single(name: Seq<char>, value: Seq<char>)
    requires
        name.len() > 0,
        !is_space(name[0]),
        !name.contains('='),
        !name.contains(';'),
        !value.contains(';'),
        value.len() > 0 ==> !is_space(value.last()),
    ensures
        cookie_scan(name + seq!['='] + value, name) == Some(value),
{
    let raw = name + seq!['='] + value;
    lemma_find(raw, seq![';']);
    assert(find(raw, seq![';']) is None) by {
        if find(raw, seq![';']) is Some {
            let k = find(raw, seq![';'])->0;
            assert(raw.subrange(k, k + 1)[0] == raw[k]);
            if k < name.len() {
                assert(raw[k] == name[k]);
                assert(name.contains(';'));
            } else if k > name.len() {
                assert(raw[k] == value[k - name.len() - 1]);
                assert(value.contains(';'));
            }
        }
    }
    assert(raw[0] == name[0]);
    assert(raw.last() == if value.len() > 0 { value.last() } else { '=' });
    lemma_trim_plain(raw);
    lemma_find(raw, seq!['=']);
    assert(occurs_at(raw, seq!['='], name.len() as int)) by {
        assert(raw.subrange(name.len() as int, name.len() + 1 as int) =~= seq!['=']);
    }
    let j = find(raw, seq!['='])->0;
    if j < name.len() {
        assert(raw.subrange(j, j + 1)[0] == raw[j]);
        assert(raw[j] == name[j]);
        assert(name.contains('='));
    }
    assert(j == name.len());
    assert(raw.take(j) =~= name);
    assert(raw.skip(j + 1) =~= value);
}

} // verus!
