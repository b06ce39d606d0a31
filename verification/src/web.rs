//! What the web front reads out of requests and configuration: the token of
//! a websocket query string, the token of an `Authorization` header, the
//! server port, and the stored form of a password.
use vstd::prelude::*;
use crate::point::{all_digits, digits_value};

verus! {

// ---------------------------------------------------------------------------
// Query strings
// ---------------------------------------------------------------------------

/// The name/value pairs that `url::form_urlencoded::parse` reads from the
/// UTF-8 bytes of `query`, decoded, in order.
pub uninterp spec fn url_query_pairs(query: Seq<char>) -> Seq<(Seq<char>, Seq<char>)>;

/// `url::form_urlencoded::parse` on the bytes of `query`, each decoded name
/// and value made an owned `String`. Its result is named by `url_query_pairs`,
/// a function of the query text alone; what the decoding does is not stated.
#[verifier::external_body]
fn parse_query(query: &str) -> (r: Vec<(String, String)>)
    ensures
        r@.len() == url_query_pairs(query@).len(),
        forall|i: int|
            0 <= i < r@.len() ==> (#[trigger] r@[i].0@, r@[i].1@) == url_query_pairs(query@)[i],
{
    url::form_urlencoded::parse(query.as_bytes()).map(|(k, v)| (k.into_owned(), v.into_owned())).collect()
}

/// The value of the first pair, from position `i` on, whose name is `token`.
pub open spec fn first_token(pairs: Seq<(Seq<char>, Seq<char>)>, i: int) -> Option<Seq<char>>
    decreases pairs.len() - i,
{
    if i >= pairs.len() || i < 0 {
        None
    } else if pairs[i].0 == "token"@ {
        Some(pairs[i].1)
    } else {
        first_token(pairs, i + 1)
    }
}

/// Whether `a` and `b` hold the same text.
pub fn str_equals(a: &str, b: &str) -> (r: bool)
    ensures
        r == (a@ == b@),
{
    let n = a.unicode_len();
    if n != b.unicode_len() {
        return false;
    }
    let mut i: usize = 0;
    while i < n
        invariant
            n == a@.len(),
            n == b@.len(),
            i <= n,
            forall|j: int| 0 <= j < i ==> a@[j] == b@[j],
        decreases n - i,
    {
        if a.get_char(i) != b.get_char(i) {
            assert(a@[i as int] != b@[i as int]);
            return false;
        }
        i = i + 1;
    }
    assert(a@ =~= b@);
    true
}

/// The value of the first pair named `token`, if any.
pub fn token_from_pairs(pairs: &Vec<(String, String)>) -> (r: Option<String>)
    ensures
        match r {
            Some(t) => first_token(pairs@.map_values(|p: (String, String)| (p.0@, p.1@)), 0) == Some(t@),
            None => first_token(pairs@.map_values(|p: (String, String)| (p.0@, p.1@)), 0) is None,
        },
{
    let ghost view = pairs@.map_values(|p: (String, String)| (p.0@, p.1@));
    let name = "token";
    let n = pairs.len();
    let mut i: usize = 0;
    while i < n
        invariant
            n == pairs@.len(),
            view == pairs@.map_values(|p: (String, String)| (p.0@, p.1@)),
            name@ == "token"@,
            i <= n,
            first_token(view, 0) == first_token(view, i as int),
        decreases n - i,
    {
        if str_equals(pairs[i].0.as_str(), name) {
            return Some(pairs[i].1.clone());
        }
        i = i + 1;
    }
    None
}

/// The token of a websocket query string: the value of its first pair named `token`.
pub fn query_token(query: &str) -> (r: Option<String>)
    ensures
        match r {
            Some(t) => first_token(url_query_pairs(query@), 0) == Some(t@),
            None => first_token(url_query_pairs(query@), 0) is None,
        },
{
    let pairs = parse_query(query);
    proof {
        assert(pairs@.map_values(|p: (String, String)| (p.0@, p.1@)) =~= url_query_pairs(query@));
    }
    token_from_pairs(&pairs)
}

// ---------------------------------------------------------------------------
// Authorization header
// ---------------------------------------------------------------------------

/// The text `s` with every `"Bearer "` taken out, the occurrences found
/// from left to right without overlap (what `str::replace(s, "Bearer ", "")` gives).
pub open spec fn without_bearer(s: Seq<char>) -> Seq<char>
    decreases s.len(),
{
    if s.len() == 0 {
        s
    } else if s.len() >= 7 && s.take(7) == "Bearer "@ {
        without_bearer(s.skip(7))
    } else {
        seq![s[0]] + without_bearer(s.skip(1))
    }
}

/// The token of an `Authorization` header value: the value with every
/// `"Bearer "` taken out.
pub fn bearer_token(header: &str) -> (r: String)
    ensures
        r@ == without_bearer(header@),
{
    let pat = "Bearer ";
    proof {
        reveal_strlit("Bearer ");
    }
    let n = header.unicode_len();
    let mut out = String::new();
    let mut i: usize = 0;
    assert(header@.skip(0) =~= header@);
    assert(out@ + without_bearer(header@.skip(0)) =~= without_bearer(header@));
    while i < n
        invariant
            n == header@.len(),
            pat@ == "Bearer "@,
            pat@.len() == 7,
            i <= n,
            out@ + without_bearer(header@.skip(i as int)) == without_bearer(header@),
        decreases n - i,
    {
        let ghost rest = header@.skip(i as int);
        let mut matched = n - i >= 7;
        if matched {
            let mut k: usize = 0;
            while k < 7
                invariant
                    i + 7 <= n,
                    n == header@.len(),
                    pat@.len() == 7,
                    k <= 7,
                    matched == forall|j: int| 0 <= j < k ==> header@[i + j] == pat@[j],
                decreases 7 - k,
            {
                if header.get_char(i + k) != pat.get_char(k) {
                    matched = false;
                }
                k = k + 1;
            }
            proof {
                if matched {
                    assert(rest.take(7) =~= pat@);
                } else {
                    let j = choose|j: int| 0 <= j < 7 && header@[i + j] != pat@[j];
                    assert(rest.take(7)[j] != pat@[j]);
                }
            }
        }
        if matched {
            proof {
                assert(rest.skip(7) =~= header@.skip(i + 7));
            }
            i = i + 7;
        } else {
            let piece = header.substring_char(i, i + 1);
            out.append(piece);
            proof {
                assert(rest.skip(1) =~= header@.skip(i + 1));
                assert(piece@ =~= seq![rest[0]]);
                assert(out@ + without_bearer(header@.skip(i + 1)) =~= (out@.subrange(
                    0,
                    out@.len() - 1,
                )) + without_bearer(rest));
            }
            i = i + 1;
        }
    }
    proof {
        assert(header@.skip(n as int) =~= Seq::<char>::empty());
        assert(out@ =~= out@ + Seq::<char>::empty());
    }
    out
}

// ---------------------------------------------------------------------------
// Port
// ---------------------------------------------------------------------------

/// Whether `s` is the text of a `u16`, as `str::parse::<u16>` accepts it: an
/// optional `+`, at least one digit, and a value below 65536.
pub open spec fn is_u16_literal(s: Seq<char>) -> bool {
    let d = if s.len() > 0 && s[0] == '+' {
        s.drop_first()
    } else {
        s
    };
    d.len() > 0 && all_digits(d) && digits_value(d) <= 65535
}

/// The value of a `u16` literal.
pub open spec fn u16_value(s: Seq<char>) -> int {
    if s.len() > 0 && s[0] == '+' {
        digits_value(s.drop_first())
    } else {
        digits_value(s)
    }
}

/// The port that the text `s` names, as `str::parse::<u16>` reads it; `None`
/// when it is not a `u16`.
pub fn parse_port(s: &str) -> (r: Option<u16>)
    ensures
        r is Some <==> is_u16_literal(s@),
        r matches Some(v) ==> v == u16_value(s@),
{
    let n = s.unicode_len();
    if n == 0 {
        return None;
    }
    let start: usize = if s.get_char(0) == '+' {
        1
    } else {
        0
    };
    let ghost d = s@.skip(start as int);
    proof {
        if start == 1 {
            assert(d =~= s@.drop_first());
        } else {
            assert(d =~= s@);
        }
    }
    if start >= n {
        return None;
    }
    let mut v: u32 = 0;
    let mut k: usize = start;
    while k < n
        invariant
            n == s@.len(),
            start <= k <= n,
            d == s@.skip(start as int),
            d == (if s@.len() > 0 && s@[0] == '+' {
                s@.drop_first()
            } else {
                s@
            }),
            all_digits(d.take(k - start)),
            v as int == digits_value(d.take(k - start)),
            v <= 65535,
        decreases n - k,
    {
        let c = s.get_char(k);
        if c < '0' || c > '9' {
            proof {
                assert(d[k - start] == c);
                assert(!crate::point::is_digit(d[k - start]));
                assert(!all_digits(d));
                assert(!is_u16_literal(s@));
            }
            return None;
        }
        proof {
            assert(d.take(k - start + 1).drop_last() =~= d.take(k - start));
            assert(d[k - start] == c);
        }
        let digit: u32 = c as u32 - 48;
        let next: u32 = v * 10 + digit;
        if next > 65535 {
            proof {
                assert(digits_value(d.take(k - start + 1)) > 65535);
                if all_digits(d) {
                    crate::point::lemma_digits_prefix(d, k - start + 1);
                }
                assert(!is_u16_literal(s@));
            }
            return None;
        }
        v = next;
        k = k + 1;
        proof {
            assert forall|j: int| 0 <= j < k - start implies crate::point::is_digit(
                #[trigger] d.take(k - start)[j],
            ) by {
                if j < k - start - 1 {
                    assert(d.take(k - start)[j] == d.take(k - start - 1)[j]);
                }
            }
        }
    }
    proof {
        assert(d.take(n - start) =~= d);
    }
    Some(v as u16)
}

// ---------------------------------------------------------------------------
// Passwords
// ---------------------------------------------------------------------------

/// The SHA-256 hash of the UTF-8 bytes of `input`, in lowercase hexadecimal,
/// as `sha256::digest` gives it.
pub uninterp spec fn sha256_hex(input: Seq<char>) -> Seq<char>;

/// `sha256::digest` of the text `input`. Its result is named by `sha256_hex`,
/// a function of the text alone; the hash itself is not stated.
#[verifier::external_body]
fn sha256_digest(input: &str) -> (r: String)
    ensures
        r@ == sha256_hex(input@),
{
    sha256::digest(input)
}

/// The stored form of a password: its SHA-256 hash in hexadecimal.
pub fn password_digest(password: &str) -> (r: String)
    ensures
        r@ == sha256_hex(password@),
{
    sha256_digest(password)
}

} // verus!
