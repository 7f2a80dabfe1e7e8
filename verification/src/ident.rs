//! Per-invocation identifiers: the per-checkout token appended to image tags,
//! decimal rendering for the cache-busting value, and file-name extraction.
use vstd::prelude::*;
use vstd::string::StrSliceExecFns;
use vstd::string::StringExecFns;
use sha2::Digest;

verus! {

/// The SHA-512 digest of a text.
pub uninterp spec fn sha512_of(s: Seq<char>) -> Seq<u8>;

/// Relies on sha2's `Sha512` through `Digest::digest`: the digest depends on
/// the input alone and is 64 bytes long.
#[verifier::external_body]
fn sha512_digest(s: &str) -> (r: Vec<u8>)
    ensures
        r@ == sha512_of(s@),
        r@.len() == 64,
{
    sha2::Sha512::digest(s.as_bytes()).to_vec()
}

/// The lowercase hexadecimal digit for a value below sixteen.
pub open spec fn hex_digit(n: u8) -> char {
    if n < 10 {
        (48 + n) as char
    } else {
        (87 + n) as char
    }
}

/// The lowercase hexadecimal rendering of a byte string, two digits per byte,
/// high digit first.
pub open spec fn hex_of(b: Seq<u8>) -> Seq<char> {
    Seq::new(
        b.len() * 2,
        |i: int|
            if i % 2 == 0 {
                hex_digit(b[i / 2] / 16)
            } else {
                hex_digit(b[i / 2] % 16)
            },
    )
}

/// Hexadecimal digits are ASCII.
pub proof fn lemma_hex_ascii(b: Seq<u8>)
    ensures
        vstd::utf8::is_ascii_chars(hex_of(b)),
{
    assert forall|i: int| 0 <= i < hex_of(b).len() implies '\0' <= #[trigger] hex_of(b)[i]
        <= '\u{7f}' by {
        let n = if i % 2 == 0 {
            b[i / 2] / 16
        } else {
            b[i / 2] % 16
        };
        assert(n < 16);
    }
}

/// Relies on hex::encode: lowercase hexadecimal, two digits per byte, in
/// input order.
#[verifier::external_body]
fn hex_encode(b: &Vec<u8>) -> (r: String)
    ensures
        r@ == hex_of(b@),
{
    hex::encode(b.as_slice())
}

/// The per-checkout token: the first twelve hexadecimal digits of the
/// SHA-512 digest of the project path.
pub open spec fn spec_token(s: Seq<char>) -> Seq<char> {
    hex_of(sha512_of(s)).take(12)
}

/// Compute the per-checkout suffix for a tag from the project path.
pub fn token(p: &str) -> (r: String)
    ensures
        r@ == spec_token(p@),
        r@.len() == 12,
{
    let digest = sha512_digest(p);
    let full = hex_encode(&digest);
    proof {
        lemma_hex_ascii(digest@);
    }
    let cut = full.as_str().substring_ascii(0, 12);
    proof {
        assert(cut@ =~= spec_token(p@));
    }
    cut.to_owned()
}

/// Append the per-checkout token to a tag with a dash between.
pub fn append_token(tag: &str, p: &str) -> (r: String)
    ensures
        r@ == tag@ + "-"@ + spec_token(p@),
{
    let mut s = tag.to_owned();
    s.append("-");
    let t = token(p);
    s.append(t.as_str());
    s
}

/// Relies on rand::random: a fresh value each call, about which nothing more
/// can be said.
#[verifier::external_body]
fn random_u128() -> u128 {
    rand::random::<u128>()
}

/// The decimal digit character for a value below ten.
pub open spec fn dec_digit(n: int) -> char {
    (48 + n) as char
}

/// The decimal rendering of a number, most significant digit first.
pub open spec fn dec_digits(n: int) -> Seq<char>
    decreases n,
{
    if n < 10 {
        seq![dec_digit(n)]
    } else {
        dec_digits(n / 10).push(dec_digit(n % 10))
    }
}

fn digit_str(d: u128) -> (r: &'static str)
    requires
        d < 10,
    ensures
        r@ == seq![dec_digit(d as int)],
{
    proof {
        reveal_strlit("0");
        reveal_strlit("1");
        reveal_strlit("2");
        reveal_strlit("3");
        reveal_strlit("4");
        reveal_strlit("5");
        reveal_strlit("6");
        reveal_strlit("7");
        reveal_strlit("8");
        reveal_strlit("9");
    }
    let r = if d == 0 {
        "0"
    } else if d == 1 {
        "1"
    } else if d == 2 {
        "2"
    } else if d == 3 {
        "3"
    } else if d == 4 {
        "4"
    } else if d == 5 {
        "5"
    } else if d == 6 {
        "6"
    } else if d == 7 {
        "7"
    } else if d == 8 {
        "8"
    } else {
        "9"
    };
    proof {
        assert(r@ =~= seq![dec_digit(d as int)]);
    }
    r
}

/// Append the decimal rendering of `n` to a text.
pub fn push_dec(s: &mut String, n: u128)
    ensures
        final(s)@ == old(s)@ + dec_digits(n as int),
    decreases n,
{
    if n >= 10 {
        push_dec(s, n / 10);
        s.append(digit_str(n % 10));
        proof {
            assert(old(s)@ + dec_digits((n / 10) as int) + seq![dec_digit((n % 10) as int)]
                =~= old(s)@ + dec_digits(n as int));
        }
    } else {
        s.append(digit_str(n));
        proof {
            assert(old(s)@ + seq![dec_digit(n as int)] =~= old(s)@ + dec_digits(n as int));
        }
    }
}

/// A fresh cache-busting value, rendered in decimal.
pub fn random_nocache() -> (r: String)
    ensures
        exists|n: int| 0 <= n && r@ == #[trigger] dec_digits(n),
{
    let n = random_u128();
    let mut s = String::new();
    push_dec(&mut s, n);
    proof {
        assert(s@ == dec_digits(n as int));
    }
    s
}

/// The longest suffix holding no separator.
pub open spec fn last_component(p: Seq<char>) -> Seq<char>
    decreases p.len(),
{
    if p.len() == 0 || p[p.len() - 1] == '/' {
        Seq::empty()
    } else {
        last_component(p.drop_last()).push(p[p.len() - 1])
    }
}

/// The text without its trailing separators.
pub open spec fn trim_trailing_seps(p: Seq<char>) -> Seq<char>
    decreases p.len(),
{
    if p.len() > 0 && p[p.len() - 1] == '/' {
        trim_trailing_seps(p.drop_last())
    } else {
        p
    }
}

/// The final `/`-separated component of a path text; trailing separators do
/// not count.
pub open spec fn spec_filename(p: Seq<char>) -> Seq<char> {
    last_component(trim_trailing_seps(p))
}

/// Trimming stops right after the last byte that is no separator.
proof fn lemma_trim_prefix(p: Seq<char>, e: int)
    requires
        0 <= e <= p.len(),
        forall|j: int| e <= j < p.len() ==> p[j] == '/',
        e == 0 || p[e - 1] != '/',
    ensures
        trim_trailing_seps(p) == p.take(e),
    decreases p.len(),
{
    if p.len() == e {
        assert(p.take(e) =~= p);
    } else {
        assert(p[p.len() - 1] == '/');
        lemma_trim_prefix(p.drop_last(), e);
        assert(p.drop_last().take(e) =~= p.take(e));
    }
}

/// The last component is the part after the last separator.
proof fn lemma_filename_suffix(p: Seq<char>, i: int)
    requires
        0 <= i <= p.len(),
        i == 0 || p[i - 1] == '/',
        forall|j: int| i <= j < p.len() ==> p[j] != '/',
    ensures
        last_component(p) == p.subrange(i, p.len() as int),
    decreases p.len(),
{
    if p.len() == 0 {
        assert(last_component(p) =~= p.subrange(0, 0));
    } else if p.len() == i {
        assert(p[p.len() - 1] == '/');
        assert(last_component(p) =~= p.subrange(i, p.len() as int));
    } else {
        assert(p[p.len() - 1] != '/');
        lemma_filename_suffix(p.drop_last(), i);
        assert(p.drop_last().subrange(i, p.len() - 1) =~= p.subrange(i, p.len() - 1));
        assert(last_component(p.drop_last()).push(p[p.len() - 1]) =~= p.subrange(
            i,
            p.len() as int,
        ));
    }
}

/// Extract the file name from a path text, ignoring trailing separators. A
/// text with no final component, such as a bare separator, is left out: the
/// caller decides what failure that is.
pub fn filename(p: &str) -> (r: String)
    requires
        spec_filename(p@).len() > 0,
    ensures
        r@ == spec_filename(p@),
{
    let n = p.unicode_len();
    let mut end: usize = n;
    while end > 0 && p.get_char(end - 1) == '/'
        invariant
            end <= n,
            n == p@.len(),
            forall|j: int| end <= j < p@.len() ==> p@[j] == '/',
        decreases end,
    {
        end -= 1;
    }
    proof {
        lemma_trim_prefix(p@, end as int);
        if end == 0 {
            assert(trim_trailing_seps(p@) =~= Seq::<char>::empty());
            assert(false);
        }
    }
    let ghost t = p@.take(end as int);
    let mut i: usize = end;
    while i > 0
        invariant
            i <= end <= n,
            n == p@.len(),
            end > 0,
            t == p@.take(end as int),
            trim_trailing_seps(p@) == t,
            forall|j: int| i <= j < end ==> p@[j] != '/',
        decreases i,
    {
        if p.get_char(i - 1) == '/' {
            proof {
                assert(forall|j: int| i <= j < t.len() ==> t[j] != '/');
                lemma_filename_suffix(t, i as int);
            }
            let r = p.substring_char(i, end);
            proof {
                assert(r@ =~= t.subrange(i as int, t.len() as int));
            }
            return r.to_owned();
        }
        i -= 1;
    }
    proof {
        assert(forall|j: int| 0 <= j < t.len() ==> t[j] != '/');
        lemma_filename_suffix(t, 0);
    }
    let r = p.substring_char(0, end);
    proof {
        assert(r@ =~= t.subrange(0, t.len() as int));
    }
    r.to_owned()
}

} // verus!
