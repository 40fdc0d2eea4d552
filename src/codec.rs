//! The byte layout of the records this library seals: little-endian `u64`
//! integers, strings as a `u64` byte length followed by their UTF-8 bytes,
//! and optional strings as a tag byte (0 absent, 1 present) followed by the
//! string.
//!
//! Every `read_*` function is the exact executable counterpart of a
//! `parse_*` spec function, and each `lemma_parse_*` states that parsing
//! what `push_*` wrote gives the value back.
use vstd::bytes::{spec_u64_from_le_bytes, spec_u64_to_le_bytes, u64_from_le_bytes, u64_to_le_bytes};
use vstd::prelude::*;
use vstd::slice::slice_to_vec;
use vstd::utf8::{decode_utf8, encode_utf8, valid_utf8};
use crate::primitives::{hex_digit, string_from_utf8};
use vstd::string::StringExecFns;

verus! {

broadcast use vstd::utf8::group_utf8_lib;

pub open spec fn u64_bytes(n: u64) -> Seq<u8> {
    spec_u64_to_le_bytes(n)
}

/// A string's encoding: its UTF-8 length as a `u64`, then its UTF-8 bytes.
pub open spec fn str_bytes(s: Seq<char>) -> Seq<u8> {
    u64_bytes(encode_utf8(s).len() as u64) + encode_utf8(s)
}

pub open spec fn opt_str_bytes(o: Option<Seq<char>>) -> Seq<u8> {
    match o {
        None => seq![0u8],
        Some(s) => seq![1u8] + str_bytes(s),
    }
}

/// Strings whose encoded length fits the `u64` length prefix.
pub open spec fn str_fits(s: Seq<char>) -> bool {
    encode_utf8(s).len() <= u64::MAX
}

pub open spec fn opt_str_fits(o: Option<Seq<char>>) -> bool {
    match o {
        None => true,
        Some(s) => str_fits(s),
    }
}

pub open spec fn opt_view(o: Option<String>) -> Option<Seq<char>> {
    match o {
        None => None,
        Some(s) => Some(s@),
    }
}

pub open spec fn parse_u64(b: Seq<u8>, pos: int) -> Option<(u64, int)> {
    if 0 <= pos && pos + 8 <= b.len() {
        Some((spec_u64_from_le_bytes(b.subrange(pos, pos + 8)), pos + 8))
    } else {
        None
    }
}

pub open spec fn parse_str(b: Seq<u8>, pos: int) -> Option<(Seq<char>, int)> {
    match parse_u64(b, pos) {
        None => None,
        Some((n, p)) => if p + n <= b.len() && valid_utf8(b.subrange(p, p + n)) {
            Some((decode_utf8(b.subrange(p, p + n)), p + n))
        } else {
            None
        },
    }
}

pub open spec fn parse_opt_str(b: Seq<u8>, pos: int) -> Option<(Option<Seq<char>>, int)> {
    if 0 <= pos < b.len() && b[pos] == 0 {
        Some((None, pos + 1))
    } else if 0 <= pos < b.len() && b[pos] == 1 {
        match parse_str(b, pos + 1) {
            None => None,
            Some((s, p)) => Some((Some(s), p)),
        }
    } else {
        None
    }
}

/// `b` holds `piece` starting at `pos`.
pub open spec fn holds_at(b: Seq<u8>, pos: int, piece: Seq<u8>) -> bool {
    &&& 0 <= pos
    &&& pos + piece.len() <= b.len()
    &&& b.subrange(pos, pos + piece.len()) == piece
}

pub fn push_u64(out: &mut Vec<u8>, n: u64)
    ensures
        final(out)@ == old(out)@ + u64_bytes(n),
{
    let b = u64_to_le_bytes(n);
    out.extend_from_slice(b.as_slice());
    assert(final(out)@ =~= old(out)@ + u64_bytes(n));
}

pub fn push_str(out: &mut Vec<u8>, s: &str)
    ensures
        final(out)@ == old(out)@ + str_bytes(s@),
        str_fits(s@),
{
    let b = s.as_bytes();
    push_u64(out, b.len() as u64);
    out.extend_from_slice(b);
    assert(final(out)@ =~= old(out)@ + str_bytes(s@));
}

pub fn push_opt_str(out: &mut Vec<u8>, o: &Option<String>)
    ensures
        final(out)@ == old(out)@ + opt_str_bytes(opt_view(*o)),
        opt_str_fits(opt_view(*o)),
{
    match o {
        None => {
            out.push(0u8);
            assert(final(out)@ =~= old(out)@ + opt_str_bytes(opt_view(*o)));
        },
        Some(s) => {
            out.push(1u8);
            push_str(out, s.as_str());
            assert(final(out)@ =~= old(out)@ + opt_str_bytes(opt_view(*o)));
        },
    }
}

pub fn read_u64(b: &[u8], pos: usize) -> (r: Option<(u64, usize)>)
    ensures
        match r {
            None => parse_u64(b@, pos as int) is None,
            Some((n, p)) => parse_u64(b@, pos as int) == Some((n, p as int)),
        },
{
    if pos <= b.len() && 8 <= b.len() - pos {
        let n = u64_from_le_bytes(&b[pos..pos + 8]);
        Some((n, pos + 8))
    } else {
        None
    }
}

pub fn read_str(b: &[u8], pos: usize) -> (r: Option<(String, usize)>)
    ensures
        match r {
            None => parse_str(b@, pos as int) is None,
            Some((s, p)) => parse_str(b@, pos as int) == Some((s@, p as int)) && str_fits(s@),
        },
{
    match read_u64(b, pos) {
        None => None,
        Some((n, p)) => {
            if n <= (b.len() - p) as u64 {
                let end = p + n as usize;
                let bytes = slice_to_vec(&b[p..end]);
                match string_from_utf8(bytes) {
                    None => None,
                    Some(s) => Some((s, end)),
                }
            } else {
                None
            }
        },
    }
}

pub fn read_opt_str(b: &[u8], pos: usize) -> (r: Option<(Option<String>, usize)>)
    ensures
        match r {
            None => parse_opt_str(b@, pos as int) is None,
            Some((o, p)) => parse_opt_str(b@, pos as int) == Some((opt_view(o), p as int))
                && opt_str_fits(opt_view(o)),
        },
{
    if pos < b.len() && b[pos] == 0 {
        Some((None, pos + 1))
    } else if pos < b.len() && b[pos] == 1 {
        match read_str(b, pos + 1) {
            None => None,
            Some((s, p)) => Some((Some(s), p)),
        }
    } else {
        None
    }
}

pub proof fn lemma_parse_u64(b: Seq<u8>, pos: int, n: u64)
    requires
        holds_at(b, pos, u64_bytes(n)),
    ensures
        parse_u64(b, pos) == Some((n, pos + 8)),
{
    vstd::bytes::lemma_auto_spec_u64_to_from_le_bytes();
}

pub proof fn lemma_parse_str(b: Seq<u8>, pos: int, s: Seq<char>)
    requires
        str_fits(s),
        holds_at(b, pos, str_bytes(s)),
    ensures
        parse_str(b, pos) == Some((s, pos + str_bytes(s).len())),
{
    vstd::bytes::lemma_auto_spec_u64_to_from_le_bytes();
    let e = encode_utf8(s);
    let piece = str_bytes(s);
    assert(b.subrange(pos, pos + 8) =~= piece.subrange(0, 8));
    assert(piece.subrange(0, 8) =~= u64_bytes(e.len() as u64));
    lemma_parse_u64(b, pos, e.len() as u64);
    assert(piece.len() == 8 + e.len());
    assert forall|j: int| 0 <= j < e.len() implies #[trigger] b.subrange(pos + 8, pos + 8 + e.len())[j] == e[j] by {
        assert(b.subrange(pos, pos + piece.len())[8 + j] == piece[8 + j]);
    }
    assert(b.subrange(pos + 8, pos + 8 + e.len()) =~= e);
}

pub proof fn lemma_parse_opt_str(b: Seq<u8>, pos: int, o: Option<Seq<char>>)
    requires
        opt_str_fits(o),
        holds_at(b, pos, opt_str_bytes(o)),
    ensures
        parse_opt_str(b, pos) == Some((o, pos + opt_str_bytes(o).len())),
{
    let piece = opt_str_bytes(o);
    assert(b[pos] == piece[0]);
    match o {
        None => {},
        Some(s) => {
            let t = str_bytes(s);
            assert forall|j: int| 0 <= j < t.len() implies #[trigger] b.subrange(pos + 1, pos + 1 + t.len())[j] == t[j] by {
                assert(b.subrange(pos, pos + piece.len())[1 + j] == piece[1 + j]);
            }
            assert(b.subrange(pos + 1, pos + 1 + t.len()) =~= t);
            lemma_parse_str(b, pos + 1, s);
        },
    }
}

/// Strict byte-lexicographic order; a proper prefix comes first.
pub open spec fn bytes_lt(a: Seq<u8>, b: Seq<u8>) -> bool
    decreases a.len(),
{
    if b.len() == 0 {
        false
    } else if a.len() == 0 {
        true
    } else if a[0] != b[0] {
        a[0] < b[0]
    } else {
        bytes_lt(a.drop_first(), b.drop_first())
    }
}

pub proof fn lemma_bytes_lt_irreflexive(a: Seq<u8>)
    ensures
        !bytes_lt(a, a),
    decreases a.len(),
{
    if a.len() > 0 {
        lemma_bytes_lt_irreflexive(a.drop_first());
    }
}

pub proof fn lemma_bytes_lt_transitive(a: Seq<u8>, b: Seq<u8>, c: Seq<u8>)
    requires
        bytes_lt(a, b),
        bytes_lt(b, c),
    ensures
        bytes_lt(a, c),
    decreases a.len(),
{
    if a.len() > 0 && b.len() > 0 && c.len() > 0 && a[0] == b[0] && b[0] == c[0] {
        lemma_bytes_lt_transitive(a.drop_first(), b.drop_first(), c.drop_first());
    }
}

pub proof fn lemma_bytes_lt_total(a: Seq<u8>, b: Seq<u8>)
    requires
        a != b,
    ensures
        bytes_lt(a, b) || bytes_lt(b, a),
    decreases a.len(),
{
    if a.len() == 0 {
        assert(b.len() != 0) by {
            if b.len() == 0 {
                assert(a =~= b);
            }
        }
    } else if b.len() == 0 {
    } else if a[0] == b[0] {
        if a.drop_first() == b.drop_first() {
            assert(a =~= seq![a[0]] + a.drop_first());
            assert(b =~= seq![b[0]] + b.drop_first());
        }
        lemma_bytes_lt_total(a.drop_first(), b.drop_first());
    }
}

/// Whether `a` comes strictly before `b`.
pub fn less_bytes(a: &[u8], b: &[u8]) -> (r: bool)
    ensures
        r == bytes_lt(a@, b@),
{
    let mut i: usize = 0;
    assert(a@.subrange(0, a@.len() as int) =~= a@);
    assert(b@.subrange(0, b@.len() as int) =~= b@);
    while i < a.len() && i < b.len()
        invariant
            i <= a@.len(),
            i <= b@.len(),
            bytes_lt(a@, b@) == bytes_lt(
                a@.subrange(i as int, a@.len() as int),
                b@.subrange(i as int, b@.len() as int),
            ),
        decreases a@.len() - i,
    {
        if a[i] != b[i] {
            return a[i] < b[i];
        }
        proof {
            let sa = a@.subrange(i as int, a@.len() as int);
            let sb = b@.subrange(i as int, b@.len() as int);
            assert(sa.drop_first() =~= a@.subrange(i + 1, a@.len() as int));
            assert(sb.drop_first() =~= b@.subrange(i + 1, b@.len() as int));
        }
        i = i + 1;
    }
    i < b.len()
}

/// Distinct strings have distinct UTF-8 bytes.
pub proof fn lemma_utf8_injective(s: Seq<char>, t: Seq<char>)
    requires
        encode_utf8(s) == encode_utf8(t),
    ensures
        s == t,
{
    assert(decode_utf8(encode_utf8(s)) == s);
    assert(decode_utf8(encode_utf8(t)) == t);
}

/// A copy of an optional string.
pub fn clone_opt(o: &Option<String>) -> (r: Option<String>)
    ensures
        r == *o,
{
    match o {
        Some(s) => Some(s.clone()),
        None => None,
    }
}

/// Whether two optional strings hold the same characters, or are both absent.
pub fn same_opt(a: &Option<String>, b: &Option<String>) -> (r: bool)
    ensures
        r == (opt_view(*a) == opt_view(*b)),
{
    match (a, b) {
        (Some(x), Some(y)) => *x == *y,
        (None, None) => true,
        _ => false,
    }
}

pub open spec fn digit_char(d: nat) -> char {
    hex_digit(d as u8)
}

/// The decimal rendering of a natural number, without leading zeros.
pub open spec fn decimal_of(n: nat) -> Seq<char>
    decreases n,
{
    if n < 10 {
        seq![digit_char(n)]
    } else {
        decimal_of(n / 10).push(digit_char(n % 10))
    }
}

/// The two strings one after the other.
pub fn concat_str(a: &str, b: &str) -> (r: String)
    ensures
        r@ == a@ + b@,
{
    let mut s = a.to_owned();
    s.append(b);
    s
}

fn digit_str(d: u64) -> (r: &'static str)
    requires
        d < 10,
    ensures
        r@ == seq![digit_char(d as nat)],
{
    proof {
        reveal_strlit("0");
        reveal_strlit("1");
        reveal_strlit("2");
        reveal_strlit("3");
        reveal_strlit("4");
        reveal_strlit("5");
        reveal_strlit("6");
        reveal_strlit("7");
        reveal_strlit("8");
        reveal_strlit("9");
    }
    let r = if d == 0 {
        "0"
    } else if d == 1 {
        "1"
    } else if d == 2 {
        "2"
    } else if d == 3 {
        "3"
    } else if d == 4 {
        "4"
    } else if d == 5 {
        "5"
    } else if d == 6 {
        "6"
    } else if d == 7 {
        "7"
    } else if d == 8 {
        "8"
    } else {
        "9"
    };
    assert(r@ =~= seq![digit_char(d as nat)]);
    r
}

/// The decimal form of `n`, without leading zeros.
pub fn decimal(n: u64) -> (r: String)
    ensures
        r@ == decimal_of(n as nat),
    decreases n,
{
    if n < 10 {
        digit_str(n).to_owned()
    } else {
        let mut s = decimal(n / 10);
        s.append(digit_str(n % 10));
        s
    }
}

} // verus!
