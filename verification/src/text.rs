//! Byte-level helpers for identifiers and rendered names.
use vstd::prelude::*;
use vstd::string::*;

verus! {

/// The UTF-8 encoding of a string's characters.
pub open spec fn utf8(s: Seq<char>) -> Seq<u8> {
    vstd::utf8::encode_utf8(s)
}

/// Characters whose code points are the given ASCII bytes.
pub open spec fn ascii_chars(b: Seq<u8>) -> Seq<char> {
    Seq::new(b.len(), |i: int| b[i] as char)
}

pub open spec fn all_ascii(b: Seq<u8>) -> bool {
    forall|i: int| 0 <= i < b.len() ==> b[i] < 128
}

pub open spec fn is_alnum(b: u8) -> bool {
    (0x30 <= b <= 0x39) || (0x41 <= b <= 0x5a) || (0x61 <= b <= 0x7a)
}

pub open spec fn is_lower_or_digit(b: u8) -> bool {
    (0x30 <= b <= 0x39) || (0x61 <= b <= 0x7a)
}

pub open spec fn is_hex(b: u8) -> bool {
    (0x30 <= b <= 0x39) || (0x41 <= b <= 0x46) || (0x61 <= b <= 0x66)
}

/// Builds a `String` from ASCII bytes through `String::from_utf8`; ASCII is
/// always valid UTF-8, so the conversion succeeds and each byte becomes the
/// character with the same code point.
#[verifier::external_body]
pub fn ascii_string(bytes: Vec<u8>) -> (r: String)
    requires
        all_ascii(bytes@),
    ensures
        r@ == ascii_chars(bytes@),
{
    String::from_utf8(bytes).unwrap()
}

/// Bytes of a string, as UTF-8.
pub fn bytes(s: &str) -> (r: &[u8])
    ensures
        r@ == utf8(s@),
{
    s.as_bytes()
}

/// Decimal digits of `n`, most significant first.
pub open spec fn decimal(n: nat) -> Seq<u8>
    decreases n,
{
    if n < 10 {
        seq![(0x30 + n) as u8]
    } else {
        decimal(n / 10).push((0x30 + n % 10) as u8)
    }
}

pub proof fn lemma_decimal_ascii(n: nat)
    ensures
        all_ascii(decimal(n)),
        decimal(n).len() >= 1,
    decreases n,
{
    if n >= 10 {
        lemma_decimal_ascii(n / 10);
    }
}

/// Appends the decimal representation of `n`.
pub fn push_decimal(out: &mut Vec<u8>, n: u64)
    ensures
        final(out)@ == old(out)@ + decimal(n as nat),
    decreases n,
{
    if n < 10 {
        out.push((0x30 + n) as u8);
    } else {
        push_decimal(out, n / 10);
        out.push((0x30 + n % 10) as u8);
        assert(final(out)@ =~= old(out)@ + decimal(n as nat));
    }
}

/// The decimal rendering of `n` as a string.
pub fn decimal_string(n: u64) -> (r: String)
    ensures
        r@ == ascii_chars(decimal(n as nat)),
{
    let mut v: Vec<u8> = Vec::new();
    push_decimal(&mut v, n);
    proof {
        lemma_decimal_ascii(n as nat);
        assert(v@ =~= decimal(n as nat));
    }
    ascii_string(v)
}

pub open spec fn hex_digit(d: nat) -> u8 {
    if d < 10 { (0x30 + d) as u8 } else { (0x61 + d - 10) as u8 }
}

/// Two lower-case hexadecimal digits of a byte.
pub open spec fn hex2(b: u8) -> Seq<u8> {
    seq![hex_digit((b / 16) as nat), hex_digit((b % 16) as nat)]
}

pub fn push_hex2(out: &mut Vec<u8>, b: u8)
    ensures
        final(out)@ == old(out)@ + hex2(b),
{
    let hi = b / 16;
    let lo = b % 16;
    out.push(if hi < 10 { 0x30 + hi } else { 0x61 + hi - 10 });
    out.push(if lo < 10 { 0x30 + lo } else { 0x61 + lo - 10 });
    assert(final(out)@ =~= old(out)@ + hex2(b));
}

/// Appends a `&str` to a string.
pub fn append(s: &mut String, t: &str)
    ensures
        final(s)@ == old(s)@ + t@,
{
    s.append(t);
}

} // verus!

verus! {

/// Byte-lexicographic order, the order of `str` and `String`.
pub open spec fn bytes_lt(a: Seq<u8>, b: Seq<u8>) -> bool
    decreases a.len(),
{
    if a.len() == 0 {
        b.len() > 0
    } else if b.len() == 0 {
        false
    } else if a[0] != b[0] {
        a[0] < b[0]
    } else {
        bytes_lt(a.drop_first(), b.drop_first())
    }
}

/// `a < b` for strings.
pub fn str_lt(a: &str, b: &str) -> (r: bool)
    ensures
        r == bytes_lt(utf8(a@), utf8(b@)),
{
    let x = bytes(a);
    let y = bytes(b);
    let mut i: usize = 0;
    proof {
        assert(x@.skip(0) =~= x@);
        assert(y@.skip(0) =~= y@);
    }
    while i < x.len() && i < y.len()
        invariant
            x@ == utf8(a@),
            y@ == utf8(b@),
            i <= x@.len(),
            i <= y@.len(),
            bytes_lt(x@, y@) == bytes_lt(x@.skip(i as int), y@.skip(i as int)),
        decreases x@.len() - i,
    {
        if x[i] != y[i] {
            return x[i] < y[i];
        }
        proof {
            assert(x@.skip(i as int).drop_first() =~= x@.skip(i + 1));
            assert(y@.skip(i as int).drop_first() =~= y@.skip(i + 1));
        }
        i += 1;
    }
    i == x.len() && i < y.len()
}

/// No byte string precedes itself.
pub proof fn lemma_bytes_lt_irreflexive(a: Seq<u8>)
    ensures
        !bytes_lt(a, a),
    decreases a.len(),
{
    if a.len() > 0 {
        lemma_bytes_lt_irreflexive(a.drop_first());
    }
}

/// Byte order is transitive.
pub proof fn lemma_bytes_lt_transitive(a: Seq<u8>, b: Seq<u8>, c: Seq<u8>)
    requires
        bytes_lt(a, b),
        bytes_lt(b, c),
    ensures
        bytes_lt(a, c),
    decreases a.len(),
{
    if a.len() > 0 && b.len() > 0 && c.len() > 0 && a[0] == b[0] && b[0] == c[0] {
        lemma_bytes_lt_transitive(a.drop_first(), b.drop_first(), c.drop_first());
    }
}

/// Of two different byte strings, one precedes the other.
pub proof fn lemma_bytes_lt_total(a: Seq<u8>, b: Seq<u8>)
    requires
        a != b,
    ensures
        bytes_lt(a, b) || bytes_lt(b, a),
    decreases a.len(),
{
    if a.len() == 0 {
        assert(b.len() > 0) by {
            if b.len() == 0 {
                assert(a =~= b);
            }
        }
    } else if b.len() > 0 && a[0] == b[0] {
        assert(a.drop_first() != b.drop_first()) by {
            if a.drop_first() == b.drop_first() {
                assert(a =~= seq![a[0]] + a.drop_first());
                assert(b =~= seq![b[0]] + b.drop_first());
            }
        }
        lemma_bytes_lt_total(a.drop_first(), b.drop_first());
    }
}

/// Byte order is asymmetric.
pub proof fn lemma_bytes_lt_asymmetric(a: Seq<u8>, b: Seq<u8>)
    requires
        bytes_lt(a, b),
    ensures
        !bytes_lt(b, a),
    decreases a.len(),
{
    if a.len() > 0 && b.len() > 0 && a[0] == b[0] {
        lemma_bytes_lt_asymmetric(a.drop_first(), b.drop_first());
    }
}

/// Different strings have different encodings.
pub proof fn lemma_utf8_injective(a: Seq<char>, b: Seq<char>)
    requires
        a != b,
    ensures
        utf8(a) != utf8(b),
{
    vstd::utf8::encode_utf8_decode_utf8(a);
    vstd::utf8::encode_utf8_decode_utf8(b);
}

} // verus!
