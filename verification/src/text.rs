//! Small text codecs the library computes itself: decimal rendering of
//! indices, hex decoding of signature headers, and percent-encoding of
//! audit-log reasons. Each executable function is proved against a direct
//! spec-level definition.
use vstd::prelude::*;
use vstd::string::StringSliceAdditionalSpecFns;
use vstd::string::StrSliceExecFns;

verus! {

/// Relies on `String::push` from std: appends exactly one character.
#[verifier::external_body]
pub fn push_char(s: &mut String, c: char)
    ensures
        final(s)@ == old(s)@ + seq![c],
{
    s.push(c);
}

pub open spec fn dec_digit(d: nat) -> char
    recommends
        d < 10,
{
    if d == 0 {
        '0'
    } else if d == 1 {
        '1'
    } else if d == 2 {
        '2'
    } else if d == 3 {
        '3'
    } else if d == 4 {
        '4'
    } else if d == 5 {
        '5'
    } else if d == 6 {
        '6'
    } else if d == 7 {
        '7'
    } else if d == 8 {
        '8'
    } else {
        '9'
    }
}

/// The usual decimal numeral of `n`, most significant digit first, with no
/// leading zeros (except for `n == 0` itself).
pub open spec fn dec_rep(n: nat) -> Seq<char>
    decreases n,
{
    if n < 10 {
        seq![dec_digit(n)]
    } else {
        dec_rep(n / 10) + seq![dec_digit(n % 10)]
    }
}

fn dec_digit_char(d: u8) -> (r: char)
    requires
        d < 10,
    ensures
        r == dec_digit(d as nat),
{
    if d == 0 {
        '0'
    } else if d == 1 {
        '1'
    } else if d == 2 {
        '2'
    } else if d == 3 {
        '3'
    } else if d == 4 {
        '4'
    } else if d == 5 {
        '5'
    } else if d == 6 {
        '6'
    } else if d == 7 {
        '7'
    } else if d == 8 {
        '8'
    } else {
        '9'
    }
}

/// Renders `n` in decimal.
pub fn usize_to_dec(n: usize) -> (r: String)
    ensures
        r@ == dec_rep(n as nat),
    decreases n,
{
    if n < 10 {
        let mut s = String::new();
        push_char(&mut s, dec_digit_char(n as u8));
        s
    } else {
        let mut s = usize_to_dec(n / 10);
        push_char(&mut s, dec_digit_char((n % 10) as u8));
        s
    }
}

pub open spec fn is_digit_char(c: char) -> bool {
    48 <= c as u32 && c as u32 <= 57
}

/// Every character of a decimal numeral is a digit, and a numeral of a
/// number of ten or more has at least two of them.
pub proof fn lemma_dec_rep_digits(n: nat)
    ensures
        forall|i: int| 0 <= i < dec_rep(n).len() ==> is_digit_char(dec_rep(n)[i]),
        dec_rep(n).len() >= 1,
        n >= 10 ==> dec_rep(n).len() >= 2,
    decreases n,
{
    if n < 10 {
        assert(dec_rep(n) =~= seq![dec_digit(n)]);
        assert(is_digit_char(dec_digit(n)));
    } else {
        lemma_dec_rep_digits(n / 10);
        assert(forall|i: int|
            0 <= i < dec_rep(n / 10).len() ==> dec_rep(n)[i] == dec_rep(n / 10)[i]);
        assert(dec_rep(n)[dec_rep(n).len() - 1] == dec_digit(n % 10));
        assert(is_digit_char(dec_digit(n % 10)));
    }
}

/// Two equal decimal numerals denote the same number.
pub proof fn lemma_dec_rep_inj(m: nat, n: nat)
    requires
        dec_rep(m) == dec_rep(n),
    ensures
        m == n,
    decreases m,
{
    lemma_dec_rep_digits(m);
    lemma_dec_rep_digits(n);
    if m < 10 && n < 10 {
        assert(dec_rep(m)[0] == dec_digit(m));
        assert(dec_rep(n)[0] == dec_digit(n));
        assert(dec_digit(m) == dec_digit(n));
        assert(m == n);
    } else if m < 10 {
        assert(dec_rep(m).len() == 1);
        assert(false);
    } else if n < 10 {
        assert(dec_rep(n).len() == 1);
        assert(false);
    } else {
        assert(dec_rep(m).last() == dec_digit(m % 10));
        assert(dec_rep(n).last() == dec_digit(n % 10));
        assert(m % 10 == n % 10);
        assert(dec_rep(m).drop_last() =~= dec_rep(m / 10));
        assert(dec_rep(n).drop_last() =~= dec_rep(n / 10));
        lemma_dec_rep_inj(m / 10, n / 10);
        assert(m == (m / 10) * 10 + m % 10);
        assert(n == (n / 10) * 10 + n % 10);
    }
}

/// Numeric value of a digit character.
pub open spec fn digit_val(c: char) -> nat
    recommends
        is_digit_char(c),
{
    (c as u32 - 48) as nat
}

/// The number a digit string denotes, most significant digit first.
pub open spec fn dec_val(s: Seq<char>) -> nat
    decreases s.len(),
{
    if s.len() == 0 {
        0
    } else {
        dec_val(s.drop_last()) * 10 + digit_val(s.last())
    }
}

/// The end of the digit run beginning at `i`: the first position at or after
/// `i` holding no digit.
pub open spec fn digit_run_end(s: Seq<char>, i: int) -> int
    decreases s.len() - i when 0 <= i <= s.len()
{
    if 0 <= i < s.len() && is_digit_char(s[i]) {
        digit_run_end(s, i + 1)
    } else {
        i
    }
}

/// Reading the decimal numeral of `n` back as a number gives `n`.
pub proof fn lemma_dec_val_dec_rep(n: nat)
    ensures
        dec_val(dec_rep(n)) == n,
    decreases n,
{
    if n < 10 {
        assert(dec_rep(n) =~= seq![dec_digit(n)]);
        assert(dec_rep(n).drop_last() =~= Seq::<char>::empty());
        assert(dec_rep(n).last() == dec_digit(n));
        assert(dec_val(Seq::<char>::empty()) == 0);
        assert(dec_val(dec_rep(n)) == 0 * 10 + digit_val(dec_digit(n)));
        assert(digit_val(dec_digit(n)) == n);
    } else {
        lemma_dec_val_dec_rep(n / 10);
        assert(dec_rep(n).drop_last() =~= dec_rep(n / 10));
        assert(dec_rep(n).last() == dec_digit(n % 10));
        assert(digit_val(dec_digit(n % 10)) == n % 10);
        assert(dec_val(dec_rep(n)) == (n / 10) * 10 + n % 10);
    }
}

/// A digit run's value only grows as the run extends.
pub proof fn lemma_dec_val_mono(s: Seq<char>, i: int, j: int, e: int)
    requires
        0 <= i <= j <= e <= s.len(),
    ensures
        dec_val(s.subrange(i, e)) >= dec_val(s.subrange(i, j)),
    decreases e - j,
{
    if j < e {
        lemma_dec_val_mono(s, i, j + 1, e);
        assert(s.subrange(i, j + 1).drop_last() =~= s.subrange(i, j));
        assert(dec_val(s.subrange(i, j + 1)) >= dec_val(s.subrange(i, j)));
    } else {
        assert(s.subrange(i, e) =~= s.subrange(i, j));
    }
}

/// The digit run ends exactly where the digits end.
pub proof fn lemma_digit_run_end_of(s: Seq<char>, i: int, e: int)
    requires
        0 <= i <= e <= s.len(),
        forall|k: int| i <= k < e ==> is_digit_char(s[k]),
        e == s.len() || !is_digit_char(s[e]),
    ensures
        digit_run_end(s, i) == e,
    decreases e - i,
{
    if i < e {
        lemma_digit_run_end_of(s, i + 1, e);
    }
}

/// Every position of the digit run holds a digit.
pub proof fn lemma_digit_run_digits(s: Seq<char>, i: int)
    requires
        0 <= i <= s.len(),
    ensures
        i <= digit_run_end(s, i) <= s.len(),
        forall|k: int| i <= k < digit_run_end(s, i) ==> is_digit_char(s[k]),
    decreases s.len() - i,
{
    if i < s.len() && is_digit_char(s[i]) {
        lemma_digit_run_digits(s, i + 1);
    }
}

/// A decimal numeral followed by a non-digit can be read back in exactly one
/// way: equal texts give equal numbers and equal remainders.
pub proof fn lemma_dec_boundary(m: nat, n: nat, ra: Seq<char>, rb: Seq<char>)
    requires
        dec_rep(m) + ra == dec_rep(n) + rb,
        ra.len() > 0,
        rb.len() > 0,
        !is_digit_char(ra[0]),
        !is_digit_char(rb[0]),
    ensures
        m == n,
        ra == rb,
{
    lemma_dec_rep_digits(m);
    lemma_dec_rep_digits(n);
    let la = dec_rep(m).len() as int;
    let lb = dec_rep(n).len() as int;
    if la < lb {
        assert((dec_rep(m) + ra)[la] == ra[0]);
        assert((dec_rep(n) + rb)[la] == dec_rep(n)[la]);
        assert(is_digit_char(dec_rep(n)[la]));
        assert(false);
    }
    if lb < la {
        assert((dec_rep(n) + rb)[lb] == rb[0]);
        assert((dec_rep(m) + ra)[lb] == dec_rep(m)[lb]);
        assert(is_digit_char(dec_rep(m)[lb]));
        assert(false);
    }
    assert(dec_rep(m) =~= (dec_rep(m) + ra).subrange(0, la));
    assert(dec_rep(n) =~= (dec_rep(n) + rb).subrange(0, lb));
    lemma_dec_rep_inj(m, n);
    let whole = dec_rep(m) + ra;
    assert(ra =~= whole.subrange(la, whole.len() as int));
    assert(rb =~= (dec_rep(n) + rb).subrange(lb, (dec_rep(n) + rb).len() as int));
    assert(ra =~= rb);
}

/// Renders `n` in decimal.
pub fn u64_to_dec(n: u64) -> (r: String)
    ensures
        r@ == dec_rep(n as nat),
    decreases n,
{
    if n < 10 {
        let mut s = String::new();
        push_char(&mut s, dec_digit_char(n as u8));
        s
    } else {
        let mut s = u64_to_dec(n / 10);
        push_char(&mut s, dec_digit_char((n % 10) as u8));
        s
    }
}

pub open spec fn is_hex_u8(b: u8) -> bool {
    (48 <= b && b <= 57) || (97 <= b && b <= 102) || (65 <= b && b <= 70)
}

/// Numeric value of one hex digit given as its ASCII byte.
pub open spec fn hex_val(b: u8) -> nat
    recommends
        is_hex_u8(b),
{
    if 48 <= b && b <= 57 {
        (b - 48) as nat
    } else if 97 <= b && b <= 102 {
        (b - 87) as nat
    } else if 65 <= b && b <= 70 {
        (b - 55) as nat
    } else {
        0
    }
}

/// Bytes denoted by a sequence of hex digit pairs, first pair first.
pub open spec fn hex_decode_bytes(s: Seq<u8>) -> Seq<u8>
    decreases s.len(),
{
    if s.len() < 2 {
        Seq::empty()
    } else {
        seq![(hex_val(s[0]) * 16 + hex_val(s[1])) as u8] + hex_decode_bytes(s.skip(2))
    }
}

proof fn lemma_hex_decode_append_pair(s: Seq<u8>, a: u8, b: u8)
    requires
        s.len() % 2 == 0,
    ensures
        hex_decode_bytes(s + seq![a, b]) == hex_decode_bytes(s) + seq![
            (hex_val(a) * 16 + hex_val(b)) as u8,
        ],
    decreases s.len(),
{
    if s.len() == 0 {
        let p = seq![a, b];
        assert(s + p =~= p);
        assert(p[0] == a && p[1] == b);
        assert(p.skip(2) =~= Seq::<u8>::empty());
        assert(hex_decode_bytes(p.skip(2)) =~= Seq::<u8>::empty());
        assert(hex_decode_bytes(p) =~= seq![(hex_val(a) * 16 + hex_val(b)) as u8]);
        assert(hex_decode_bytes(s) =~= Seq::<u8>::empty());
        assert(hex_decode_bytes(s) + seq![(hex_val(a) * 16 + hex_val(b)) as u8] =~= seq![
            (hex_val(a) * 16 + hex_val(b)) as u8,
        ]);
    } else {
        let t = s + seq![a, b];
        assert(t.skip(2) =~= s.skip(2) + seq![a, b]);
        lemma_hex_decode_append_pair(s.skip(2), a, b);
    }
}

fn hex_val_u8(b: u8) -> (r: u8)
    requires
        is_hex_u8(b),
    ensures
        r as nat == hex_val(b),
        r < 16,
{
    if 48 <= b && b <= 57 {
        b - 48
    } else if 97 <= b && b <= 102 {
        b - 87
    } else {
        b - 55
    }
}

fn is_hex_byte(b: u8) -> (r: bool)
    ensures
        r == is_hex_u8(b),
{
    (48 <= b && b <= 57) || (97 <= b && b <= 102) || (65 <= b && b <= 70)
}

/// Decodes a string of exactly `2 * n` hex digits into `n` bytes. Returns
/// `None` when the string's UTF-8 form has the wrong length or holds a
/// non-hex character.
pub fn decode_hex_exact(s: &str, n: usize) -> (r: Option<Vec<u8>>)
    requires
        n <= usize::MAX / 2,
    ensures
        r is Some <==> (s.spec_bytes().len() == 2 * n && forall|i: int|
            0 <= i < s.spec_bytes().len() ==> is_hex_u8(s.spec_bytes()[i])),
        r is Some ==> r->0@ == hex_decode_bytes(s.spec_bytes()) && r->0@.len() == n,
{
    let bytes = s.as_bytes_vec();
    if bytes.len() != 2 * n {
        return None;
    }
    let mut out: Vec<u8> = Vec::new();
    let mut i: usize = 0;
    while i < bytes.len()
        invariant
            bytes@ == s.spec_bytes(),
            i % 2 == 0,
            i <= bytes@.len(),
            bytes@.len() == 2 * n,
            out@ == hex_decode_bytes(bytes@.take(i as int)),
            out@.len() == i / 2,
            forall|j: int| 0 <= j < i ==> is_hex_u8(bytes@[j]),
        decreases bytes@.len() - i,
    {
        let a = bytes[i];
        let b = bytes[i + 1];
        if !is_hex_byte(a) || !is_hex_byte(b) {
            return None;
        }
        let v = hex_val_u8(a) * 16 + hex_val_u8(b);
        out.push(v);
        proof {
            assert(bytes@.take(i + 2) =~= bytes@.take(i as int) + seq![a, b]);
            lemma_hex_decode_append_pair(bytes@.take(i as int), a, b);
        }
        i = i + 2;
    }
    proof {
        assert(bytes@.take(bytes@.len() as int) =~= bytes@);
    }
    Some(out)
}

pub open spec fn is_ascii_alnum(b: u8) -> bool {
    (48 <= b && b <= 57) || (65 <= b && b <= 90) || (97 <= b && b <= 122)
}

pub open spec fn hex_upper_digit(d: nat) -> char
    recommends
        d < 16,
{
    if d < 10 {
        dec_digit(d)
    } else if d == 10 {
        'A'
    } else if d == 11 {
        'B'
    } else if d == 12 {
        'C'
    } else if d == 13 {
        'D'
    } else if d == 14 {
        'E'
    } else {
        'F'
    }
}

/// Percent-encoding of one byte: ASCII alphanumerics stand for themselves,
/// every other byte becomes `%XX` with uppercase hex digits.
pub open spec fn percent_encode_byte(b: u8) -> Seq<char> {
    if is_ascii_alnum(b) {
        seq![b as char]
    } else {
        seq!['%', hex_upper_digit(b as nat / 16), hex_upper_digit(b as nat % 16)]
    }
}

/// Percent-encoding of a byte string, byte by byte.
pub open spec fn percent_encode_bytes(s: Seq<u8>) -> Seq<char>
    decreases s.len(),
{
    if s.len() == 0 {
        Seq::empty()
    } else {
        percent_encode_byte(s[0]) + percent_encode_bytes(s.drop_first())
    }
}

proof fn lemma_percent_encode_push(s: Seq<u8>, b: u8)
    ensures
        percent_encode_bytes(s.push(b)) == percent_encode_bytes(s) + percent_encode_byte(b),
    decreases s.len(),
{
    if s.len() == 0 {
        assert(s.push(b)[0] == b);
        assert(s.push(b).drop_first() =~= Seq::<u8>::empty());
        assert(percent_encode_bytes(s.push(b).drop_first()) =~= Seq::<char>::empty());
        assert(percent_encode_bytes(s.push(b)) =~= percent_encode_byte(b) + Seq::<
            char,
        >::empty());
        assert(percent_encode_byte(b) + Seq::<char>::empty() =~= percent_encode_byte(b));
        assert(percent_encode_bytes(s) + percent_encode_byte(b) =~= percent_encode_byte(b));
    } else {
        assert(s.push(b).drop_first() =~= s.drop_first().push(b));
        lemma_percent_encode_push(s.drop_first(), b);
        assert(percent_encode_bytes(s.push(b)) == percent_encode_byte(s[0]) + percent_encode_bytes(
            s.drop_first().push(b),
        ));
    }
}

pub fn hex_upper_char(d: u8) -> (r: char)
    requires
        d < 16,
    ensures
        r == hex_upper_digit(d as nat),
{
    if d < 10 {
        dec_digit_char(d)
    } else if d == 10 {
        'A'
    } else if d == 11 {
        'B'
    } else if d == 12 {
        'C'
    } else if d == 13 {
        'D'
    } else if d == 14 {
        'E'
    } else {
        'F'
    }
}

/// A byte the form-urlencoded serialization leaves as it stands:
/// alphanumerics and `* - . _`.
pub open spec fn is_form_unchanged(b: u8) -> bool {
    is_ascii_alnum(b) || b == 42 || b == 45 || b == 46 || b == 95
}

/// Form-urlencoding of one byte: kept bare, a space as `+`, anything else
/// as `%XX` with uppercase hex digits.
pub open spec fn form_encode_byte(b: u8) -> Seq<char> {
    if is_form_unchanged(b) {
        seq![b as char]
    } else if b == 32 {
        seq!['+']
    } else {
        seq!['%', hex_upper_digit(b as nat / 16), hex_upper_digit(b as nat % 16)]
    }
}

/// Form-urlencoding of a byte string, byte by byte.
pub open spec fn form_encode_bytes(s: Seq<u8>) -> Seq<char>
    decreases s.len(),
{
    if s.len() == 0 {
        Seq::empty()
    } else {
        form_encode_byte(s[0]) + form_encode_bytes(s.drop_first())
    }
}

proof fn lemma_form_encode_push(s: Seq<u8>, b: u8)
    ensures
        form_encode_bytes(s.push(b)) == form_encode_bytes(s) + form_encode_byte(b),
    decreases s.len(),
{
    if s.len() == 0 {
        assert(s.push(b)[0] == b);
        assert(s.push(b).drop_first() =~= Seq::<u8>::empty());
        assert(form_encode_bytes(s.push(b).drop_first()) =~= Seq::<char>::empty());
        assert(form_encode_bytes(s.push(b)) =~= form_encode_byte(b) + Seq::<char>::empty());
        assert(form_encode_byte(b) + Seq::<char>::empty() =~= form_encode_byte(b));
        assert(form_encode_bytes(s) + form_encode_byte(b) =~= form_encode_byte(b));
    } else {
        assert(s.push(b)[0] == s[0]);
        assert(s.push(b).drop_first() =~= s.drop_first().push(b));
        lemma_form_encode_push(s.drop_first(), b);
        assert(form_encode_bytes(s.push(b)) =~= form_encode_bytes(s) + form_encode_byte(b));
    }
}

/// Form-urlencodes the UTF-8 bytes of `s`, as query strings are encoded.
pub fn form_encode(s: &str) -> (r: String)
    ensures
        r@ == form_encode_bytes(s.spec_bytes()),
{
    let bytes = s.as_bytes_vec();
    let mut out = String::new();
    let mut i: usize = 0;
    while i < bytes.len()
        invariant
            bytes@ == s.spec_bytes(),
            i <= bytes@.len(),
            out@ == form_encode_bytes(bytes@.take(i as int)),
        decreases bytes@.len() - i,
    {
        let b = bytes[i];
        if (48 <= b && b <= 57) || (65 <= b && b <= 90) || (97 <= b && b <= 122) || b == 42
            || b == 45 || b == 46 || b == 95 {
            push_char(&mut out, b as char);
        } else if b == 32 {
            push_char(&mut out, '+');
        } else {
            push_char(&mut out, '%');
            push_char(&mut out, hex_upper_char(b / 16));
            push_char(&mut out, hex_upper_char(b % 16));
        }
        proof {
            assert(bytes@.take(i + 1) =~= bytes@.take(i as int).push(b));
            lemma_form_encode_push(bytes@.take(i as int), b);
        }
        i = i + 1;
    }
    proof {
        assert(bytes@.take(bytes@.len() as int) =~= bytes@);
    }
    out
}

/// Percent-encodes the UTF-8 bytes of `s`, keeping only ASCII alphanumerics.
pub fn percent_encode(s: &str) -> (r: String)
    ensures
        r@ == percent_encode_bytes(s.spec_bytes()),
{
    let bytes = s.as_bytes_vec();
    let mut out = String::new();
    let mut i: usize = 0;
    while i < bytes.len()
        invariant
            bytes@ == s.spec_bytes(),
            i <= bytes@.len(),
            out@ == percent_encode_bytes(bytes@.take(i as int)),
        decreases bytes@.len() - i,
    {
        let b = bytes[i];
        if (48 <= b && b <= 57) || (65 <= b && b <= 90) || (97 <= b && b <= 122) {
            push_char(&mut out, b as char);
        } else {
            push_char(&mut out, '%');
            push_char(&mut out, hex_upper_char(b / 16));
            push_char(&mut out, hex_upper_char(b % 16));
        }
        proof {
            assert(bytes@.take(i + 1) =~= bytes@.take(i as int).push(b));
            lemma_percent_encode_push(bytes@.take(i as int), b);
        }
        i = i + 1;
    }
    proof {
        assert(bytes@.take(bytes@.len() as int) =~= bytes@);
    }
    out
}

} // verus!
