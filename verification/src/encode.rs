//! Byte-level encodings used by the request signer: percent-encoding with
//! the signing scheme's unreserved set, base64, and decimal rendering of
//! account ids.

use vstd::prelude::*;

verus! {

pub const CH_UPPER_A: u8 = 65;

pub const CH_UPPER_Z: u8 = 90;

pub const CH_LOWER_A: u8 = 97;

pub const CH_LOWER_Z: u8 = 122;

pub const CH_DIGIT_0: u8 = 48;

pub const CH_DIGIT_9: u8 = 57;

pub const CH_STAR: u8 = 42;

pub const CH_DASH: u8 = 45;

pub const CH_DOT: u8 = 46;

pub const CH_UNDERSCORE: u8 = 95;

pub const CH_PERCENT: u8 = 37;

/// The bytes the signing scheme leaves unescaped: ASCII alphanumerics and
/// `*`, `-`, `.`, `_`. Every other byte (including `~`) is escaped.
pub open spec fn is_unreserved(b: u8) -> bool {
    (CH_UPPER_A <= b && b <= CH_UPPER_Z) || (CH_LOWER_A <= b && b <= CH_LOWER_Z) || (CH_DIGIT_0
        <= b && b <= CH_DIGIT_9) || b == CH_STAR || b == CH_DASH || b == CH_DOT || b
        == CH_UNDERSCORE
}

/// Upper-case hexadecimal digit for a value below 16.
pub open spec fn hex_digit(x: u8) -> u8
    recommends
        x < 16,
{
    if x < 10 {
        (CH_DIGIT_0 + x) as u8
    } else {
        (CH_UPPER_A + (x - 10)) as u8
    }
}

/// How one byte is rendered: itself if unreserved, else `%` and two
/// upper-case hex digits.
pub open spec fn encode_byte(b: u8) -> Seq<u8> {
    if is_unreserved(b) {
        seq![b]
    } else {
        seq![CH_PERCENT, hex_digit(b / 16), hex_digit(b % 16)]
    }
}

/// Percent-encoding of a whole byte sequence.
pub open spec fn percent_encode_spec(s: Seq<u8>) -> Seq<u8>
    decreases s.len(),
{
    if s.len() == 0 {
        Seq::empty()
    } else {
        encode_byte(s[0]) + percent_encode_spec(s.subrange(1, s.len() as int))
    }
}

/// Percent-encoding distributes over concatenation.
pub proof fn lemma_percent_encode_concat(a: Seq<u8>, b: Seq<u8>)
    ensures
        percent_encode_spec(a + b) == percent_encode_spec(a) + percent_encode_spec(b),
    decreases a.len(),
{
    if a.len() == 0 {
        assert(a + b =~= b);
        assert(percent_encode_spec(a) + percent_encode_spec(b) =~= percent_encode_spec(b));
    } else {
        assert((a + b).subrange(1, (a + b).len() as int) =~= a.subrange(1, a.len() as int) + b);
        lemma_percent_encode_concat(a.subrange(1, a.len() as int), b);
        assert(percent_encode_spec(a + b) =~= percent_encode_spec(a) + percent_encode_spec(b));
    }
}

fn hex_digit_exec(x: u8) -> (r: u8)
    requires
        x < 16,
    ensures
        r == hex_digit(x),
{
    if x < 10 {
        CH_DIGIT_0 + x
    } else {
        CH_UPPER_A + (x - 10)
    }
}

fn is_unreserved_exec(b: u8) -> (r: bool)
    ensures
        r == is_unreserved(b),
{
    (CH_UPPER_A <= b && b <= CH_UPPER_Z) || (CH_LOWER_A <= b && b <= CH_LOWER_Z) || (CH_DIGIT_0
        <= b && b <= CH_DIGIT_9) || b == CH_STAR || b == CH_DASH || b == CH_DOT || b
        == CH_UNDERSCORE
}

/// Percent-encode a byte string with the signing scheme's unreserved set.
pub fn percent_encode(s: &[u8]) -> (r: Vec<u8>)
    ensures
        r@ == percent_encode_spec(s@),
{
    let mut r: Vec<u8> = Vec::new();
    let mut i: usize = 0;
    while i < s.len()
        invariant
            i <= s@.len(),
            r@ == percent_encode_spec(s@.subrange(0, i as int)),
        decreases s@.len() - i,
    {
        let b = s[i];
        if is_unreserved_exec(b) {
            r.push(b);
        } else {
            r.push(CH_PERCENT);
            r.push(hex_digit_exec(b / 16));
            r.push(hex_digit_exec(b % 16));
        }
        proof {
            let pre = s@.subrange(0, i as int);
            assert(s@.subrange(0, i + 1) =~= pre + seq![b]);
            lemma_percent_encode_concat(pre, seq![b]);
            assert(seq![b].subrange(1, 1) =~= Seq::<u8>::empty());
            assert(percent_encode_spec(seq![b]) == encode_byte(b) + percent_encode_spec(
                Seq::<u8>::empty(),
            ));
            assert(encode_byte(b) + Seq::<u8>::empty() =~= encode_byte(b));
        }
        i = i + 1;
    }
    proof {
        assert(s@.subrange(0, s@.len() as int) =~= s@);
    }
    r
}

pub const CH_PLUS: u8 = 43;

pub const CH_SLASH: u8 = 47;

pub const CH_EQUALS: u8 = 61;

/// The base64 alphabet character for a 6-bit value.
pub open spec fn b64_char(x: u8) -> u8
    recommends
        x < 64,
{
    if x < 26 {
        (CH_UPPER_A + x) as u8
    } else if x < 52 {
        (CH_LOWER_A + (x - 26)) as u8
    } else if x < 62 {
        (CH_DIGIT_0 + (x - 52)) as u8
    } else if x == 62 {
        CH_PLUS
    } else {
        CH_SLASH
    }
}

/// The four alphabet characters that encode one full group of three bytes.
pub open spec fn b64_quad(b0: u8, b1: u8, b2: u8) -> Seq<u8> {
    seq![
        b64_char((b0 / 4) as u8),
        b64_char(((b0 % 4) * 16 + b1 / 16) as u8),
        b64_char(((b1 % 16) * 4 + b2 / 64) as u8),
        b64_char((b2 % 64) as u8),
    ]
}

/// Standard base64 with `=` padding.
pub open spec fn base64_spec(s: Seq<u8>) -> Seq<u8>
    decreases s.len(),
{
    if s.len() == 0 {
        Seq::empty()
    } else if s.len() == 1 {
        seq![
            b64_char((s[0] / 4) as u8),
            b64_char(((s[0] % 4) * 16) as u8),
            CH_EQUALS,
            CH_EQUALS,
        ]
    } else if s.len() == 2 {
        seq![
            b64_char((s[0] / 4) as u8),
            b64_char(((s[0] % 4) * 16 + s[1] / 16) as u8),
            b64_char(((s[1] % 16) * 4) as u8),
            CH_EQUALS,
        ]
    } else {
        b64_quad(s[0], s[1], s[2]) + base64_spec(s.subrange(3, s.len() as int))
    }
}

/// Base64 distributes over concatenation when the left part is whole groups.
pub proof fn lemma_base64_concat(a: Seq<u8>, b: Seq<u8>)
    requires
        a.len() % 3 == 0,
    ensures
        base64_spec(a + b) == base64_spec(a) + base64_spec(b),
    decreases a.len(),
{
    if a.len() == 0 {
        assert(a + b =~= b);
        assert(base64_spec(a) + base64_spec(b) =~= base64_spec(b));
    } else {
        assert(a.len() >= 3);
        let a2 = a.subrange(3, a.len() as int);
        assert((a + b).subrange(3, (a + b).len() as int) =~= a2 + b);
        lemma_base64_concat(a2, b);
        if b.len() == 0 {
            assert(a + b =~= a);
            assert(base64_spec(a) + base64_spec(b) =~= base64_spec(a));
        } else {
            assert((a + b).len() >= 3);
            assert(base64_spec(a + b) == b64_quad(a[0], a[1], a[2]) + base64_spec(a2 + b));
            assert(base64_spec(a + b) =~= base64_spec(a) + base64_spec(b));
        }
    }
}

fn b64_char_exec(x: u8) -> (r: u8)
    requires
        x < 64,
    ensures
        r == b64_char(x),
{
    if x < 26 {
        CH_UPPER_A + x
    } else if x < 52 {
        CH_LOWER_A + (x - 26)
    } else if x < 62 {
        CH_DIGIT_0 + (x - 52)
    } else if x == 62 {
        CH_PLUS
    } else {
        CH_SLASH
    }
}

/// Base64-encode a byte string.
pub fn base64_encode(s: &Vec<u8>) -> (r: Vec<u8>)
    ensures
        r@ == base64_spec(s@),
{
    let mut r: Vec<u8> = Vec::new();
    let mut i: usize = 0;
    while s.len() - i >= 3
        invariant
            i <= s@.len(),
            i % 3 == 0,
            r@ == base64_spec(s@.subrange(0, i as int)),
        decreases s@.len() - i,
    {
        let b0 = s[i];
        let b1 = s[i + 1];
        let b2 = s[i + 2];
        r.push(b64_char_exec(b0 / 4));
        r.push(b64_char_exec((b0 % 4) * 16 + b1 / 16));
        r.push(b64_char_exec((b1 % 16) * 4 + b2 / 64));
        r.push(b64_char_exec(b2 % 64));
        proof {
            let pre = s@.subrange(0, i as int);
            let grp = seq![b0, b1, b2];
            assert(s@.subrange(0, i + 3) =~= pre + grp);
            lemma_base64_concat(pre, grp);
            assert(grp.subrange(3, 3) =~= Seq::<u8>::empty());
            assert(base64_spec(grp) == b64_quad(b0, b1, b2) + base64_spec(Seq::<u8>::empty()));
            assert(b64_quad(b0, b1, b2) + Seq::<u8>::empty() =~= b64_quad(b0, b1, b2));
            assert(r@ =~= base64_spec(s@.subrange(0, i + 3)));
        }
        i = i + 3;
    }
    proof {
        let pre = s@.subrange(0, i as int);
        let tail = s@.subrange(i as int, s@.len() as int);
        assert(s@ =~= pre + tail);
        lemma_base64_concat(pre, tail);
    }
    if i == s.len() {
        proof {
            assert(s@.subrange(i as int, s@.len() as int) =~= Seq::<u8>::empty());
            assert(r@ + Seq::<u8>::empty() =~= r@);
        }
    } else if i + 1 == s.len() {
        let b0 = s[i];
        r.push(b64_char_exec(b0 / 4));
        r.push(b64_char_exec((b0 % 4) * 16));
        r.push(CH_EQUALS);
        r.push(CH_EQUALS);
        proof {
            let tail = s@.subrange(i as int, s@.len() as int);
            assert(tail.len() == 1 && tail[0] == b0);
            assert(r@ =~= base64_spec(s@.subrange(0, i as int)) + base64_spec(tail));
        }
    } else {
        let b0 = s[i];
        let b1 = s[i + 1];
        r.push(b64_char_exec(b0 / 4));
        r.push(b64_char_exec((b0 % 4) * 16 + b1 / 16));
        r.push(b64_char_exec((b1 % 16) * 4));
        r.push(CH_EQUALS);
        proof {
            let tail = s@.subrange(i as int, s@.len() as int);
            assert(tail.len() == 2 && tail[0] == b0 && tail[1] == b1);
            assert(r@ =~= base64_spec(s@.subrange(0, i as int)) + base64_spec(tail));
        }
    }
    r
}

/// The decimal rendering of a nonnegative number, most significant digit
/// first, with no leading zeros.
pub open spec fn dec_digits(n: int) -> Seq<u8>
    recommends
        n >= 0,
    decreases n,
{
    if n < 10 {
        seq![(CH_DIGIT_0 + n) as u8]
    } else {
        dec_digits(n / 10) + seq![(CH_DIGIT_0 + n % 10) as u8]
    }
}

/// Render an account id as decimal digits.
pub fn u64_to_dec(n: u64) -> (r: Vec<u8>)
    ensures
        r@ == dec_digits(n as int),
    decreases n,
{
    if n < 10 {
        let mut v: Vec<u8> = Vec::new();
        v.push(CH_DIGIT_0 + (n as u8));
        proof {
            assert(v@ =~= dec_digits(n as int));
        }
        v
    } else {
        let mut v = u64_to_dec(n / 10);
        v.push(CH_DIGIT_0 + ((n % 10) as u8));
        proof {
            assert(v@ =~= dec_digits((n / 10) as int) + seq![(CH_DIGIT_0 + (n as int) % 10) as u8]);
        }
        v
    }
}

pub open spec fn is_dec_digit(b: u8) -> bool {
    CH_DIGIT_0 <= b && b <= CH_DIGIT_9
}

pub open spec fn all_dec_digits(s: Seq<u8>) -> bool {
    forall|i: int| 0 <= i < s.len() ==> is_dec_digit(s[i])
}

/// The number a digit string denotes.
pub open spec fn dec_val(s: Seq<u8>) -> int
    decreases s.len(),
{
    if s.len() == 0 {
        0
    } else {
        dec_val(s.drop_last()) * 10 + (s.last() - CH_DIGIT_0)
    }
}

proof fn lemma_dec_val_nonneg(s: Seq<u8>)
    requires
        all_dec_digits(s),
    ensures
        dec_val(s) >= 0,
    decreases s.len(),
{
    if s.len() > 0 {
        assert(all_dec_digits(s.drop_last())) by {
            assert(forall|i: int| 0 <= i < s.len() - 1 ==> s.drop_last()[i] == s[i]);
        }
        lemma_dec_val_nonneg(s.drop_last());
    }
}

proof fn lemma_dec_val_grows(s: Seq<u8>, i: int)
    requires
        all_dec_digits(s),
        0 <= i <= s.len(),
    ensures
        dec_val(s) >= dec_val(s.subrange(0, i)),
    decreases s.len() - i,
{
    if i < s.len() {
        let p = s.subrange(0, i);
        let q = s.subrange(0, i + 1);
        assert(q.drop_last() =~= p);
        assert(all_dec_digits(p));
        lemma_dec_val_nonneg(p);
        assert(dec_val(q) == dec_val(p) * 10 + (q.last() - CH_DIGIT_0));
        assert(dec_val(p) * 10 >= dec_val(p));
        lemma_dec_val_grows(s, i + 1);
        assert(s.subrange(0, s.len() as int) =~= s);
    } else {
        assert(s.subrange(0, s.len() as int) =~= s);
    }
}

/// Read an account id from its decimal digit string. Yields the value
/// exactly when the string is nonempty, all digits, and in range.
pub fn parse_u64(s: &[u8]) -> (r: Option<u64>)
    ensures
        match r {
            Some(n) => s@.len() > 0 && all_dec_digits(s@) && n as int == dec_val(s@),
            None => s@.len() == 0 || !all_dec_digits(s@) || dec_val(s@) > u64::MAX,
        },
{
    if s.len() == 0 {
        return None;
    }
    let mut acc: u64 = 0;
    let mut i: usize = 0;
    while i < s.len()
        invariant
            i <= s@.len(),
            all_dec_digits(s@.subrange(0, i as int)),
            acc as int == dec_val(s@.subrange(0, i as int)),
        decreases s@.len() - i,
    {
        let b = s[i];
        if b < CH_DIGIT_0 || b > CH_DIGIT_9 {
            return None;
        }
        let d = (b - CH_DIGIT_0) as u64;
        let acc10 = match acc.checked_mul(10) {
            Some(v) => v,
            None => {
                proof {
                    overflow_means_out_of_range(s@, i as int, acc as int, d as int);
                }
                return None;
            },
        };
        let next = match acc10.checked_add(d) {
            Some(v) => v,
            None => {
                proof {
                    overflow_means_out_of_range(s@, i as int, acc as int, d as int);
                }
                return None;
            },
        };
        proof {
            assert(s@.subrange(0, i + 1).drop_last() =~= s@.subrange(0, i as int));
        }
        acc = next;
        i = i + 1;
    }
    proof {
        assert(s@.subrange(0, s@.len() as int) =~= s@);
    }
    Some(acc)
}

/// If one more digit pushes the running value past the largest id, the
/// whole digit string is out of range.
proof fn overflow_means_out_of_range(s: Seq<u8>, i: int, acc: int, d: int)
    requires
        0 <= i < s.len(),
        all_dec_digits(s.subrange(0, i)),
        is_dec_digit(s[i]),
        acc == dec_val(s.subrange(0, i)),
        d == s[i] - CH_DIGIT_0,
        acc * 10 + d > u64::MAX,
    ensures
        !all_dec_digits(s) || dec_val(s) > u64::MAX,
{
    if all_dec_digits(s) {
        assert(s.subrange(0, i + 1).drop_last() =~= s.subrange(0, i));
        assert(dec_val(s.subrange(0, i + 1)) == acc * 10 + d);
        lemma_dec_val_grows(s, i + 1);
    }
}

/// All bytes below 128, so the sequence reads as one character per byte.
pub open spec fn all_ascii(s: Seq<u8>) -> bool {
    forall|i: int| 0 <= i < s.len() ==> s[i] < 128
}

/// The characters an ASCII byte string spells.
pub open spec fn chars_of_ascii(s: Seq<u8>) -> Seq<char> {
    Seq::new(s.len(), |i: int| s[i] as char)
}

/// Percent-encoded output is ASCII whatever went in.
pub proof fn lemma_percent_encode_ascii(s: Seq<u8>)
    ensures
        all_ascii(percent_encode_spec(s)),
    decreases s.len(),
{
    if s.len() > 0 {
        lemma_percent_encode_ascii(s.subrange(1, s.len() as int));
    }
}

/// Base64 output is ASCII.
pub proof fn lemma_base64_ascii(s: Seq<u8>)
    ensures
        all_ascii(base64_spec(s)),
    decreases s.len(),
{
    if s.len() > 2 {
        lemma_base64_ascii(s.subrange(3, s.len() as int));
    }
}

/// Decimal digit strings are ASCII.
pub proof fn lemma_dec_digits_ascii(n: int)
    requires
        n >= 0,
    ensures
        all_ascii(dec_digits(n)),
        all_dec_digits(dec_digits(n)),
    decreases n,
{
    if n >= 10 {
        lemma_dec_digits_ascii(n / 10);
    }
}

/// Relies on String::from_utf8: a sequence of bytes below 128 is valid
/// UTF-8 and decodes to one character per byte, with the same code.
#[verifier::external_body]
pub(crate) fn ascii_to_string(v: Vec<u8>) -> (r: String)
    requires
        all_ascii(v@),
    ensures
        r@ == chars_of_ascii(v@),
{
    match String::from_utf8(v) {
        Ok(s) => s,
        Err(_) => String::new(),
    }
}

/// Append one byte string to another.
pub fn push_bytes(dst: &mut Vec<u8>, src: &Vec<u8>)
    ensures
        final(dst)@ == old(dst)@ + src@,
{
    let mut i: usize = 0;
    while i < src.len()
        invariant
            i <= src@.len(),
            dst@ == old(dst)@ + src@.subrange(0, i as int),
        decreases src@.len() - i,
    {
        dst.push(src[i]);
        proof {
            assert(old(dst)@ + src@.subrange(0, i + 1) =~= (old(dst)@ + src@.subrange(
                0,
                i as int,
            )).push(src@[i as int]));
        }
        i = i + 1;
    }
    proof {
        assert(src@.subrange(0, src@.len() as int) =~= src@);
    }
}

/// Items joined by a separator.
pub open spec fn joined(items: Seq<Seq<u8>>, sep: Seq<u8>) -> Seq<u8>
    decreases items.len(),
{
    if items.len() == 0 {
        Seq::empty()
    } else if items.len() == 1 {
        items[0]
    } else {
        items[0] + sep + joined(items.subrange(1, items.len() as int), sep)
    }
}

pub proof fn lemma_joined_snoc(items: Seq<Seq<u8>>, sep: Seq<u8>, i: int)
    requires
        1 <= i < items.len(),
    ensures
        joined(items.subrange(0, i + 1), sep) == joined(items.subrange(0, i), sep) + sep
            + items[i],
    decreases i,
{
    let cur = items.subrange(0, i + 1);
    let pre = items.subrange(0, i);
    if i == 1 {
        assert(cur.subrange(1, cur.len() as int) =~= seq![items[1]]);
        assert(joined(cur, sep) == cur[0] + sep + joined(seq![items[1]], sep));
        assert(joined(pre, sep) == items[0]);
        assert(joined(cur, sep) =~= joined(pre, sep) + sep + items[i]);
    } else {
        let tail = items.subrange(1, items.len() as int);
        lemma_joined_snoc(tail, sep, i - 1);
        assert(cur.subrange(1, cur.len() as int) =~= tail.subrange(0, i));
        assert(pre.subrange(1, pre.len() as int) =~= tail.subrange(0, i - 1));
        assert(tail[i - 1] == items[i]);
        assert(joined(cur, sep) == cur[0] + sep + joined(tail.subrange(0, i), sep));
        assert(joined(pre, sep) == pre[0] + sep + joined(tail.subrange(0, i - 1), sep));
        assert(joined(cur, sep) =~= joined(pre, sep) + sep + items[i]);
    }
}

pub proof fn lemma_joined_ascii(items: Seq<Seq<u8>>, sep: Seq<u8>)
    requires
        forall|i: int| 0 <= i < items.len() ==> all_ascii(#[trigger] items[i]),
        all_ascii(sep),
    ensures
        all_ascii(joined(items, sep)),
    decreases items.len(),
{
    if items.len() > 1 {
        let tail = items.subrange(1, items.len() as int);
        assert(forall|i: int| 0 <= i < tail.len() ==> tail[i] == items[i + 1]);
        lemma_joined_ascii(tail, sep);
        let whole = items[0] + sep + joined(tail, sep);
        assert forall|j: int| 0 <= j < whole.len() implies whole[j] < 128 by {
            if j < items[0].len() {
                assert(whole[j] == items[0][j]);
            } else if j < items[0].len() + sep.len() {
                assert(whole[j] == sep[j - items[0].len()]);
            } else {
                assert(whole[j] == joined(tail, sep)[j - items[0].len() - sep.len()]);
            }
        }
    }
}

/// Lexicographic order on byte strings, a prefix coming first.
pub open spec fn lex_le(a: Seq<u8>, b: Seq<u8>) -> bool
    decreases a.len(),
{
    if a.len() == 0 {
        true
    } else if b.len() == 0 {
        false
    } else if a[0] < b[0] {
        true
    } else if a[0] > b[0] {
        false
    } else {
        lex_le(a.subrange(1, a.len() as int), b.subrange(1, b.len() as int))
    }
}

proof fn lemma_lex_skip(a: Seq<u8>, b: Seq<u8>, i: int)
    requires
        0 <= i <= a.len(),
        i <= b.len(),
        forall|j: int| 0 <= j < i ==> a[j] == b[j],
    ensures
        lex_le(a, b) == lex_le(a.subrange(i, a.len() as int), b.subrange(i, b.len() as int)),
    decreases i,
{
    if i == 0 {
        assert(a.subrange(0, a.len() as int) =~= a);
        assert(b.subrange(0, b.len() as int) =~= b);
    } else {
        let a1 = a.subrange(1, a.len() as int);
        let b1 = b.subrange(1, b.len() as int);
        lemma_lex_skip(a1, b1, i - 1);
        assert(a1.subrange(i - 1, a1.len() as int) =~= a.subrange(i, a.len() as int));
        assert(b1.subrange(i - 1, b1.len() as int) =~= b.subrange(i, b.len() as int));
    }
}

/// The order is total.
pub proof fn lemma_lex_total(a: Seq<u8>, b: Seq<u8>)
    ensures
        lex_le(a, b) || lex_le(b, a),
    decreases a.len(),
{
    if a.len() > 0 && b.len() > 0 && a[0] == b[0] {
        lemma_lex_total(a.subrange(1, a.len() as int), b.subrange(1, b.len() as int));
    }
}

/// The order is antisymmetric.
pub proof fn lemma_lex_antisym(a: Seq<u8>, b: Seq<u8>)
    requires
        lex_le(a, b),
        lex_le(b, a),
    ensures
        a == b,
    decreases a.len(),
{
    if a.len() == 0 {
        assert(b.len() == 0);
        assert(a =~= b);
    } else {
        assert(b.len() > 0);
        assert(a[0] == b[0]);
        lemma_lex_antisym(a.subrange(1, a.len() as int), b.subrange(1, b.len() as int));
        assert(a.subrange(1, a.len() as int).len() == b.subrange(1, b.len() as int).len());
        assert(a.len() == b.len());
        assert forall|j: int| 0 <= j < a.len() implies a[j] == b[j] by {
            if j > 0 {
                assert(a.subrange(1, a.len() as int)[j - 1] == a[j]);
                assert(b.subrange(1, b.len() as int)[j - 1] == b[j]);
            }
        }
        assert(a =~= b);
    }
}

/// The order is transitive.
pub proof fn lemma_lex_trans(a: Seq<u8>, b: Seq<u8>, c: Seq<u8>)
    requires
        lex_le(a, b),
        lex_le(b, c),
    ensures
        lex_le(a, c),
    decreases a.len(),
{
    if a.len() > 0 {
        assert(b.len() > 0);
        assert(c.len() > 0);
        if a[0] == c[0] {
            assert(a[0] == b[0] && b[0] == c[0]);
            lemma_lex_trans(
                a.subrange(1, a.len() as int),
                b.subrange(1, b.len() as int),
                c.subrange(1, c.len() as int),
            );
        }
    }
}

/// Decide the lexicographic order on byte strings.
pub fn lex_le_exec(a: &Vec<u8>, b: &Vec<u8>) -> (r: bool)
    ensures
        r == lex_le(a@, b@),
{
    let mut i: usize = 0;
    loop
        invariant
            i <= a@.len(),
            i <= b@.len(),
            forall|j: int| 0 <= j < i ==> a@[j] == b@[j],
        decreases a@.len() - i,
    {
        if i == a.len() {
            proof {
                lemma_lex_skip(a@, b@, i as int);
                assert(a@.subrange(i as int, a@.len() as int).len() == 0);
            }
            return true;
        }
        if i == b.len() {
            proof {
                lemma_lex_skip(a@, b@, i as int);
                assert(b@.subrange(i as int, b@.len() as int).len() == 0);
                assert(a@.subrange(i as int, a@.len() as int).len() > 0);
            }
            return false;
        }
        if a[i] < b[i] {
            proof {
                lemma_lex_skip(a@, b@, i as int);
                assert(a@.subrange(i as int, a@.len() as int)[0] == a@[i as int]);
                assert(b@.subrange(i as int, b@.len() as int)[0] == b@[i as int]);
            }
            return true;
        }
        if a[i] > b[i] {
            proof {
                lemma_lex_skip(a@, b@, i as int);
                assert(a@.subrange(i as int, a@.len() as int)[0] == a@[i as int]);
                assert(b@.subrange(i as int, b@.len() as int)[0] == b@[i as int]);
            }
            return false;
        }
        i = i + 1;
    }
}

} // verus!
