use crate::qr::Encoding;
use vstd::arithmetic::power2::{lemma_pow2_pos, lemma_pow2_unfold, pow2};
use vstd::bits::lemma_u32_shr_is_div;
use vstd::prelude::*;
use vstd::std_specs::iter::IteratorSpec;

verus! {

/// A sequence of bits, one per element, each 0 or 1.
pub type BitList = Vec<u8>;

/// Bit `k` (counting from the least significant) of `v`.
pub open spec fn bit_at(v: nat, k: nat) -> u8 {
    ((v / pow2(k)) % 2) as u8
}

/// The lowest `n` bits of `v`, most significant first.
pub open spec fn bits_of(v: nat, n: nat) -> Seq<u8> {
    Seq::new(n, |j: int| bit_at(v, (n - 1 - j) as nat))
}

/// The number whose binary digits, most significant first, are `s`.
pub open spec fn bits_value(s: Seq<u8>) -> nat
    decreases s.len(),
{
    if s.len() == 0 {
        0
    } else {
        2 * bits_value(s.drop_last()) + s.last() as nat
    }
}

pub open spec fn all_bits(s: Seq<u8>) -> bool {
    forall|i: int| 0 <= i < s.len() ==> #[trigger] s[i] <= 1
}

pub proof fn lemma_bits_of_split(v: nat, n: nat)
    requires
        n > 0,
    ensures
        bits_of(v, n) == bits_of(v / 2, (n - 1) as nat).push(bit_at(v, 0)),
{
    assert forall|j: int| 0 <= j < n - 1 implies #[trigger] bits_of(v, n)[j] == bits_of(
        v / 2,
        (n - 1) as nat,
    )[j] by {
        let k = (n - 1 - j) as nat;
        lemma_pow2_unfold(k);
        lemma_pow2_pos((k - 1) as nat);
        vstd::arithmetic::div_mod::lemma_div_denominator(v as int, 2, pow2((k - 1) as nat) as int);
    }
    assert(pow2(0) == 1) by {
        vstd::arithmetic::power2::lemma2_to64();
    }
    assert(bits_of(v, n) =~= bits_of(v / 2, (n - 1) as nat).push(bit_at(v, 0)));
}

/// Reading back the lowest `n` bits of `v` gives `v` modulo `2^n`.
pub proof fn lemma_bits_value_of(v: nat, n: nat)
    ensures
        bits_value(bits_of(v, n)) == v % pow2(n),
        all_bits(bits_of(v, n)),
    decreases n,
{
    if n == 0 {
        vstd::arithmetic::power2::lemma2_to64();
        assert(bits_of(v, n).len() == 0);
    } else {
        lemma_bits_of_split(v, n);
        lemma_bits_value_of(v / 2, (n - 1) as nat);
        let s = bits_of(v, n);
        assert(s.drop_last() =~= bits_of(v / 2, (n - 1) as nat));
        lemma_pow2_unfold(n);
        lemma_pow2_pos((n - 1) as nat);
        vstd::arithmetic::power2::lemma2_to64();
        let p = pow2((n - 1) as nat) as int;
        assert((v as int) % (2 * p) == 2 * ((v as int / 2) % p) + (v as int) % 2) by {
            vstd::arithmetic::div_mod::lemma_mod_breakdown(v as int, 2, p);
            vstd::arithmetic::mul::lemma_mul_is_commutative(2, p);
        }
        assert forall|i: int| 0 <= i < s.len() implies #[trigger] s[i] <= 1 by {}
    }
}

pub proof fn lemma_bits_value_bound(s: Seq<u8>)
    ensures
        bits_value(s) + 256 <= 256 * pow2(s.len()),
        all_bits(s) ==> bits_value(s) < pow2(s.len()),
    decreases s.len(),
{
    if s.len() == 0 {
        vstd::arithmetic::power2::lemma2_to64();
    } else {
        lemma_bits_value_bound(s.drop_last());
        lemma_pow2_unfold(s.len());
        if all_bits(s) {
            assert(all_bits(s.drop_last())) by {
                assert forall|i: int| 0 <= i < s.drop_last().len() implies #[trigger] s.drop_last()[i]
                    <= 1 by {
                    assert(s.drop_last()[i] == s[i]);
                }
            }
            assert(s.last() == s[s.len() - 1]);
        }
    }
}

/// Appends the lowest `bit_count` bits of `value` to `bit_list`, most significant first.
pub fn push_to_bit_list(bit_list: &mut BitList, value: u32, bit_count: u32)
    requires
        bit_count <= 32,
        old(bit_list).len() + bit_count <= usize::MAX,
    ensures
        final(bit_list)@ == old(bit_list)@ + bits_of(value as nat, bit_count as nat),
{
    let ghost start = bit_list@;
    let mut i: u32 = 0;
    while i < bit_count
        invariant
            i <= bit_count <= 32,
            start.len() + bit_count <= usize::MAX,
            bit_list@ == start + Seq::new(
                i as nat,
                |j: int| bit_at(value as nat, (bit_count - 1 - j) as nat),
            ),
        decreases bit_count - i,
    {
        let shift: u32 = bit_count - 1 - i;
        let shifted: u32 = value >> shift;
        let bit: u32 = shifted & 1;
        proof {
            lemma_u32_shr_is_div(value, shift);
            assert(shifted & 1 == shifted % 2) by (bit_vector);
            lemma_pow2_pos(shift as nat);
        }
        bit_list.push(bit as u8);
        i = i + 1;
        assert(bit_list@ =~= start + Seq::new(
            i as nat,
            |j: int| bit_at(value as nat, (bit_count - 1 - j) as nat),
        ));
    }
    assert(bit_list@ =~= start + bits_of(value as nat, bit_count as nat));
}

/// The integer whose binary digits, most significant first, are `bits`: up to 16
/// entries of any size, or up to 32 entries that are each 0 or 1.
pub fn collect_bits(bits: &[u8]) -> (r: usize)
    requires
        bits@.len() <= 16 || (bits@.len() <= 32 && all_bits(bits@)),
    ensures
        r == bits_value(bits@),
{
    let mut val: usize = 0;
    let mut i: usize = 0;
    while i < bits.len()
        invariant
            i <= bits@.len(),
            bits@.len() <= 16 || (bits@.len() <= 32 && all_bits(bits@)),
            val == bits_value(bits@.subrange(0, i as int)),
        decreases bits@.len() - i,
    {
        proof {
            let prefix = bits@.subrange(0, i as int);
            let next = bits@.subrange(0, i + 1);
            assert(next.drop_last() =~= prefix);
            lemma_bits_value_bound(prefix);
            vstd::arithmetic::power2::lemma2_to64();
            if bits@.len() <= 16 {
                vstd::arithmetic::power2::lemma_pow2_strictly_increases(i as nat, 16);
            } else {
                assert(all_bits(prefix)) by {
                    assert forall|j: int| 0 <= j < prefix.len() implies #[trigger] prefix[j] <= 1 by {
                        assert(prefix[j] == bits@[j]);
                    }
                }
                if i < 31 {
                    vstd::arithmetic::power2::lemma_pow2_strictly_increases(i as nat, 31);
                }
                assert(bits@[i as int] <= 1);
            }
        }
        val = val * 2 + bits[i] as usize;
        i = i + 1;
    }
    assert(bits@.subrange(0, i as int) =~= bits@);
    val
}

/// Extracts the characters of a string, in order.
pub fn chars_of(s: &str) -> (r: Vec<char>)
    ensures
        r@ == s@,
{
    let mut out: Vec<char> = Vec::new();
    let mut it = s.chars();
    loop
        invariant
            out@ + it.remaining() == s@,
            it.obeys_prophetic_iter_laws(),
            it.decrease() is Some,
        ensures
            out@ == s@,
        decreases it.decrease()->0,
    {
        let ghost before = it;
        match it.next() {
            Some(c) => {
                assert(out@.push(c) + it.remaining() =~= out@ + before.remaining());
                out.push(c);
            },
            None => {
                assert(it.remaining().len() == 0);
                assert(out@ =~= s@);
                break ;
            },
        }
    }
    out
}

pub open spec fn is_digit(c: char) -> bool {
    '0' <= c <= '9'
}

pub open spec fn digit_value(c: char) -> nat {
    (c as u32 - '0' as u32) as nat
}

pub open spec fn digit_char(d: nat) -> char {
    ((d + 48) as u8) as char
}

/// Index of `c` in the alphanumeric alphabet `0-9 A-Z space $ % * + - . / :`.
pub open spec fn alnum_index(c: char) -> Option<nat> {
    if '0' <= c <= '9' {
        Some((c as u32 - '0' as u32) as nat)
    } else if 'A' <= c <= 'Z' {
        Some((10 + c as u32 - 'A' as u32) as nat)
    } else if c == ' ' {
        Some(36)
    } else if c == '$' {
        Some(37)
    } else if c == '%' {
        Some(38)
    } else if c == '*' {
        Some(39)
    } else if c == '+' {
        Some(40)
    } else if '-' <= c <= '/' {
        Some((41 + c as u32 - '-' as u32) as nat)
    } else if c == ':' {
        Some(44)
    } else {
        None
    }
}

/// Character at index `i` (below 45) of the alphanumeric alphabet.
pub open spec fn alnum_char(i: nat) -> char {
    if i < 10 {
        ((i + 48) as u8) as char
    } else if i < 36 {
        ((i - 10 + 65) as u8) as char
    } else if i == 36 {
        ' '
    } else if i == 37 {
        '$'
    } else if i == 38 {
        '%'
    } else if i == 39 {
        '*'
    } else if i == 40 {
        '+'
    } else if i < 44 {
        ((i - 41 + 45) as u8) as char
    } else {
        ':'
    }
}

pub open spec fn is_alnum(c: char) -> bool {
    alnum_index(c) is Some
}

pub open spec fn is_latin(c: char) -> bool {
    c as u32 <= 255
}

/// The most compact mode able to hold every character of `s`.
pub open spec fn encoding_of(s: Seq<char>) -> Encoding {
    if forall|i: int| 0 <= i < s.len() ==> is_digit(#[trigger] s[i]) {
        Encoding::Numeric
    } else if forall|i: int| 0 <= i < s.len() ==> is_alnum(#[trigger] s[i]) {
        Encoding::Alphanumeric
    } else if forall|i: int| 0 <= i < s.len() ==> is_latin(#[trigger] s[i]) {
        Encoding::Byte
    } else {
        Encoding::ECI
    }
}

/// Whether mode `enc` can write the character `c`.
pub open spec fn in_alphabet(enc: Encoding, c: char) -> bool {
    match enc {
        Encoding::Numeric => is_digit(c),
        Encoding::Alphanumeric => is_alnum(c),
        Encoding::Byte => is_latin(c),
        Encoding::ECI => true,
    }
}

/// `c` is the first character of `s` that mode `enc` cannot write.
pub open spec fn first_rejected(s: Seq<char>, c: char, enc: Encoding) -> bool {
    exists|i: int|
        0 <= i < s.len() && s[i] == c && !in_alphabet(enc, c) && forall|j: int|
            0 <= j < i ==> in_alphabet(enc, #[trigger] s[j])
}

/// The mode whose alphabet is smallest among those holding all of `str`.
pub fn get_encoding(str: &str) -> (r: Encoding)
    ensures
        r == encoding_of(str@),
{
    let chars = chars_of(str);
    let mut numeric = true;
    let mut alnum = true;
    let mut latin = true;
    let mut i: usize = 0;
    while i < chars.len()
        invariant
            i <= chars@.len(),
            chars@ == str@,
            numeric == forall|k: int| 0 <= k < i ==> is_digit(#[trigger] chars@[k]),
            alnum == forall|k: int| 0 <= k < i ==> is_alnum(#[trigger] chars@[k]),
            latin == forall|k: int| 0 <= k < i ==> is_latin(#[trigger] chars@[k]),
        decreases chars@.len() - i,
    {
        let ch = chars[i];
        numeric = numeric && ch >= '0' && ch <= '9';
        alnum = alnum && alphanumeric_char_to_idx(ch).is_some();
        latin = latin && (ch as u32) <= 255;
        i = i + 1;
    }
    if numeric {
        Encoding::Numeric
    } else if alnum {
        Encoding::Alphanumeric
    } else if latin {
        Encoding::Byte
    } else {
        Encoding::ECI
    }
}

/// Index of a character in the alphanumeric alphabet, if it belongs to it.
pub fn alphanumeric_char_to_idx(ch: char) -> (r: Option<u32>)
    ensures
        r matches Some(i) ==> alnum_index(ch) == Some(i as nat),
        r is None ==> alnum_index(ch) is None,
{
    if ch >= '0' && ch <= '9' {
        Some((ch as u32) - ('0' as u32))
    } else if ch >= 'A' && ch <= 'Z' {
        Some(10 + (ch as u32) - ('A' as u32))
    } else if ch == ' ' {
        Some(36)
    } else if ch == '$' {
        Some(37)
    } else if ch == '%' {
        Some(38)
    } else if ch == '*' {
        Some(39)
    } else if ch == '+' {
        Some(40)
    } else if ch >= '-' && ch <= '/' {
        Some(41 + (ch as u32) - ('-' as u32))
    } else if ch == ':' {
        Some(44)
    } else {
        None
    }
}

/// Relies on `String::push`: appends one character at the end.
#[verifier::external_body]
fn push_char(s: &mut String, c: char)
    ensures
        final(s)@ == old(s)@.push(c),
{
    s.push(c)
}

proof fn lemma_digit_char(c: char)
    requires
        is_digit(c),
    ensures
        digit_char(digit_value(c)) == c,
{
}

proof fn lemma_alnum_char(c: char)
    requires
        is_alnum(c),
    ensures
        alnum_value(c) < 45,
        alnum_char(alnum_value(c)) == c,
{
}

proof fn lemma_latin_char(c: char)
    requires
        is_latin(c),
    ensures
        ((c as u32) as u8) as char == c,
{
}

pub open spec fn alnum_value(c: char) -> nat {
    match alnum_index(c) {
        Some(i) => i,
        None => 0,
    }
}

/// Bits of a digit string: each group of three digits in 10 bits, a final pair in 7,
/// a final single digit in 4.
pub open spec fn numeric_bits(s: Seq<char>) -> Seq<u8>
    decreases s.len(),
{
    if s.len() >= 3 {
        bits_of(digit_value(s[0]) * 100 + digit_value(s[1]) * 10 + digit_value(s[2]), 10)
            + numeric_bits(s.subrange(3, s.len() as int))
    } else if s.len() == 2 {
        bits_of(digit_value(s[0]) * 10 + digit_value(s[1]), 7)
    } else if s.len() == 1 {
        bits_of(digit_value(s[0]), 4)
    } else {
        Seq::empty()
    }
}

/// Bits of an alphanumeric string: each pair as `45 * first + second` in 11 bits,
/// a final single character in 6.
pub open spec fn alnum_bits(s: Seq<char>) -> Seq<u8>
    decreases s.len(),
{
    if s.len() >= 2 {
        bits_of(alnum_value(s[0]) * 45 + alnum_value(s[1]), 11) + alnum_bits(
            s.subrange(2, s.len() as int),
        )
    } else if s.len() == 1 {
        bits_of(alnum_value(s[0]), 6)
    } else {
        Seq::empty()
    }
}

/// Bits of a Latin-1 string: each code point in 8 bits.
pub open spec fn latin_bits(s: Seq<char>) -> Seq<u8>
    decreases s.len(),
{
    if s.len() == 0 {
        Seq::empty()
    } else {
        bits_of(s[0] as u32 as nat, 8) + latin_bits(s.subrange(1, s.len() as int))
    }
}

/// Reads 10-bit groups as three digits, a final 7-bit group as two, a final 4-bit group
/// as one; `None` on an out-of-range group or a final group of another width.
pub open spec fn numeric_decoded(b: Seq<u8>) -> Option<Seq<char>>
    decreases b.len(),
{
    if b.len() == 0 {
        Some(Seq::empty())
    } else if b.len() >= 10 {
        let v = bits_value(b.subrange(0, 10));
        if v >= 1000 {
            None
        } else {
            match numeric_decoded(b.subrange(10, b.len() as int)) {
                Some(t) => Some(
                    seq![digit_char(v / 100), digit_char((v / 10) % 10), digit_char(v % 10)] + t,
                ),
                None => None,
            }
        }
    } else if b.len() == 7 {
        let v = bits_value(b);
        if v >= 100 {
            None
        } else {
            Some(seq![digit_char((v / 10) % 10), digit_char(v % 10)])
        }
    } else if b.len() == 4 {
        let v = bits_value(b);
        if v >= 10 {
            None
        } else {
            Some(seq![digit_char(v)])
        }
    } else {
        None
    }
}

/// Reads 11-bit groups as two characters, a final 6-bit group as one; `None` on an
/// out-of-range pair or a final group of another width.
pub open spec fn alnum_decoded(b: Seq<u8>) -> Option<Seq<char>>
    decreases b.len(),
{
    if b.len() == 0 {
        Some(Seq::empty())
    } else if b.len() >= 11 {
        let v = bits_value(b.subrange(0, 11));
        if v >= 45 * 45 {
            None
        } else {
            match alnum_decoded(b.subrange(11, b.len() as int)) {
                Some(t) => Some(seq![alnum_char(v / 45), alnum_char(v % 45)] + t),
                None => None,
            }
        }
    } else if b.len() == 6 {
        Some(seq![alnum_char(bits_value(b) % 45)])
    } else {
        None
    }
}

/// Reads 8-bit groups (the last one possibly shorter) as code points; `None` when a
/// group exceeds 255.
pub open spec fn latin_decoded(b: Seq<u8>) -> Option<Seq<char>>
    decreases b.len(),
{
    if b.len() == 0 {
        Some(Seq::empty())
    } else {
        let k: int = if b.len() >= 8 { 8 } else { b.len() as int };
        let v = bits_value(b.subrange(0, k));
        if v > 255 {
            None
        } else {
            match latin_decoded(b.subrange(k, b.len() as int)) {
                Some(t) => Some(seq![(v as u8) as char] + t),
                None => None,
            }
        }
    }
}

/// Encodes a string in alphanumeric mode, or returns its first character outside
/// `0-9 A-Z space $ % * + - . / :`.
pub fn encode_alphanumeric(str: &str) -> (r: Result<BitList, char>)
    requires
        str@.len() <= usize::MAX / 8,
    ensures
        r is Ok <==> forall|i: int| 0 <= i < str@.len() ==> is_alnum(#[trigger] str@[i]),
        r matches Ok(b) ==> b@ == alnum_bits(str@),
        r matches Err(c) ==> first_rejected(str@, c, Encoding::Alphanumeric),
{
    let chars = chars_of(str);
    let len = chars.len();
    let ghost s = str@;
    let mut out: BitList = Vec::new();
    let mut i: usize = 0;
    assert(s.subrange(0, len as int) =~= s);
    while i < len
        invariant
            chars@ == s,
            s == str@,
            len == s.len(),
            len <= usize::MAX / 8,
            i <= len,
            out@.len() <= 6 * i,
            forall|k: int| 0 <= k < i ==> is_alnum(#[trigger] s[k]),
            alnum_bits(s) == out@ + alnum_bits(s.subrange(i as int, len as int)),
        decreases len - i,
    {
        let ghost rest = s.subrange(i as int, len as int);
        let first = chars[i];
        let a = match alphanumeric_char_to_idx(first) {
            Some(a) => a,
            None => {
                proof {
                    assert(s[i as int] == first);
                    assert(first_rejected(s, first, Encoding::Alphanumeric));
                }
                return Err(first);
            },
        };
        if len - i >= 2 {
            let second = chars[i + 1];
            let b = match alphanumeric_char_to_idx(second) {
                Some(b) => b,
                None => {
                    assert(s[i + 1] == second);
                    assert forall|k: int| 0 <= k < i + 1 implies is_alnum(#[trigger] s[k]) by {
                        if k == i {
                            assert(s[k] == first);
                        }
                    }
                    assert(first_rejected(s, second, Encoding::Alphanumeric)) by {
                        assert(s[i + 1] == second);
                    }
                    return Err(second);
                },
            };
            proof {
                lemma_alnum_char(first);
                lemma_alnum_char(second);
            }
            let ghost prev = out@;
            push_to_bit_list(&mut out, a * 45 + b, 11);
            assert(rest.subrange(2, rest.len() as int) =~= s.subrange(i + 2, len as int));
            assert(out@ + alnum_bits(s.subrange(i + 2, len as int)) =~= prev + alnum_bits(rest));
            i = i + 2;
        } else {
            let ghost prev = out@;
            proof {
                lemma_alnum_char(first);
            }
            push_to_bit_list(&mut out, a, 6);
            assert(s.subrange(i + 1, len as int).len() == 0);
            assert(out@ + alnum_bits(s.subrange(i + 1, len as int)) =~= prev + alnum_bits(rest));
            i = i + 1;
        }
    }
    assert(out@ =~= out@ + alnum_bits(s.subrange(len as int, len as int)));
    Ok(out)
}

/// Encodes a digit string in numeric mode, or returns its first character that is not
/// a decimal digit.
pub fn encode_numeric(str: &str) -> (r: Result<BitList, char>)
    requires
        str@.len() <= usize::MAX / 8,
    ensures
        r is Ok <==> forall|i: int| 0 <= i < str@.len() ==> is_digit(#[trigger] str@[i]),
        r matches Ok(b) ==> b@ == numeric_bits(str@),
        r matches Err(c) ==> first_rejected(str@, c, Encoding::Numeric),
{
    let chars = chars_of(str);
    let len = chars.len();
    let ghost s = str@;
    let mut digits: Vec<u32> = Vec::new();
    let mut i: usize = 0;
    while i < len
        invariant
            chars@ == s,
            s == str@,
            len == s.len(),
            i <= len,
            digits@.len() == i,
            forall|k: int| 0 <= k < i ==> is_digit(#[trigger] s[k]),
            forall|k: int| 0 <= k < i ==> #[trigger] digits@[k] == digit_value(s[k]),
        decreases len - i,
    {
        let ch = chars[i];
        if ch < '0' || ch > '9' {
            assert(s[i as int] == ch);
            assert(first_rejected(s, ch, Encoding::Numeric));
            return Err(ch);
        }
        digits.push((ch as u32) - ('0' as u32));
        i = i + 1;
    }
    let mut out: BitList = Vec::new();
    let mut i: usize = 0;
    assert(s.subrange(0, len as int) =~= s);
    while i < len
        invariant
            chars@ == s,
            s == str@,
            len == s.len(),
            len <= usize::MAX / 8,
            i <= len,
            digits@.len() == len,
            forall|k: int| 0 <= k < len ==> is_digit(#[trigger] s[k]),
            forall|k: int| 0 <= k < len ==> #[trigger] digits@[k] == digit_value(s[k]),
            out@.len() <= 4 * i,
            numeric_bits(s) == out@ + numeric_bits(s.subrange(i as int, len as int)),
        decreases len - i,
    {
        let ghost rest = s.subrange(i as int, len as int);
        let ghost prev = out@;
        assert(is_digit(s[i as int]));
        if len - i >= 3 {
            assert(is_digit(s[i + 1]) && is_digit(s[i + 2]));
            push_to_bit_list(&mut out, digits[i] * 100 + digits[i + 1] * 10 + digits[i + 2], 10);
            assert(rest.subrange(3, rest.len() as int) =~= s.subrange(i + 3, len as int));
            assert(out@ + numeric_bits(s.subrange(i + 3, len as int)) =~= prev + numeric_bits(
                rest,
            ));
            i = i + 3;
        } else if len - i == 2 {
            assert(is_digit(s[i + 1]));
            push_to_bit_list(&mut out, digits[i] * 10 + digits[i + 1], 7);
            assert(s.subrange(i + 2, len as int).len() == 0);
            assert(out@ + numeric_bits(s.subrange(i + 2, len as int)) =~= prev + numeric_bits(
                rest,
            ));
            i = i + 2;
        } else {
            push_to_bit_list(&mut out, digits[i], 4);
            assert(s.subrange(i + 1, len as int).len() == 0);
            assert(out@ + numeric_bits(s.subrange(i + 1, len as int)) =~= prev + numeric_bits(
                rest,
            ));
            i = i + 1;
        }
    }
    assert(out@ =~= out@ + numeric_bits(s.subrange(len as int, len as int)));
    Ok(out)
}

/// Encodes a string in byte mode (Latin-1), or returns its first character above
/// code point 255.
pub fn encode_latin(str: &str) -> (r: Result<BitList, char>)
    requires
        str@.len() <= usize::MAX / 8,
    ensures
        r is Ok <==> forall|i: int| 0 <= i < str@.len() ==> is_latin(#[trigger] str@[i]),
        r matches Ok(b) ==> b@ == latin_bits(str@),
        r matches Err(c) ==> first_rejected(str@, c, Encoding::Byte),
{
    let chars = chars_of(str);
    let len = chars.len();
    let ghost s = str@;
    let mut out: BitList = Vec::new();
    let mut i: usize = 0;
    assert(s.subrange(0, len as int) =~= s);
    while i < len
        invariant
            chars@ == s,
            s == str@,
            len == s.len(),
            len <= usize::MAX / 8,
            i <= len,
            out@.len() == 8 * i,
            forall|k: int| 0 <= k < i ==> is_latin(#[trigger] s[k]),
            latin_bits(s) == out@ + latin_bits(s.subrange(i as int, len as int)),
        decreases len - i,
    {
        let ch = chars[i];
        if (ch as u32) > 255 {
            assert(s[i as int] == ch);
            assert(first_rejected(s, ch, Encoding::Byte));
            return Err(ch);
        }
        let ghost rest = s.subrange(i as int, len as int);
        let ghost prev = out@;
        push_to_bit_list(&mut out, ch as u32, 8);
        assert(rest.subrange(1, rest.len() as int) =~= s.subrange(i + 1, len as int));
        assert(out@ + latin_bits(s.subrange(i + 1, len as int)) =~= prev + latin_bits(rest));
        i = i + 1;
    }
    assert(out@ =~= out@ + latin_bits(s.subrange(len as int, len as int)));
    Ok(out)
}

/// `p` in front of the decoded text, when there is one.
pub open spec fn prepend(p: Seq<char>, o: Option<Seq<char>>) -> Option<Seq<char>> {
    match o {
        Some(t) => Some(p + t),
        None => None,
    }
}

fn digit_to_char(d: usize) -> (c: char)
    requires
        d < 10,
    ensures
        c == digit_char(d as nat),
{
    ((d as u8) + 48) as char
}

/// Character at index `i` of the alphanumeric alphabet.
fn alphanumeric_idx_to_char(i: usize) -> (c: char)
    requires
        i < 45,
    ensures
        c == alnum_char(i as nat),
{
    if i < 10 {
        ((i as u8) + 48) as char
    } else if i < 36 {
        ((i as u8) - 10 + 65) as char
    } else if i == 36 {
        ' '
    } else if i == 37 {
        '$'
    } else if i == 38 {
        '%'
    } else if i == 39 {
        '*'
    } else if i == 40 {
        '+'
    } else if i < 44 {
        ((i as u8) - 41 + 45) as char
    } else {
        ':'
    }
}

/// Decodes a numeric-mode bit list back into its digits.
pub fn decode_numeric(seq: BitList) -> (r: Option<String>)
    ensures
        r is None <==> numeric_decoded(seq@) is None,
        r matches Some(t) ==> numeric_decoded(seq@) == Some(t@),
{
    let mut out = String::new();
    let len = seq.len();
    let mut pos: usize = 0;
    assert(seq@.subrange(0, len as int) =~= seq@);
    assert(out@ + seq![] =~= out@);
    while pos < len
        invariant
            pos <= len == seq@.len(),
            numeric_decoded(seq@) == prepend(out@, numeric_decoded(seq@.subrange(pos as int, len as int))),
        decreases len - pos,
    {
        let ghost rest = seq@.subrange(pos as int, len as int);
        let ghost prev = out@;
        let rem = len - pos;
        if rem >= 10 {
            let v = collect_bits(&seq.as_slice()[pos..pos + 10]);
            assert(seq@.subrange(pos as int, pos + 10) =~= rest.subrange(0, 10));
            if v >= 1000 {
                return None;
            }
            push_char(&mut out, digit_to_char(v / 100));
            push_char(&mut out, digit_to_char((v / 10) % 10));
            push_char(&mut out, digit_to_char(v % 10));
            assert(rest.subrange(10, rest.len() as int) =~= seq@.subrange(pos + 10, len as int));
            proof {
                let d = seq![digit_char((v / 100) as nat), digit_char(((v / 10) % 10) as nat), digit_char((v % 10) as nat)];
                assert(out@ =~= prev + d);
                match numeric_decoded(seq@.subrange(pos + 10, len as int)) {
                    Some(t) => {
                        assert(prev + (d + t) =~= out@ + t);
                    },
                    None => {},
                }
            }
            pos = pos + 10;
        } else if rem == 7 || rem == 4 {
            let v = collect_bits(&seq.as_slice()[pos..len]);
            assert(seq@.subrange(pos as int, len as int) =~= rest);
            if rem == 7 {
                if v >= 100 {
                    return None;
                }
                push_char(&mut out, digit_to_char((v / 10) % 10));
                push_char(&mut out, digit_to_char(v % 10));
            } else {
                if v >= 10 {
                    return None;
                }
                push_char(&mut out, digit_to_char(v));
            }
            proof {
                assert(seq@.subrange(len as int, len as int) =~= Seq::<u8>::empty());
                assert(out@ + Seq::<char>::empty() =~= out@);
                if rem == 7 {
                    assert(out@ =~= prev + seq![digit_char(((v / 10) % 10) as nat), digit_char((v % 10) as nat)]);
                } else {
                    assert(out@ =~= prev + seq![digit_char(v as nat)]);
                }
            }
            pos = len;
        } else {
            return None;
        }
    }
    assert(seq@.subrange(len as int, len as int) =~= Seq::<u8>::empty());
    assert(out@ + Seq::<char>::empty() =~= out@);
    Some(out)
}

/// Decodes an alphanumeric-mode bit list back into its characters.
pub fn decode_alphanumeric(seq: BitList) -> (r: Option<String>)
    ensures
        r is None <==> alnum_decoded(seq@) is None,
        r matches Some(t) ==> alnum_decoded(seq@) == Some(t@),
{
    let mut out = String::new();
    let len = seq.len();
    let mut pos: usize = 0;
    assert(seq@.subrange(0, len as int) =~= seq@);
    assert(out@ + seq![] =~= out@);
    while pos < len
        invariant
            pos <= len == seq@.len(),
            alnum_decoded(seq@) == prepend(out@, alnum_decoded(seq@.subrange(pos as int, len as int))),
        decreases len - pos,
    {
        let ghost rest = seq@.subrange(pos as int, len as int);
        let ghost prev = out@;
        let rem = len - pos;
        if rem >= 11 {
            let v = collect_bits(&seq.as_slice()[pos..pos + 11]);
            assert(seq@.subrange(pos as int, pos + 11) =~= rest.subrange(0, 11));
            if v >= 45 * 45 {
                return None;
            }
            push_char(&mut out, alphanumeric_idx_to_char(v / 45));
            push_char(&mut out, alphanumeric_idx_to_char(v % 45));
            assert(rest.subrange(11, rest.len() as int) =~= seq@.subrange(pos + 11, len as int));
            proof {
                let d = seq![alnum_char((v / 45) as nat), alnum_char((v % 45) as nat)];
                assert(out@ =~= prev + d);
                match alnum_decoded(seq@.subrange(pos + 11, len as int)) {
                    Some(t) => {
                        assert(prev + (d + t) =~= out@ + t);
                    },
                    None => {},
                }
            }
            pos = pos + 11;
        } else if rem == 6 {
            let v = collect_bits(&seq.as_slice()[pos..len]);
            assert(seq@.subrange(pos as int, len as int) =~= rest);
            push_char(&mut out, alphanumeric_idx_to_char(v % 45));
            proof {
                assert(seq@.subrange(len as int, len as int) =~= Seq::<u8>::empty());
                assert(out@ + Seq::<char>::empty() =~= out@);
                assert(out@ =~= prev + seq![alnum_char((v % 45) as nat)]);
            }
            pos = len;
        } else {
            return None;
        }
    }
    assert(seq@.subrange(len as int, len as int) =~= Seq::<u8>::empty());
    assert(out@ + Seq::<char>::empty() =~= out@);
    Some(out)
}

/// Decodes a byte-mode bit list back into Latin-1 characters.
pub fn decode_latin(seq: BitList) -> (r: Option<String>)
    ensures
        r is None <==> latin_decoded(seq@) is None,
        r matches Some(t) ==> latin_decoded(seq@) == Some(t@),
{
    let mut out = String::new();
    let len = seq.len();
    let mut pos: usize = 0;
    assert(seq@.subrange(0, len as int) =~= seq@);
    assert(out@ + seq![] =~= out@);
    while pos < len
        invariant
            pos <= len == seq@.len(),
            latin_decoded(seq@) == prepend(out@, latin_decoded(seq@.subrange(pos as int, len as int))),
        decreases len - pos,
    {
        let ghost rest = seq@.subrange(pos as int, len as int);
        let ghost prev = out@;
        let k: usize = if len - pos >= 8 { 8 } else { len - pos };
        let code = collect_bits(&seq.as_slice()[pos..pos + k]);
        assert(seq@.subrange(pos as int, pos + k) =~= rest.subrange(0, k as int));
        if code > 255 {
            return None;
        }
        push_char(&mut out, (code as u8) as char);
        assert(rest.subrange(k as int, rest.len() as int) =~= seq@.subrange(pos + k, len as int));
        proof {
            let d = seq![(code as u8) as char];
            assert(out@ =~= prev + d);
            match latin_decoded(seq@.subrange(pos + k, len as int)) {
                Some(t) => {
                    assert(prev + (d + t) =~= out@ + t);
                },
                None => {},
            }
        }
        pos = pos + k;
    }
    assert(seq@.subrange(len as int, len as int) =~= Seq::<u8>::empty());
    assert(out@ + Seq::<char>::empty() =~= out@);
    Some(out)
}

proof fn lemma_three_digits(a: nat, b: nat, c: nat)
    requires
        a < 10,
        b < 10,
        c < 10,
    ensures
        (a * 100 + b * 10 + c) / 100 == a,
        ((a * 100 + b * 10 + c) / 10) % 10 == b,
        (a * 100 + b * 10 + c) % 10 == c,
        (a * 10 + b) / 10 % 10 == a,
        (a * 10 + b) % 10 == b,
{
    assert((a * 100 + b * 10 + c) / 100 == a) by (nonlinear_arith)
        requires
            a < 10,
            b < 10,
            c < 10,
    ;
    assert((a * 100 + b * 10 + c) / 10 == a * 10 + b) by (nonlinear_arith)
        requires
            a < 10,
            b < 10,
            c < 10,
    ;
    assert((a * 10 + b) % 10 == b) by (nonlinear_arith)
        requires
            a < 10,
            b < 10,
    ;
    assert((a * 100 + b * 10 + c) % 10 == c) by (nonlinear_arith)
        requires
            a < 10,
            b < 10,
            c < 10,
    ;
    assert((a * 10 + b) / 10 == a) by (nonlinear_arith)
        requires
            a < 10,
            b < 10,
    ;
}

proof fn lemma_read_back(v: nat, n: nat)
    requires
        v < pow2(n),
    ensures
        bits_value(bits_of(v, n)) == v,
{
    lemma_bits_value_of(v, n);
    vstd::arithmetic::div_mod::lemma_small_mod(v, pow2(n));
}

proof fn lemma_numeric_group(s: Seq<char>)
    requires
        s.len() >= 3,
        forall|i: int| 0 <= i < s.len() ==> is_digit(#[trigger] s[i]),
        numeric_decoded(numeric_bits(s.subrange(3, s.len() as int))) == Some(s.subrange(3, s.len() as int)),
    ensures
        numeric_decoded(numeric_bits(s)) == Some(s),
{
    let b = numeric_bits(s);
    let (d0, d1, d2) = (digit_value(s[0]), digit_value(s[1]), digit_value(s[2]));
    let v = d0 * 100 + d1 * 10 + d2;
    let tail = s.subrange(3, s.len() as int);
    assert(is_digit(s[0]) && is_digit(s[1]) && is_digit(s[2]));
    assert(pow2(10) == 1024) by {
        vstd::arithmetic::power2::lemma2_to64();
    }
    lemma_three_digits(d0, d1, d2);
    lemma_read_back(v, 10);
    lemma_digit_char(s[0]);
    lemma_digit_char(s[1]);
    lemma_digit_char(s[2]);
    assert(b.subrange(0, 10) =~= bits_of(v, 10));
    assert(b.subrange(10, b.len() as int) =~= numeric_bits(tail));
    assert(seq![s[0], s[1], s[2]] + tail =~= s);
}

/// Decoding the numeric-mode bits of a digit string gives the string back.
#[verifier::rlimit(60)]
pub proof fn lemma_numeric_round_trip(s: Seq<char>)
    requires
        forall|i: int| 0 <= i < s.len() ==> is_digit(#[trigger] s[i]),
    ensures
        numeric_decoded(numeric_bits(s)) == Some(s),
    decreases s.len(),
{
    if s.len() >= 3 {
        let tail = s.subrange(3, s.len() as int);
        assert forall|i: int| 0 <= i < tail.len() implies is_digit(#[trigger] tail[i]) by {
            assert(tail[i] == s[i + 3]);
        }
        lemma_numeric_round_trip(tail);
        lemma_numeric_group(s);
    } else if s.len() == 2 {
        let (d0, d1) = (digit_value(s[0]), digit_value(s[1]));
        assert(pow2(7) == 128) by {
            vstd::arithmetic::power2::lemma2_to64();
        }
        assert(is_digit(s[0]) && is_digit(s[1]));
        lemma_three_digits(d0, d1, 0);
        lemma_read_back(d0 * 10 + d1, 7);
        lemma_digit_char(s[0]);
        lemma_digit_char(s[1]);
        assert(seq![s[0], s[1]] =~= s);
    } else if s.len() == 1 {
        assert(pow2(4) == 16) by {
            vstd::arithmetic::power2::lemma2_to64();
        }
        assert(is_digit(s[0]));
        lemma_read_back(digit_value(s[0]), 4);
        lemma_digit_char(s[0]);
        assert(seq![s[0]] =~= s);
    } else {
        assert(s =~= Seq::<char>::empty());
    }
}

proof fn lemma_alnum_pair(a: nat, c: nat)
    requires
        a < 45,
        c < 45,
    ensures
        (a * 45 + c) / 45 == a,
        (a * 45 + c) % 45 == c,
        a * 45 + c < 2025,
        a * 45 + c < pow2(11),
{
    vstd::arithmetic::div_mod::lemma_fundamental_div_mod_converse((a * 45 + c) as int, 45, a as int, c as int);
    vstd::arithmetic::power2::lemma2_to64();
}

/// Decoding the alphanumeric-mode bits of a string over that alphabet gives the
/// string back.
#[verifier::rlimit(60)]
pub proof fn lemma_alphanumeric_round_trip(s: Seq<char>)
    requires
        forall|i: int| 0 <= i < s.len() ==> is_alnum(#[trigger] s[i]),
    ensures
        alnum_decoded(alnum_bits(s)) == Some(s),
    decreases s.len(),
{
    let b = alnum_bits(s);
    if s.len() >= 2 {
        let (a, c) = (alnum_value(s[0]), alnum_value(s[1]));
        let v = a * 45 + c;
        let tail = s.subrange(2, s.len() as int);
        assert forall|i: int| 0 <= i < tail.len() implies is_alnum(#[trigger] tail[i]) by {
            assert(tail[i] == s[i + 2]);
        }
        lemma_alphanumeric_round_trip(tail);
        lemma_alnum_char(s[0]);
        lemma_alnum_char(s[1]);
        lemma_alnum_pair(a, c);
        lemma_read_back(v, 11);
        assert(b.subrange(0, 11) =~= bits_of(v, 11));
        assert(b.subrange(11, b.len() as int) =~= alnum_bits(tail));
        assert(seq![s[0], s[1]] + tail =~= s);
    } else if s.len() == 1 {
        lemma_alnum_char(s[0]);
        assert(pow2(6) == 64) by {
            vstd::arithmetic::power2::lemma2_to64();
        }
        lemma_read_back(alnum_value(s[0]), 6);
        assert(seq![s[0]] =~= s);
    } else {
        assert(s =~= Seq::<char>::empty());
    }
}

/// Decoding the byte-mode bits of a Latin-1 string gives the string back.
#[verifier::rlimit(60)]
pub proof fn lemma_latin_round_trip(s: Seq<char>)
    requires
        forall|i: int| 0 <= i < s.len() ==> is_latin(#[trigger] s[i]),
    ensures
        latin_decoded(latin_bits(s)) == Some(s),
    decreases s.len(),
{
    let b = latin_bits(s);
    if s.len() > 0 {
        let tail = s.subrange(1, s.len() as int);
        assert forall|i: int| 0 <= i < tail.len() implies is_latin(#[trigger] tail[i]) by {
            assert(tail[i] == s[i + 1]);
        }
        lemma_latin_round_trip(tail);
        lemma_latin_char(s[0]);
        assert(pow2(8) == 256) by {
            vstd::arithmetic::power2::lemma2_to64();
        }
        lemma_read_back(s[0] as u32 as nat, 8);
        assert(b.subrange(0, 8) =~= bits_of(s[0] as u32 as nat, 8));
        assert(b.subrange(8, b.len() as int) =~= latin_bits(tail));
        assert(seq![s[0]] + tail =~= s);
    } else {
        assert(s =~= Seq::<char>::empty());
    }
}

} // verus!
