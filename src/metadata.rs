use crate::bits::{all_bits, alnum_bits, bits_of, bits_value, collect_bits, latin_bits, numeric_bits, push_to_bit_list};
use crate::error_correction::ECLevel;
use crate::qr::{mode_indicator, Encoding, QR};
use vstd::prelude::*;

verus! {

/// For each version (row) and level (column): (data codewords, error-correction
/// codewords per block, number of blocks).
pub const BLOCKS_TABLE: [[(usize, usize, usize); 4]; 40] = [
    [(19, 7, 1), (16, 10, 1), (13, 13, 1), (9, 17, 1)],
    [(34, 10, 1), (28, 16, 1), (22, 22, 1), (16, 28, 1)],
    [(55, 15, 1), (44, 26, 1), (34, 18, 2), (26, 22, 2)],
    [(80, 20, 1), (64, 18, 2), (48, 26, 2), (36, 16, 4)],
    [(108, 26, 1), (86, 24, 2), (62, 18, 4), (46, 22, 4)],
    [(136, 18, 2), (108, 16, 4), (76, 24, 4), (60, 28, 4)],
    [(156, 20, 2), (124, 18, 4), (88, 18, 6), (66, 26, 5)],
    [(194, 24, 2), (154, 22, 4), (110, 22, 6), (86, 26, 6)],
    [(232, 30, 2), (182, 22, 5), (132, 20, 8), (100, 24, 8)],
    [(274, 18, 4), (216, 26, 5), (154, 24, 8), (122, 28, 8)],
    [(324, 20, 4), (254, 30, 5), (180, 28, 8), (140, 24, 11)],
    [(370, 24, 4), (290, 22, 8), (206, 26, 10), (158, 28, 11)],
    [(428, 26, 4), (334, 22, 9), (244, 24, 12), (180, 22, 16)],
    [(461, 30, 4), (365, 24, 9), (261, 20, 16), (197, 24, 16)],
    [(523, 22, 6), (415, 24, 10), (295, 30, 12), (223, 24, 18)],
    [(589, 24, 6), (453, 28, 10), (325, 24, 17), (253, 30, 16)],
    [(647, 28, 6), (507, 28, 11), (367, 28, 16), (283, 28, 19)],
    [(721, 30, 6), (563, 26, 13), (397, 28, 18), (313, 28, 21)],
    [(795, 28, 7), (627, 26, 14), (445, 26, 21), (341, 26, 25)],
    [(861, 28, 8), (669, 26, 16), (485, 30, 20), (385, 28, 25)],
    [(932, 28, 8), (714, 26, 17), (512, 28, 23), (406, 30, 25)],
    [(1006, 28, 9), (782, 28, 17), (568, 30, 23), (442, 24, 34)],
    [(1094, 30, 9), (860, 28, 18), (614, 30, 25), (464, 30, 30)],
    [(1174, 30, 10), (914, 28, 20), (664, 30, 27), (514, 30, 32)],
    [(1276, 26, 12), (1000, 28, 21), (718, 30, 29), (538, 30, 35)],
    [(1370, 28, 12), (1062, 28, 23), (754, 28, 34), (596, 30, 37)],
    [(1468, 30, 12), (1128, 28, 25), (808, 30, 34), (628, 30, 40)],
    [(1531, 30, 13), (1193, 28, 26), (871, 30, 35), (661, 30, 42)],
    [(1631, 30, 14), (1267, 28, 28), (911, 30, 38), (701, 30, 45)],
    [(1735, 30, 15), (1373, 28, 29), (985, 30, 40), (745, 30, 48)],
    [(1843, 30, 16), (1455, 28, 31), (1033, 30, 43), (793, 30, 51)],
    [(1955, 30, 17), (1541, 28, 33), (1115, 30, 45), (845, 30, 54)],
    [(2071, 30, 18), (1631, 28, 35), (1171, 30, 48), (901, 30, 57)],
    [(2191, 30, 19), (1725, 28, 37), (1231, 30, 51), (961, 30, 60)],
    [(2306, 30, 19), (1812, 28, 38), (1286, 30, 53), (986, 30, 63)],
    [(2434, 30, 20), (1914, 28, 40), (1354, 30, 56), (1054, 30, 66)],
    [(2566, 30, 21), (1992, 28, 43), (1426, 30, 59), (1096, 30, 70)],
    [(2702, 30, 22), (2102, 28, 45), (1502, 30, 62), (1142, 30, 74)],
    [(2812, 30, 24), (2216, 28, 47), (1582, 30, 65), (1222, 30, 77)],
    [(2956, 30, 25), (2334, 28, 49), (1666, 30, 68), (1276, 30, 81)],
];

/// Column of a level in the capacity table.
pub open spec fn level_index(l: ECLevel) -> int {
    match l {
        ECLevel::L => 0,
        ECLevel::M => 1,
        ECLevel::Q => 2,
        ECLevel::H => 3,
    }
}

/// (data codewords, error-correction codewords per block, number of blocks) of a
/// version and level.
#[verifier::opaque]
pub open spec fn blocks_table(version: u8, l: ECLevel) -> (usize, usize, usize) {
    BLOCKS_TABLE@[version - 1]@[level_index(l)]
}

/// Data codewords of a version and level.
pub open spec fn data_codewords(version: u8, l: ECLevel) -> nat {
    blocks_table(version, l).0 as nat
}

/// Looks up the capacity table.
pub fn blocks_table_get(version: u8, ec_level: ECLevel) -> (r: (usize, usize, usize))
    requires
        1 <= version <= 40,
    ensures
        r == blocks_table(version, ec_level),
{
    reveal(blocks_table);
    let col: usize = match ec_level {
        ECLevel::L => 0,
        ECLevel::M => 1,
        ECLevel::Q => 2,
        ECLevel::H => 3,
    };
    BLOCKS_TABLE[version as usize - 1][col]
}

/// Data capacity falls as the level rises, and grows with the version.
pub proof fn lemma_capacity_ordering()
    ensures
        forall|v: u8|
            1 <= v <= 40 ==> #[trigger] data_codewords(v, ECLevel::L) > data_codewords(v, ECLevel::M)
                > data_codewords(v, ECLevel::Q) > data_codewords(v, ECLevel::H),
        forall|v: u8, l: ECLevel|
            1 <= v < 40 ==> #[trigger] data_codewords(v, l) < data_codewords((v + 1) as u8, l),
{
    reveal(blocks_table);
}

/// Every entry has at least one block, no more blocks than data codewords, and at most
/// 30 error-correction codewords per block.
pub proof fn lemma_table_bounds()
    ensures
        forall|v: u8, l: ECLevel|
            1 <= v <= 40 ==> {
                let (n, e, nb) = #[trigger] blocks_table(v, l);
                1 <= nb <= 81 && nb <= n <= 2956 && 7 <= e <= 30
            },
{
    reveal(blocks_table);
}

/// Bounds of one entry of the capacity table.
pub proof fn lemma_entry_bounds(v: u8, l: ECLevel)
    requires
        1 <= v <= 40,
    ensures
        1 <= blocks_table(v, l).2 <= 81,
        blocks_table(v, l).2 <= blocks_table(v, l).0 <= 2956,
        7 <= blocks_table(v, l).1 <= 30,
{
    lemma_table_bounds();
}

/// Width of the character-count field for a version and mode.
pub open spec fn length_bits(version: u8, enc: Encoding) -> nat {
    let col: int = match enc {
        Encoding::Numeric => 0,
        Encoding::Alphanumeric => 1,
        Encoding::Byte => 2,
        Encoding::ECI => 2,
    };
    let row: Seq<nat> = if version <= 9 {
        seq![10nat, 9, 8, 8]
    } else if version <= 26 {
        seq![12nat, 11, 16, 10]
    } else {
        seq![14nat, 13, 16, 12]
    };
    row[col]
}

/// Number of bits needed to encode the message length.
pub fn num_length_bits(version: u8, enc: Encoding) -> (r: u32)
    requires
        1 <= version <= 40,
    ensures
        r == length_bits(version, enc),
        8 <= r <= 16,
{
    let row: [u32; 4] = if version <= 9 {
        [10, 9, 8, 8]
    } else if version <= 26 {
        [12, 11, 16, 10]
    } else {
        [14, 13, 16, 12]
    };
    let col: usize = match enc {
        Encoding::Numeric => 0,
        Encoding::Alphanumeric => 1,
        Encoding::Byte => 2,
        Encoding::ECI => 2,
    };
    row[col]
}

/// Mode indicator, character count and data bits.
pub open spec fn stream_bits(bits: Seq<u8>, num_chars: nat, enc: Encoding, version: u8) -> Seq<u8> {
    bits_of(mode_indicator(enc) as nat, 4) + bits_of(num_chars, length_bits(version, enc)) + bits
}

/// Zeros up to the next byte boundary.
pub open spec fn byte_padded(s: Seq<u8>) -> Seq<u8> {
    s + Seq::new(((8 - s.len() % 8) % 8) as nat, |i: int| 0u8)
}

/// Bytes of a bit sequence whose length is a multiple of 8.
pub open spec fn to_bytes(s: Seq<u8>) -> Seq<u8> {
    Seq::new(s.len() / 8, |i: int| bits_value(s.subrange(8 * i, 8 * i + 8)) as u8)
}

/// The codeword stream: the stream bits in bytes, then the pad bytes 236 and 17 in
/// turn up to `num_codewords`.
pub open spec fn codewords(bits: Seq<u8>, num_chars: nat, enc: Encoding, version: u8, num_codewords: nat) -> Seq<u8> {
    let data = to_bytes(byte_padded(stream_bits(bits, num_chars, enc, version)));
    let len = if data.len() >= num_codewords { data.len() } else { num_codewords };
    Seq::new(len, |i: int| if i < data.len() { data[i] } else if i % 2 == 0 { 236u8 } else { 17u8 })
}

fn mode_indicator_of(enc: Encoding) -> (r: u32)
    ensures
        r == mode_indicator(enc),
{
    match enc {
        Encoding::Numeric => 1,
        Encoding::Alphanumeric => 2,
        Encoding::Byte => 4,
        Encoding::ECI => 7,
    }
}

/// Frames the data bits with the mode indicator and character count, pads to a byte
/// boundary, cuts into bytes, and pads with 236 and 17 to `num_codewords`.
pub fn get_codewords(bits: &Vec<u8>, num_chars: usize, enc: Encoding, version: u8, num_codewords: usize) -> (r: Vec<u8>)
    requires
        1 <= version <= 40,
        all_bits(bits@),
        num_chars <= u32::MAX,
        bits@.len() <= usize::MAX / 2,
    ensures
        r@ == codewords(bits@, num_chars as nat, enc, version, num_codewords as nat),
{
    let length_len = num_length_bits(version, enc);
    let mut message: Vec<u8> = Vec::new();
    push_to_bit_list(&mut message, mode_indicator_of(enc), 4);
    push_to_bit_list(&mut message, num_chars as u32, length_len);
    let ghost header = message@;
    let mut i: usize = 0;
    while i < bits.len()
        invariant
            i <= bits@.len() <= usize::MAX / 2,
            header.len() == 4 + length_len,
            8 <= length_len <= 16,
            message@ == header + bits@.subrange(0, i as int),
        decreases bits@.len() - i,
    {
        message.push(bits[i]);
        i = i + 1;
        assert(message@ =~= header + bits@.subrange(0, i as int));
    }
    assert(bits@.subrange(0, bits@.len() as int) =~= bits@);
    let ghost stream = message@;
    assert(stream == stream_bits(bits@, num_chars as nat, enc, version));
    let leftover = (8 - message.len() % 8) % 8;
    let mut z: usize = 0;
    while z < leftover
        invariant
            z <= leftover < 8,
            stream.len() <= usize::MAX / 2 + 20,
            leftover == (8 - stream.len() % 8) % 8,
            message@ == stream + Seq::new(z as nat, |j: int| 0u8),
        decreases leftover - z,
    {
        message.push(0);
        z = z + 1;
        assert(message@ =~= stream + Seq::new(z as nat, |j: int| 0u8));
    }
    let ghost padded = message@;
    assert(padded == byte_padded(stream));
    proof {
        assert forall|j: int| 0 <= j < padded.len() implies #[trigger] padded[j] <= 1 by {
            if j < 4 {
                assert(padded[j] == bits_of(mode_indicator(enc) as nat, 4)[j]);
            } else if j < 4 + length_len {
                assert(padded[j] == bits_of(num_chars as nat, length_bits(version, enc))[j - 4]);
            } else if j < stream.len() {
                assert(padded[j] == bits@[j - 4 - length_len]);
            }
        }
        assert(padded.len() % 8 == 0);
    }
    let ghost data = to_bytes(padded);
    let mut out: Vec<u8> = Vec::new();
    let mut c: usize = 0;
    while c < message.len() / 8
        invariant
            message@ == padded,
            padded.len() % 8 == 0,
            all_bits(padded),
            data == to_bytes(padded),
            c <= padded.len() / 8,
            out@ == data.subrange(0, c as int),
        decreases padded.len() / 8 - c,
    {
        let chunk = &message.as_slice()[8 * c..8 * c + 8];
        assert(chunk@ == padded.subrange(8 * c, 8 * c + 8));
        proof {
            assert(all_bits(chunk@)) by {
                assert forall|j: int| 0 <= j < chunk@.len() implies #[trigger] chunk@[j] <= 1 by {
                    assert(chunk@[j] == padded[8 * c + j]);
                }
            }
            crate::bits::lemma_bits_value_bound(chunk@);
            vstd::arithmetic::power2::lemma2_to64();
        }
        let v = collect_bits(chunk);
        out.push(v as u8);
        c = c + 1;
        assert(out@ =~= data.subrange(0, c as int));
    }
    assert(out@ =~= data);
    let ghost target = codewords(bits@, num_chars as nat, enc, version, num_codewords as nat);
    while out.len() < num_codewords
        invariant
            data.len() <= out@.len() <= target.len(),
            target == codewords(bits@, num_chars as nat, enc, version, num_codewords as nat),
            data == to_bytes(byte_padded(stream_bits(bits@, num_chars as nat, enc, version))),
            out@ == target.subrange(0, out@.len() as int),
        decreases num_codewords - out@.len(),
    {
        out.push(if out.len() % 2 == 0 { 236 } else { 17 });
        assert(out@ =~= target.subrange(0, out@.len() as int));
    }
    assert(out@ =~= target);
    out
}

/// Length of the data bits of `n` characters in a mode.
pub open spec fn data_bits_len(enc: Encoding, n: nat) -> nat {
    match enc {
        Encoding::Numeric => n / 3 * 10 + if n % 3 == 2 { 7nat } else if n % 3 == 1 { 4nat } else { 0nat },
        Encoding::Alphanumeric => n / 2 * 11 + if n % 2 == 1 { 6nat } else { 0nat },
        Encoding::Byte => 8 * n,
        Encoding::ECI => 0,
    }
}

/// A version holds the message when the stream's whole bytes stay below its data
/// capacity.
pub open spec fn version_fits(version: u8, enc: Encoding, n: nat, l: ECLevel) -> bool {
    (data_bits_len(enc, n) + 4 + length_bits(version, enc)) / 8 < data_codewords(version, l)
}

/// The first version from `v` up to 40 that holds the message.
pub open spec fn first_fitting(n: nat, enc: Encoding, l: ECLevel, v: nat) -> Option<u8>
    decreases 41 - v,
{
    if v < 1 || v > 40 {
        None
    } else if version_fits(v as u8, enc, n, l) {
        Some(v as u8)
    } else {
        first_fitting(n, enc, l, v + 1)
    }
}

proof fn lemma_none_fits(n: nat, enc: Encoding, l: ECLevel, v: nat)
    requires
        1 <= v,
        data_bits_len(enc, n) >= 8 * 2956,
    ensures
        first_fitting(n, enc, l, v) is None,
    decreases 41 - v,
{
    if v <= 40 {
        lemma_entry_bounds(v as u8, l);
        lemma_none_fits(n, enc, l, v + 1);
    }
}

/// Data bits of a digit string: ten per three digits, seven or four for the rest.
pub proof fn lemma_numeric_len(s: Seq<char>)
    ensures
        numeric_bits(s).len() == data_bits_len(Encoding::Numeric, s.len()),
    decreases s.len(),
{
    if s.len() >= 3 {
        lemma_numeric_len(s.subrange(3, s.len() as int));
    }
}

/// Data bits of an alphanumeric string: eleven per pair, six for a last character.
pub proof fn lemma_alnum_len(s: Seq<char>)
    ensures
        alnum_bits(s).len() == data_bits_len(Encoding::Alphanumeric, s.len()),
    decreases s.len(),
{
    if s.len() >= 2 {
        lemma_alnum_len(s.subrange(2, s.len() as int));
    }
}

/// Data bits of a Latin-1 string: eight per character.
pub proof fn lemma_latin_len(s: Seq<char>)
    ensures
        latin_bits(s).len() == data_bits_len(Encoding::Byte, s.len()),
    decreases s.len(),
{
    if s.len() > 0 {
        lemma_latin_len(s.subrange(1, s.len() as int));
    }
}

impl QR {
    /// The smallest version that holds `num_chars` characters in mode `enc` at level
    /// `ec_level`, with its data capacity; `None` when none does or the mode is not
    /// supported.
    pub fn get_min_version(num_chars: usize, enc: Encoding, ec_level: ECLevel) -> (r: Option<(u8, usize)>)
        ensures
            enc == Encoding::ECI ==> r is None,
            r is Some ==> num_chars <= 10000,
            enc != Encoding::ECI ==> match first_fitting(num_chars as nat, enc, ec_level, 1) {
                Some(v) => r == Some((v, data_codewords(v, ec_level) as usize)),
                None => r is None,
            },
    {
        if enc == Encoding::ECI {
            return None;
        }
        if num_chars > 10000 {
            proof {
                lemma_none_fits(num_chars as nat, enc, ec_level, 1);
            }
            return None;
        }
        let num_bits: usize = match enc {
            Encoding::Numeric => num_chars / 3 * 10 + if num_chars % 3 == 2 { 7 } else if num_chars % 3 == 1 { 4 } else { 0 },
            Encoding::Byte => num_chars * 8,
            Encoding::Alphanumeric => num_chars / 2 * 11 + if num_chars % 2 == 1 { 6 } else { 0 },
            Encoding::ECI => 0,
        };
        let mut i: u8 = 1;
        while i <= 40
            invariant
                1 <= i <= 41,
                enc != Encoding::ECI,
                num_chars <= 10000,
                num_bits == data_bits_len(enc, num_chars as nat),
                first_fitting(num_chars as nat, enc, ec_level, 1) == first_fitting(num_chars as nat, enc, ec_level, i as nat),
            decreases 41 - i,
        {
            let cap = blocks_table_get(i, ec_level).0;
            if (num_bits + 4 + num_length_bits(i, enc) as usize) / 8 < cap {
                return Some((i, cap));
            }
            i = i + 1;
        }
        None
    }
}

/// A stream that fits its version fills no more than the version's data codewords.
pub proof fn lemma_codewords_len(bits: Seq<u8>, num_chars: nat, enc: Encoding, version: u8, l: ECLevel)
    requires
        bits.len() == data_bits_len(enc, num_chars),
        version_fits(version, enc, num_chars, l),
    ensures
        codewords(bits, num_chars, enc, version, data_codewords(version, l)).len() == data_codewords(version, l),
{
    let st = stream_bits(bits, num_chars, enc, version);
    let p = byte_padded(st);
    assert(st.len() == 4 + length_bits(version, enc) + bits.len());
    assert(p.len() / 8 <= st.len() / 8 + 1);
}

/// The version search returns a version from `v` to 40 that holds the message, and
/// none before it does.
pub proof fn lemma_first_fitting(n: nat, enc: Encoding, l: ECLevel, v: nat)
    ensures
        first_fitting(n, enc, l, v) matches Some(w) ==> {
            &&& v <= w <= 40
            &&& 1 <= w
            &&& version_fits(w, enc, n, l)
            &&& forall|u: u8| v <= u < w ==> !#[trigger] version_fits(u, enc, n, l)
        },
    decreases 41 - v,
{
    if 1 <= v <= 40 && !version_fits(v as u8, enc, n, l) {
        lemma_first_fitting(n, enc, l, v + 1);
    }
}

} // verus!
