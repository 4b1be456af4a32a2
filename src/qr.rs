use crate::bits::{
    all_bits, alnum_bits, chars_of, encode_alphanumeric, encode_latin, encode_numeric,
    first_rejected, in_alphabet, latin_bits, numeric_bits,
};
use crate::error_correction::{ec_encode_with, ec_encoded, ECLevel, GaloisField};
use crate::mask::{best_mask, candidate_bits};
use crate::message_layout::{fill, message_bits, placement_cells};
use crate::metadata::{
    codewords, data_codewords, first_fitting, get_codewords, lemma_alnum_len, lemma_codewords_len,
    lemma_entry_bounds, lemma_latin_len, lemma_numeric_len, blocks_table,
};
use crate::patterns::{format_in, patterned_bits, patterned_tags, stamp, tag_all, PatternMaskType};
use vstd::prelude::*;

verus! {

/// The data mode written at the head of a symbol's bit stream.
#[derive(Debug, Copy, Clone, PartialEq, Eq, Structural)]
pub enum Encoding {
    Numeric,
    Alphanumeric,
    Byte,
    ECI,
}

/// The 4-bit mode indicator of an encoding.
pub open spec fn mode_indicator(enc: Encoding) -> u32 {
    match enc {
        Encoding::Numeric => 1,
        Encoding::Alphanumeric => 2,
        Encoding::Byte => 4,
        Encoding::ECI => 7,
    }
}

/// Why a symbol could not be built.
#[derive(Copy, Clone, Debug, PartialEq, Eq, Structural)]
pub enum EncodingError {
    /// A character the requested mode cannot write.
    UnsupportedCharacter(char),
    /// The text needs a mode this library does not write (Kanji, extended channels).
    UnsupportedMode,
    /// No version up to 40 holds the text at the requested level.
    CapacityExceeded,
    /// The data walk ran out of free cells before the codewords ended.
    PlacementOverflow,
}

/// A symbol under construction: its modules, the tag of each module, and the
/// parameters it is built with.
pub struct QR {
    pub bitmap: Vec<Vec<u8>>,
    pub pattern_mask: Vec<Vec<PatternMaskType>>,
    pub ec_level: ECLevel,
    pub version: u8,
    pub mask_index: u8,
}

/// Side length of a symbol of the given version.
pub open spec fn version_size(version: nat) -> nat {
    17 + 4 * version
}

/// A grid of `Vec` rows seen as rows of sequences.
pub open spec fn rows_of<T>(g: Seq<Vec<T>>) -> Seq<Seq<T>> {
    Seq::new(g.len(), |i: int| g[i]@)
}

/// A square grid of side `n`.
pub open spec fn is_square<T>(g: Seq<Seq<T>>, n: nat) -> bool {
    g.len() == n && forall|i: int| 0 <= i < n ==> (#[trigger] g[i]).len() == n
}

/// `g` with the cell at row `y`, column `x` replaced by `v`.
pub open spec fn put<T>(g: Seq<Seq<T>>, y: int, x: int, v: T) -> Seq<Seq<T>> {
    g.update(y, g[y].update(x, v))
}

impl QR {
    /// Modules by row.
    pub open spec fn bits(&self) -> Seq<Seq<u8>> {
        rows_of(self.bitmap@)
    }

    /// Cell tags by row.
    pub open spec fn tags(&self) -> Seq<Seq<PatternMaskType>> {
        rows_of(self.pattern_mask@)
    }

    pub open spec fn size(&self) -> nat {
        version_size(self.version as nat)
    }

    /// The grids are square, share the side length of the version, and the mask
    /// index names one of the eight masks.
    pub open spec fn wf(&self) -> bool {
        &&& 1 <= self.version <= 40
        &&& self.mask_index < 8
        &&& is_square(self.bits(), self.size())
        &&& is_square(self.tags(), self.size())
    }

    /// Width of a symbol of the given version.
    pub fn get_version_size(version: u8) -> (r: usize)
        ensures
            r == version_size(version as nat),
    {
        17 + (version as usize) * 4
    }

    /// Number of modules left for data once the fixed patterns are placed.
    pub fn get_available_modules(version: usize) -> (r: usize)
        requires
            1 <= version <= 40,
        ensures
            r == available_modules(version as nat),
    {
        let alignment_count = version / 7 + 2;
        let side = version * 4 + 17;
        assert(4 <= alignment_count * alignment_count <= 64) by (nonlinear_arith)
            requires
                2 <= alignment_count <= 7,
        ;
        let alignment: usize = if version == 1 {
            0
        } else {
            (alignment_count * alignment_count - 3) * 5 * 5
        };
        let versions: usize = if version > 6 {
            2 * 3 * 6
        } else {
            0
        };
        assert(21 * side <= side * side <= 177 * 177) by (nonlinear_arith)
            requires
                21 <= side <= 177,
        ;
        assert(side * side >= 192 + alignment + 2 * (version * 4 + 1) + 31 + 36) by (nonlinear_arith)
            requires
                side == version * 4 + 17,
                1 <= version <= 40,
                alignment <= 25 * (alignment_count * alignment_count),
                7 * (alignment_count - 2) <= version,
                version == 1 ==> alignment == 0,
        ;
        side * side - 3 * 8 * 8 - alignment - 2 * (version * 4 + 1) + (alignment_count - 2) * 5 * 2
            - 2 * 15 - 1 - versions
    }
}

/// The count of modules that the fixed patterns leave free: all cells, less three
/// finders, the alignment patterns (less their overlap with the timing lines), the
/// timing lines, two copies of the format field, the dark module, and from version
/// 7 on two version blocks.
pub open spec fn available_modules(version: nat) -> int {
    let ac = version / 7 + 2;
    let side = version * 4 + 17;
    side * side - 3 * 8 * 8 - (if version == 1 {
        0
    } else {
        (ac * ac - 3) * 5 * 5
    }) - 2 * (version * 4 + 1) + (ac - 2) * 5 * 2 - 2 * 15 - 1 - (if version > 6 {
        2 * 3 * 6
    } else {
        0
    })
}

/// Sets one cell of a grid of rows.
pub fn set_cell<T>(g: &mut Vec<Vec<T>>, y: usize, x: usize, v: T)
    requires
        y < old(g)@.len(),
        x < old(g)@[y as int]@.len(),
    ensures
        rows_of(final(g)@) == put(rows_of(old(g)@), y as int, x as int, v),
{
    let mut row: Vec<T> = Vec::new();
    g.set_and_swap(y, &mut row);
    row.set(x, v);
    g.set_and_swap(y, &mut row);
    assert(rows_of(g@) =~= put(rows_of(old(g)@), y as int, x as int, v));
}

/// Replacing a cell keeps a grid square.
pub proof fn lemma_put_square<T>(g: Seq<Seq<T>>, n: nat, y: int, x: int, v: T)
    requires
        is_square(g, n),
        0 <= y < n,
        0 <= x < n,
    ensures
        is_square(put(g, y, x, v), n),
{
    assert forall|i: int| 0 <= i < n implies (#[trigger] put(g, y, x, v)[i]).len() == n by {
        if i == y {
        } else {
        }
    }
}

impl QR {
    /// Both grids keep their shape and the symbol its parameters.
    pub open spec fn same_frame(&self, other: &QR) -> bool {
        &&& self.version == other.version
        &&& self.ec_level == other.ec_level
        &&& self.mask_index == other.mask_index
    }

    /// Writes one module and its tag.
    pub fn put_cell(&mut self, y: usize, x: usize, bit: u8, tag: PatternMaskType)
        requires
            old(self).wf(),
            y < old(self).size(),
            x < old(self).size(),
        ensures
            final(self).wf(),
            final(self).same_frame(old(self)),
            final(self).bits() == put(old(self).bits(), y as int, x as int, bit),
            final(self).tags() == put(old(self).tags(), y as int, x as int, tag),
    {
        proof {
            lemma_put_square(self.bits(), self.size(), y as int, x as int, bit);
            lemma_put_square(self.tags(), self.size(), y as int, x as int, tag);
            assert(self.bits()[y as int] == self.bitmap@[y as int]@);
            assert(self.tags()[y as int] == self.pattern_mask@[y as int]@);
        }
        set_cell(&mut self.bitmap, y, x, bit);
        set_cell(&mut self.pattern_mask, y, x, tag);
    }
}

/// A copy of a grid of modules.
pub fn copy_grid(g: &Vec<Vec<u8>>) -> (r: Vec<Vec<u8>>)
    ensures
        rows_of(r@) == rows_of(g@),
{
    let mut out: Vec<Vec<u8>> = Vec::new();
    let mut i: usize = 0;
    while i < g.len()
        invariant
            i <= g@.len(),
            out@.len() == i,
            forall|k: int| 0 <= k < i ==> (#[trigger] out@[k])@ == g@[k]@,
        decreases g@.len() - i,
    {
        let row = g[i].clone();
        assert(row@ =~= g@[i as int]@);
        out.push(row);
        i = i + 1;
    }
    assert(rows_of(out@) =~= rows_of(g@));
    out
}

/// A grid of side `n` of dark-free modules.
pub open spec fn zero_grid(n: nat) -> Seq<Seq<u8>> {
    Seq::new(n, |i: int| Seq::new(n, |j: int| 0u8))
}

/// A grid of side `n` of free cells.
pub open spec fn free_grid(n: nat) -> Seq<Seq<PatternMaskType>> {
    Seq::new(n, |i: int| Seq::new(n, |j: int| PatternMaskType::Free))
}

/// Data bits of a text in a mode.
pub open spec fn encoded_bits(s: Seq<char>, enc: Encoding) -> Seq<u8> {
    match enc {
        Encoding::Numeric => numeric_bits(s),
        Encoding::Alphanumeric => alnum_bits(s),
        Encoding::Byte => latin_bits(s),
        Encoding::ECI => Seq::empty(),
    }
}

/// Every character of `s` is writable in mode `enc`.
pub open spec fn all_in_alphabet(s: Seq<char>, enc: Encoding) -> bool {
    forall|i: int| 0 <= i < s.len() ==> in_alphabet(enc, #[trigger] s[i])
}

/// Final codeword stream (data and error correction, interleaved) of a text.
pub open spec fn symbol_codewords(s: Seq<char>, enc: Encoding, l: ECLevel, version: u8) -> Seq<u8> {
    ec_encoded(codewords(encoded_bits(s, enc), s.len(), enc, version, data_codewords(version, l)), version, l)
}

/// Tags of a symbol of a version once its fixed patterns are placed.
pub open spec fn symbol_tags(version: u8) -> Seq<Seq<PatternMaskType>> {
    patterned_tags(free_grid(version_size(version as nat)), version)
}

/// Modules of a symbol before masking: the fixed patterns (format for mask 0), then
/// the codeword bits along the walk.
pub open spec fn unmasked_symbol(s: Seq<char>, enc: Encoding, l: ECLevel, version: u8) -> Seq<Seq<u8>> {
    let n = version_size(version as nat);
    let mb = message_bits(symbol_codewords(s, enc, l, version));
    fill(patterned_bits(zero_grid(n), version, l, 0), placement_cells(symbol_tags(version), n as int), mb, mb.len())
}

/// The walk holds all the codeword bits of the text at that version.
pub open spec fn placement_fits(s: Seq<char>, enc: Encoding, l: ECLevel, version: u8) -> bool {
    message_bits(symbol_codewords(s, enc, l, version)).len()
        <= placement_cells(symbol_tags(version), version_size(version as nat) as int).len()
}

fn filled_grid<T: Copy>(n: usize, v: T) -> (r: Vec<Vec<T>>)
    ensures
        rows_of(r@) == Seq::new(n as nat, |i: int| Seq::new(n as nat, |j: int| v)),
{
    let mut out: Vec<Vec<T>> = Vec::new();
    let mut i: usize = 0;
    while i < n
        invariant
            i <= n,
            out@.len() == i,
            forall|k: int| 0 <= k < i ==> (#[trigger] out@[k])@ == Seq::new(n as nat, |j: int| v),
        decreases n - i,
    {
        let mut row: Vec<T> = Vec::new();
        let mut j: usize = 0;
        while j < n
            invariant
                j <= n,
                row@ == Seq::new(j as nat, |c: int| v),
            decreases n - j,
        {
            row.push(v);
            j = j + 1;
            assert(row@ =~= Seq::new(j as nat, |c: int| v));
        }
        out.push(row);
        i = i + 1;
    }
    assert(rows_of(out@) =~= Seq::new(n as nat, |i: int| Seq::new(n as nat, |j: int| v)));
    out
}

proof fn lemma_encoded_all_bits(s: Seq<char>, enc: Encoding)
    ensures
        all_bits(encoded_bits(s, enc)),
    decreases s.len(),
{
    let b = encoded_bits(s, enc);
    match enc {
        Encoding::Numeric => {
            if s.len() >= 3 {
                lemma_encoded_all_bits(s.subrange(3, s.len() as int), enc);
            }
        },
        Encoding::Alphanumeric => {
            if s.len() >= 2 {
                lemma_encoded_all_bits(s.subrange(2, s.len() as int), enc);
            }
        },
        Encoding::Byte => {
            if s.len() >= 1 {
                lemma_encoded_all_bits(s.subrange(1, s.len() as int), enc);
            }
        },
        Encoding::ECI => {},
    }
    assert forall|i: int| 0 <= i < b.len() implies #[trigger] b[i] <= 1 by {}
}

impl QR {
    /// Builds the symbol for `str` in mode `enc` at level `ec_level`: the smallest
    /// version that holds it, the codewords with error correction laid along the walk,
    /// and the mask of lowest penalty.
    pub fn new(str: &String, enc: Encoding, ec_level: ECLevel) -> (r: Result<QR, EncodingError>)
        requires
            str@.len() <= usize::MAX / 8,
        ensures
            enc == Encoding::ECI ==> r == Err::<QR, EncodingError>(EncodingError::UnsupportedMode),
            enc != Encoding::ECI && !all_in_alphabet(str@, enc) ==> (r matches Err(EncodingError::UnsupportedCharacter(c)) && first_rejected(str@, c, enc)),
            enc != Encoding::ECI && all_in_alphabet(str@, enc) ==> match first_fitting(str@.len(), enc, ec_level, 1) {
                None => r == Err::<QR, EncodingError>(EncodingError::CapacityExceeded),
                Some(v) => {
                    &&& (r is Ok <==> placement_fits(str@, enc, ec_level, v))
                    &&& (r is Err ==> r == Err::<QR, EncodingError>(EncodingError::PlacementOverflow))
                    &&& (r matches Ok(q) ==> {
                        let raw = unmasked_symbol(str@, enc, ec_level, v);
                        let tags = symbol_tags(v);
                        &&& q.wf()
                        &&& q.version == v
                        &&& q.ec_level == ec_level
                        &&& q.mask_index == best_mask(raw, tags, ec_level)
                        &&& q.bits() == candidate_bits(raw, tags, ec_level, q.mask_index as nat)
                        &&& q.tags() == stamp(tags, format_in(q.size() as int), tag_all(PatternMaskType::Format))
                    })
                },
            },
    {
        let text = str.as_str();
        let chars = chars_of(text);
        let num_chars = chars.len();
        let encoded = match enc {
            Encoding::Alphanumeric => encode_alphanumeric(text),
            Encoding::Numeric => encode_numeric(text),
            Encoding::Byte => encode_latin(text),
            Encoding::ECI => {
                return Err(EncodingError::UnsupportedMode);
            },
        };
        let bits = match encoded {
            Ok(b) => b,
            Err(c) => {
                return Err(EncodingError::UnsupportedCharacter(c));
            },
        };
        proof {
            lemma_numeric_len(str@);
            lemma_alnum_len(str@);
            lemma_latin_len(str@);
            lemma_encoded_all_bits(str@, enc);
        }
        assert(bits@ == encoded_bits(str@, enc));
        let (version, num_codewords) = match QR::get_min_version(num_chars, enc, ec_level) {
            Some(p) => p,
            None => {
                return Err(EncodingError::CapacityExceeded);
            },
        };
        proof {
            crate::metadata::lemma_first_fitting(num_chars as nat, enc, ec_level, 1);
            lemma_entry_bounds(version, ec_level);
            lemma_codewords_len(bits@, num_chars as nat, enc, version, ec_level);
        }
        let message = get_codewords(&bits, num_chars, enc, version, num_codewords);
        let gf = GaloisField::new();
        let message_ec = ec_encode_with(&gf, message, version, ec_level);
        proof {
            let (n, e, nb) = blocks_table(version, ec_level);
            assert(e * nb <= 30 * 81) by (nonlinear_arith)
                requires
                    e <= 30,
                    nb <= 81,
            ;
        }
        let version_size = QR::get_version_size(version);
        let mut out = QR {
            bitmap: filled_grid(version_size, 0u8),
            pattern_mask: filled_grid(version_size, PatternMaskType::Free),
            version,
            ec_level,
            mask_index: 0,
        };
        assert(out.bits() == zero_grid(version_size as nat));
        assert(out.tags() == free_grid(version_size as nat));
        out.apply_patterns_with(&gf);
        // Never taken for a version the capacity planner picks: the walk of every
        // version has room for its codewords.
        if message_ec.len() > out.placement_capacity() / 8 {
            return Err(EncodingError::PlacementOverflow);
        }
        out.write_message(message_ec);
        out.apply_masking_with(&gf);
        Ok(out)
    }
}

} // verus!
