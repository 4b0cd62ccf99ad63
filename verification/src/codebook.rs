//! The codebook record: a sync pattern, the codeword-length list in either
//! per-entry or run-length ("ordered") form, an optional vector-quantization
//! lookup table, and the canonical Huffman tree the lengths determine.

use vstd::prelude::*;

verus! {

use crate::bits::field;
use crate::reader::Reader;
use crate::huffman::{HuffmanNode, HuffmanTree};
use crate::util::{
    float32_unpack, float32_unpack_spec, ilog, ilog_spec, lookup1_values, UnpackedFloat,
};
use vstd::arithmetic::power::{pow, lemma_pow_increases};
use vstd::arithmetic::mul::{
    lemma_mul_inequality, lemma_mul_is_commutative, lemma_mul_nonnegative,
};

#[derive(Debug, PartialEq)]
pub struct Codebook {
    pub dimensions: u16,
    pub entries: u32,
    pub ordered: bool,
    pub sparse: Option<bool>,
    pub codeword_lengths: Vec<Option<u8>>,
    pub lookup_type: u8,
    pub vector_lookup_table: Option<VectorLookupTable>,
    pub huffman_tree: HuffmanTree,
}

#[derive(Debug, PartialEq, Eq, Clone)]
pub struct VectorLookupTable {
    pub minimum_value: UnpackedFloat,
    pub delta_value: UnpackedFloat,
    pub value_bits: u8,
    pub sequence_p: bool,
    pub lookup_values: u32,
    pub multiplicands: Vec<u32>,
}

/// The mathematical content of a vector lookup table.
pub struct VectorLookupTableModel {
    pub minimum_value: UnpackedFloat,
    pub delta_value: UnpackedFloat,
    pub value_bits: u8,
    pub sequence_p: bool,
    pub lookup_values: u32,
    pub multiplicands: Seq<u32>,
}

impl View for VectorLookupTable {
    type V = VectorLookupTableModel;

    open spec fn view(&self) -> VectorLookupTableModel {
        VectorLookupTableModel {
            minimum_value: self.minimum_value,
            delta_value: self.delta_value,
            value_bits: self.value_bits,
            sequence_p: self.sequence_p,
            lookup_values: self.lookup_values,
            multiplicands: self.multiplicands@,
        }
    }
}

/// The mathematical content of a codebook.
pub struct CodebookModel {
    pub dimensions: u16,
    pub entries: u32,
    pub ordered: bool,
    pub sparse: Option<bool>,
    pub codeword_lengths: Seq<Option<u8>>,
    pub lookup_type: u8,
    pub vector_lookup_table: Option<VectorLookupTableModel>,
    pub huffman_tree: HuffmanNode,
}

impl View for Codebook {
    type V = CodebookModel;

    open spec fn view(&self) -> CodebookModel {
        CodebookModel {
            dimensions: self.dimensions,
            entries: self.entries,
            ordered: self.ordered,
            sparse: self.sparse,
            codeword_lengths: self.codeword_lengths@,
            lookup_type: self.lookup_type,
            vector_lookup_table: match self.vector_lookup_table {
                Some(t) => Some(t@),
                None => None,
            },
            huffman_tree: self.huffman_tree.repr(),
        }
    }
}

#[derive(Debug, PartialEq, Eq, Clone, Copy)]
pub enum CodebookError {
    InvalidSyncPattern([u8; 3]),
    TooManyEntries(u32),
    InvalidLookupType(u8),
    LengthOverflow(u8),
    NonFiniteFloat(u32),
    ZeroLookupDimensions,
    LookupTableTooLarge(u64),
    HuffmanNoRoom(u32),
    EndOfData,
}

/// Per-entry codeword lengths: under `sparse`, a flag decides whether an
/// entry is used at all; a used entry's length is a 5-bit field stored one
/// less.
pub open spec fn parse_unordered(s: Seq<bool>, k: nat, sparse: bool) -> Result<
    (Seq<Option<u8>>, Seq<bool>),
    CodebookError,
>
    decreases k,
{
    if k == 0 {
        Ok((Seq::empty(), s))
    } else if sparse {
        if s.len() < 1 {
            Err(CodebookError::EndOfData)
        } else {
            let used = s[0];
            let s1 = s.skip(1);
            if used {
                if s1.len() < 5 {
                    Err(CodebookError::EndOfData)
                } else {
                    let len = (field(s1, 5) + 1) as u8;
                    match parse_unordered(s1.skip(5), (k - 1) as nat, sparse) {
                        Ok((tail, rest)) => Ok((seq![Some(len)] + tail, rest)),
                        Err(e) => Err(e),
                    }
                }
            } else {
                match parse_unordered(s1, (k - 1) as nat, sparse) {
                    Ok((tail, rest)) => Ok((seq![None::<u8>] + tail, rest)),
                    Err(e) => Err(e),
                }
            }
        }
    } else {
        if s.len() < 5 {
            Err(CodebookError::EndOfData)
        } else {
            let len = (field(s, 5) + 1) as u8;
            match parse_unordered(s.skip(5), (k - 1) as nat, sparse) {
                Ok((tail, rest)) => Ok((seq![Some(len)] + tail, rest)),
                Err(e) => Err(e),
            }
        }
    }
}

/// Run-length codeword lengths: starting from the initial length, each round
/// reads just enough bits to count the entries still unassigned, gives that
/// many consecutive entries the current length, and moves to the next length.
/// Overshooting the entry count is an error, as is pushing a length past 32
/// while entries remain.
pub open spec fn parse_ordered(s: Seq<bool>, entries: nat, cur_entry: nat, cur_len: u8) -> Result<
    (Seq<Option<u8>>, Seq<bool>),
    CodebookError,
>
    decreases entries - cur_entry, 33 - cur_len,
{
    if cur_entry >= entries {
        Ok((Seq::empty(), s))
    } else if cur_len > 32 {
        Err(CodebookError::LengthOverflow(cur_len))
    } else {
        let bits = ilog_spec((entries - cur_entry) as nat) as int;
        if s.len() < bits {
            Err(CodebookError::EndOfData)
        } else {
            let number = field(s, bits);
            if cur_entry + number > entries {
                Err(CodebookError::TooManyEntries((cur_entry + number) as u32))
            } else {
                match parse_ordered(
                    s.skip(bits),
                    entries,
                    cur_entry + number,
                    (cur_len + 1) as u8,
                ) {
                    Ok((tail, rest)) => Ok(
                        (Seq::new(number, |i: int| Some(cur_len)) + tail, rest),
                    ),
                    Err(e) => Err(e),
                }
            }
        }
    }
}

/// `k` multiplicands, each `w` bits wide.
pub open spec fn parse_multiplicands(s: Seq<bool>, w: int, k: nat) -> Result<
    (Seq<u32>, Seq<bool>),
    CodebookError,
>
    decreases k,
{
    if k == 0 {
        Ok((Seq::empty(), s))
    } else if s.len() < w {
        Err(CodebookError::EndOfData)
    } else {
        match parse_multiplicands(s.skip(w), w, (k - 1) as nat) {
            Ok((tail, rest)) => Ok((seq![field(s, w) as u32] + tail, rest)),
            Err(e) => Err(e),
        }
    }
}

/// The count the exec search for the largest `n` with
/// `(n+1)^dimensions <= entries` arrives at, counting up from `n`.
pub open spec fn lookup1_from(entries: nat, dimensions: nat, n: nat) -> nat
    decreases entries - n,
    when n <= entries && dimensions >= 1
{
    if n >= entries {
        n
    } else if pow((n + 1) as int, dimensions) > entries {
        n
    } else {
        lookup1_from(entries, dimensions, n + 1)
    }
}

/// The number of scalar values a type-one lookup table stores: the largest
/// `n` with `(n+1)^dimensions <= entries`, and 0 when `dimensions` is 0.
pub open spec fn lookup1_count(entries: nat, dimensions: nat) -> nat {
    if dimensions == 0 {
        0
    } else {
        lookup1_from(entries, dimensions, 0)
    }
}

/// Raising both sides of `a <= b` to the same power keeps the order.
proof fn lemma_pow_base_mono(a: nat, b: nat, e: nat)
    requires
        a <= b,
    ensures
        0 <= pow(a as int, e) <= pow(b as int, e),
    decreases e,
{
    reveal(pow);
    if e > 0 {
        lemma_pow_base_mono(a, b, (e - 1) as nat);
        let pa = pow(a as int, (e - 1) as nat);
        let pb = pow(b as int, (e - 1) as nat);
        assert(pow(a as int, e) == a * pa);
        assert(pow(b as int, e) == b * pb);
        lemma_mul_nonnegative(a as int, pa);
        lemma_mul_inequality(a as int, b as int, pa);
        lemma_mul_inequality(pa, pb, b as int);
        lemma_mul_is_commutative(b as int, pa);
        lemma_mul_is_commutative(b as int, pb);
    }
}

/// The bounds `lookup1_values` establishes pin the count the spec search
/// finds.
proof fn lemma_lookup1_from_pins(entries: nat, dimensions: nat, n: nat, r: nat)
    requires
        dimensions >= 1,
        n <= r,
        n <= entries,
        r == 0 || pow(r as int, dimensions) <= entries,
        pow((r + 1) as int, dimensions) > entries,
    ensures
        lookup1_from(entries, dimensions, n) == r,
    decreases r - n,
{
    vstd::arithmetic::power::lemma_pow1(r as int);
    if r >= 1 {
        lemma_pow_increases(r, 1, dimensions);
    }
    if n < r {
        lemma_pow_base_mono(n + 1, r, dimensions);
        assert(n + 1 <= entries);
        lemma_lookup1_from_pins(entries, dimensions, n + 1, r);
        assert(lookup1_from(entries, dimensions, n) == lookup1_from(entries, dimensions, n + 1));
    } else {
        assert(lookup1_from(entries, dimensions, n) == n);
    }
}

/// The vector lookup table: two packed floats that must stay finite, the
/// multiplicand width (4 bits, stored one less), a sequence flag, and the
/// multiplicands themselves, their count derived from the lookup type.
pub open spec fn parse_vlt(s: Seq<bool>, lookup_type: u8, entries: u32, dimensions: u16) -> Result<
    (VectorLookupTableModel, Seq<bool>),
    CodebookError,
> {
    if s.len() < 32 {
        Err(CodebookError::EndOfData)
    } else {
        let min_raw = field(s, 32) as u32;
        let minimum_value = float32_unpack_spec(min_raw);
        let s1 = s.skip(32);
        if !minimum_value.finite_spec() {
            Err(CodebookError::NonFiniteFloat(min_raw))
        } else if s1.len() < 32 {
            Err(CodebookError::EndOfData)
        } else {
            let delta_raw = field(s1, 32) as u32;
            let delta_value = float32_unpack_spec(delta_raw);
            let s2 = s1.skip(32);
            if !delta_value.finite_spec() {
                Err(CodebookError::NonFiniteFloat(delta_raw))
            } else if s2.len() < 4 {
                Err(CodebookError::EndOfData)
            } else {
                let value_bits = (field(s2, 4) + 1) as u8;
                let s3 = s2.skip(4);
                if s3.len() < 1 {
                    Err(CodebookError::EndOfData)
                } else {
                    let sequence_p = s3[0];
                    let s4 = s3.skip(1);
                    if lookup_type == 1 {
                        if dimensions == 0 && entries > 0 {
                            Err(CodebookError::ZeroLookupDimensions)
                        } else {
                            let lv = lookup1_count(entries as nat, dimensions as nat);
                            match parse_multiplicands(s4, value_bits as int, lv) {
                                Ok((multiplicands, rest)) => Ok(
                                    (
                                        VectorLookupTableModel {
                                            minimum_value,
                                            delta_value,
                                            value_bits,
                                            sequence_p,
                                            lookup_values: lv as u32,
                                            multiplicands,
                                        },
                                        rest,
                                    ),
                                ),
                                Err(e) => Err(e),
                            }
                        }
                    } else {
                        let prod = (entries as nat) * (dimensions as nat);
                        if prod > 0xFFFF_FFFF {
                            Err(CodebookError::LookupTableTooLarge(prod as u64))
                        } else {
                            match parse_multiplicands(s4, value_bits as int, prod) {
                                Ok((multiplicands, rest)) => Ok(
                                    (
                                        VectorLookupTableModel {
                                            minimum_value,
                                            delta_value,
                                            value_bits,
                                            sequence_p,
                                            lookup_values: prod as u32,
                                            multiplicands,
                                        },
                                        rest,
                                    ),
                                ),
                                Err(e) => Err(e),
                            }
                        }
                    }
                }
            }
        }
    }
}

/// Feed every listed length, with its entry number as the symbol, to the
/// canonical tree in ascending order; a length that finds no slot makes the
/// lengths inconsistent with a canonical prefix code.
pub open spec fn build_tree_from(lengths: Seq<Option<u8>>, i: nat, t: HuffmanNode) -> Result<
    HuffmanNode,
    CodebookError,
>
    decreases lengths.len() - i,
{
    if i >= lengths.len() {
        Ok(t)
    } else {
        match lengths[i as int] {
            None => build_tree_from(lengths, i + 1, t),
            Some(len) => {
                if t.avail_at(len as nat) {
                    build_tree_from(lengths, i + 1, t.insert_spec(len as nat, i as u32))
                } else {
                    Err(CodebookError::HuffmanNoRoom(i as u32))
                }
            },
        }
    }
}

/// The codebook grammar: the three sync bytes 0x42 0x43 0x56, 16-bit
/// dimensions, a 24-bit entry count, the codeword lengths in per-entry or
/// run-length form, a 4-bit lookup type restricted to 0 through 2 with its
/// table, and finally the Huffman tree built from the lengths.
pub open spec fn parse_codebook(s: Seq<bool>) -> Result<(CodebookModel, Seq<bool>), CodebookError> {
    if s.len() < 8 {
        Err(CodebookError::EndOfData)
    } else {
        let b0 = field(s, 8) as u8;
        let s1 = s.skip(8);
        if s1.len() < 8 {
            Err(CodebookError::EndOfData)
        } else {
            let b1 = field(s1, 8) as u8;
            let s2 = s1.skip(8);
            if s2.len() < 8 {
                Err(CodebookError::EndOfData)
            } else {
                let b2 = field(s2, 8) as u8;
                let s3 = s2.skip(8);
                if !(b0 == 0x42 && b1 == 0x43 && b2 == 0x56) {
                    Err(CodebookError::InvalidSyncPattern([b0, b1, b2]))
                } else if s3.len() < 16 {
                    Err(CodebookError::EndOfData)
                } else {
                    let dimensions = field(s3, 16) as u16;
                    let s4 = s3.skip(16);
                    if s4.len() < 24 {
                        Err(CodebookError::EndOfData)
                    } else {
                        let entries = field(s4, 24) as u32;
                        let s5 = s4.skip(24);
                        if s5.len() < 1 {
                            Err(CodebookError::EndOfData)
                        } else {
                            let ordered = s5[0];
                            let s6 = s5.skip(1);
                            parse_codebook_lengths(s6, dimensions, entries, ordered)
                        }
                    }
                }
            }
        }
    }
}

/// The rest of the codebook grammar once the header fields are in hand.
pub open spec fn parse_codebook_lengths(
    s: Seq<bool>,
    dimensions: u16,
    entries: u32,
    ordered: bool,
) -> Result<(CodebookModel, Seq<bool>), CodebookError> {
    if !ordered {
        if s.len() < 1 {
            Err(CodebookError::EndOfData)
        } else {
            let sp = s[0];
            let s1 = s.skip(1);
            match parse_unordered(s1, entries as nat, sp) {
                Err(e) => Err(e),
                Ok((lengths, rest)) => parse_codebook_tail(
                    rest,
                    dimensions,
                    entries,
                    ordered,
                    Some(sp),
                    lengths,
                ),
            }
        }
    } else {
        if s.len() < 1 {
            Err(CodebookError::EndOfData)
        } else {
            let first_len = (field(s, 1) + 1) as u8;
            let s1 = s.skip(1);
            match parse_ordered(s1, entries as nat, 0, first_len) {
                Err(e) => Err(e),
                Ok((lengths, rest)) => parse_codebook_tail(
                    rest,
                    dimensions,
                    entries,
                    ordered,
                    None,
                    lengths,
                ),
            }
        }
    }
}

/// The lookup table and the tree, closing out one codebook.
pub open spec fn parse_codebook_tail(
    s: Seq<bool>,
    dimensions: u16,
    entries: u32,
    ordered: bool,
    sparse: Option<bool>,
    lengths: Seq<Option<u8>>,
) -> Result<(CodebookModel, Seq<bool>), CodebookError> {
    if s.len() < 4 {
        Err(CodebookError::EndOfData)
    } else {
        let lookup_type = field(s, 4) as u8;
        let s1 = s.skip(4);
        let table_parsed = if lookup_type == 0 {
            Ok((None::<VectorLookupTableModel>, s1))
        } else if lookup_type <= 2 {
            match parse_vlt(s1, lookup_type, entries, dimensions) {
                Ok((t, rest)) => Ok((Some(t), rest)),
                Err(e) => Err(e),
            }
        } else {
            Err(CodebookError::InvalidLookupType(lookup_type))
        };
        match table_parsed {
            Err(e) => Err(e),
            Ok((vector_lookup_table, s2)) => {
                match build_tree_from(lengths, 0, HuffmanNode::blank()) {
                    Err(e) => Err(e),
                    Ok(huffman_tree) => Ok(
                        (
                            CodebookModel {
                                dimensions,
                                entries,
                                ordered,
                                sparse,
                                codeword_lengths: lengths,
                                lookup_type,
                                vector_lookup_table,
                                huffman_tree,
                            },
                            s2,
                        ),
                    ),
                }
            },
        }
    }
}

/// A per-entry length list has one slot per entry, each used length between
/// 1 and 32.
pub proof fn lemma_unordered_shape(s: Seq<bool>, k: nat, sparse: bool)
    ensures
        parse_unordered(s, k, sparse) matches Ok(p) ==> p.0.len() == k && forall|j: int|
            0 <= j < p.0.len() ==> ((#[trigger] p.0[j]) matches Some(l) ==> 1 <= l <= 32),
    decreases k,
{
    vstd::arithmetic::power2::lemma2_to64();
    if k > 0 {
        if sparse {
            if s.len() >= 1 {
                if s[0] {
                    if s.skip(1).len() >= 5 {
                        crate::bits::lemma_field_bound(s.skip(1), 5);
                        lemma_unordered_shape(s.skip(1).skip(5), (k - 1) as nat, sparse);
                    }
                } else {
                    lemma_unordered_shape(s.skip(1), (k - 1) as nat, sparse);
                }
            }
        } else {
            if s.len() >= 5 {
                crate::bits::lemma_field_bound(s, 5);
                lemma_unordered_shape(s.skip(5), (k - 1) as nat, sparse);
            }
        }
    }
}

/// A run-length list fills every entry from the current one on, each with a
/// length between 1 and 32.
pub proof fn lemma_ordered_shape(s: Seq<bool>, entries: nat, cur_entry: nat, cur_len: u8)
    requires
        cur_len >= 1,
        cur_entry <= entries,
    ensures
        parse_ordered(s, entries, cur_entry, cur_len) matches Ok(p) ==> p.0.len() == entries
            - cur_entry && forall|j: int|
            0 <= j < p.0.len() ==> ((#[trigger] p.0[j]) matches Some(l) ==> 1 <= l <= 32),
    decreases entries - cur_entry, 33 - cur_len,
{
    if cur_entry < entries && cur_len <= 32 {
        let bits = ilog_spec((entries - cur_entry) as nat) as int;
        if s.len() >= bits {
            let number = field(s, bits);
            if cur_entry + number <= entries {
                lemma_ordered_shape(s.skip(bits), entries, cur_entry + number, (cur_len + 1) as u8);
                match parse_ordered(s.skip(bits), entries, cur_entry + number, (cur_len + 1) as u8) {
                    Ok(q) => {
                        match parse_ordered(s, entries, cur_entry, cur_len) {
                            Ok(p) => {
                                let whole = Seq::new(number, |i: int| Some(cur_len)) + q.0;
                                assert(p.0 =~= whole);
                                assert forall|j: int|
                                    0 <= j < p.0.len() implies ((#[trigger] p.0[j]) matches Some(
                                    l,
                                ) ==> 1 <= l <= 32) by {
                                    if j < number {
                                        assert(whole[j] == Some(cur_len));
                                    } else {
                                        assert(whole[j] == q.0[j - number]);
                                    }
                                }
                            },
                            Err(e) => {},
                        }
                    },
                    Err(e) => {},
                }
            }
        }
    }
}

/// Every decoded codebook lists one codeword length per entry, each used
/// length between 1 and 32 bits.
pub proof fn lemma_codebook_shape(s: Seq<bool>)
    ensures
        parse_codebook(s) matches Ok(p) ==> p.0.codeword_lengths.len() == p.0.entries && forall|
            j: int,
        |
            0 <= j < p.0.codeword_lengths.len() ==> ((#[trigger] p.0.codeword_lengths[j]) matches
                Some(l) ==> 1 <= l <= 32),
{
    if s.len() >= 8 && s.skip(8).len() >= 8 && s.skip(8).skip(8).len() >= 8 {
        let s3 = s.skip(8).skip(8).skip(8);
        if s3.len() >= 16 && s3.skip(16).len() >= 24 {
            let entries = field(s3.skip(16), 24) as u32;
            let s5 = s3.skip(16).skip(24);
            if s5.len() >= 1 {
                let s6 = s5.skip(1);
                if !s5[0] {
                    if s6.len() >= 1 {
                        lemma_unordered_shape(s6.skip(1), entries as nat, s6[0]);
                    }
                } else {
                    if s6.len() >= 1 {
                        crate::bits::lemma_field_bound(s6, 1);
                        vstd::arithmetic::power2::lemma2_to64();
                        lemma_ordered_shape(s6.skip(1), entries as nat, 0, (field(s6, 1) + 1) as u8);
                    }
                }
            }
        }
    }
}


/// A leaf already in the tree survives the rest of the build: later
/// insertions only fill slots that read as nothing.
proof fn lemma_build_tree_preserves(
    lengths: Seq<Option<u8>>,
    i: nat,
    t: HuffmanNode,
    p: Seq<bool>,
    v: u32,
)
    requires
        t.sym(p) == Some(v),
        forall|j: int|
            0 <= j < lengths.len() ==> ((#[trigger] lengths[j]) matches Some(l) ==> 1 <= l),
    ensures
        build_tree_from(lengths, i, t) matches Ok(m) ==> m.sym(p) == Some(v),
    decreases lengths.len() - i,
{
    if i < lengths.len() {
        match lengths[i as int] {
            None => {
                lemma_build_tree_preserves(lengths, i + 1, t, p, v);
            },
            Some(len) => {
                if t.avail_at(len as nat) {
                    t.lemma_insert_spec_adds_leaf(len as nat, i as u32);
                    let t2 = t.insert_spec(len as nat, i as u32);
                    let pnew = choose|pn: Seq<bool>|
                        #![trigger pn.len()]
                        {
                            &&& pn.len() == len as nat
                            &&& t2.sym(pn) == Some(i as u32)
                            &&& t.sym(pn) is None
                            &&& forall|q: Seq<bool>| q != pn ==> t2.sym(q) == t.sym(q)
                        };
                    assert(p != pnew);
                    assert(t2.sym(p) == Some(v));
                    lemma_build_tree_preserves(lengths, i + 1, t2, p, v);
                }
            },
        }
    }
}

/// Every entry the build still has to place ends up as a leaf of the final
/// tree at its listed depth.
proof fn lemma_build_tree_places(lengths: Seq<Option<u8>>, i: nat, t: HuffmanNode)
    requires
        forall|j: int|
            0 <= j < lengths.len() ==> ((#[trigger] lengths[j]) matches Some(l) ==> 1 <= l),
    ensures
        build_tree_from(lengths, i, t) matches Ok(m) ==> forall|j: int|
            i <= j < lengths.len() && (#[trigger] lengths[j]) is Some ==> exists|q: Seq<bool>|
                #![trigger q.len()]
                q.len() == lengths[j]->0 && m.sym(q) == Some(j as u32),
    decreases lengths.len() - i,
{
    if i < lengths.len() {
        match lengths[i as int] {
            None => {
                lemma_build_tree_places(lengths, i + 1, t);
            },
            Some(len) => {
                if t.avail_at(len as nat) {
                    t.lemma_insert_spec_adds_leaf(len as nat, i as u32);
                    let t2 = t.insert_spec(len as nat, i as u32);
                    let pnew = choose|pn: Seq<bool>|
                        #![trigger pn.len()]
                        {
                            &&& pn.len() == len as nat
                            &&& t2.sym(pn) == Some(i as u32)
                            &&& t.sym(pn) is None
                            &&& forall|q: Seq<bool>| q != pn ==> t2.sym(q) == t.sym(q)
                        };
                    lemma_build_tree_preserves(lengths, i + 1, t2, pnew, i as u32);
                    lemma_build_tree_places(lengths, i + 1, t2);
                }
            },
        }
    }
}

/// Every entry of a decoded codebook that lists a codeword length appears in
/// the decoded Huffman tree as a leaf at exactly that depth.
pub proof fn lemma_codebook_tree_places_symbols(s: Seq<bool>)
    ensures
        parse_codebook(s) matches Ok(p) ==> forall|j: int|
            0 <= j < p.0.codeword_lengths.len() && (#[trigger] p.0.codeword_lengths[j]) is Some
                ==> exists|q: Seq<bool>|
                #![trigger q.len()]
                q.len() == p.0.codeword_lengths[j]->0 && p.0.huffman_tree.sym(q) == Some(j as u32),
{
    lemma_codebook_shape(s);
    match parse_codebook(s) {
        Ok(p) => {
            let lengths = p.0.codeword_lengths;
            lemma_build_tree_places(lengths, 0, HuffmanNode::blank());
            lemma_codebook_ties_tree(s);
        },
        Err(e) => {},
    }
}

/// A decoded codebook's tree is the one the build yields from its lengths.
proof fn lemma_codebook_ties_tree(s: Seq<bool>)
    ensures
        parse_codebook(s) matches Ok(p) ==> build_tree_from(
            p.0.codeword_lengths,
            0,
            HuffmanNode::blank(),
        ) == Ok::<HuffmanNode, CodebookError>(p.0.huffman_tree),
{
}

/// Read per-entry codeword lengths for `k` entries.
#[verifier::loop_isolation(false)]
fn read_unordered(reader: &mut Reader, k: u32, sparse: bool) -> (r: Result<
    Vec<Option<u8>>,
    CodebookError,
>)
    requires
        old(reader).wf(),
    ensures
        match r {
            Ok(v) => final(reader).wf() && parse_unordered(old(reader).bits(), k as nat, sparse)
                == Ok::<_, CodebookError>((v@, final(reader).bits())),
            Err(e) => parse_unordered(old(reader).bits(), k as nat, sparse) == Err::<
                (Seq<Option<u8>>, Seq<bool>),
                _,
            >(e),
        },
{
    let ghost s0 = reader.bits();
    let mut v: Vec<Option<u8>> = Vec::new();
    let mut i: u32 = 0;
    while i < k
        invariant
            reader.wf(),
            i <= k,
            match parse_unordered(reader.bits(), (k - i) as nat, sparse) {
                Ok(p) => parse_unordered(s0, k as nat, sparse) == Ok::<_, CodebookError>(
                    (v@ + p.0, p.1),
                ),
                Err(e) => parse_unordered(s0, k as nat, sparse) == Err::<
                    (Seq<Option<u8>>, Seq<bool>),
                    _,
                >(e),
            },
        decreases k - i,
    {
        let ghost vpre = v@;
        let used = if sparse {
            match reader.read_bool() {
                Some(b) => b,
                None => {
                    return Err(CodebookError::EndOfData);
                },
            }
        } else {
            true
        };
        if used {
            let stored = match reader.read_u8(5) {
                Some(x) => x,
                None => {
                    return Err(CodebookError::EndOfData);
                },
            };
            proof {
                vstd::arithmetic::power2::lemma2_to64();
            }
            v.push(Some(stored + 1));
        } else {
            v.push(None);
        }
        i = i + 1;
        proof {
            match parse_unordered(reader.bits(), (k - i) as nat, sparse) {
                Ok(p) => {
                    assert(vpre + (seq![v@[v@.len() - 1]] + p.0) =~= v@ + p.0);
                },
                Err(e) => {},
            }
            assert(v@ =~= vpre + seq![v@[v@.len() - 1]]);
        }
    }
    proof {
        assert(v@ + Seq::<Option<u8>>::empty() =~= v@);
    }
    Ok(v)
}

/// Read run-length codeword lengths for `entries` entries.
#[verifier::loop_isolation(false)]
fn read_ordered(reader: &mut Reader, entries: u32, first_len: u8) -> (r: Result<
    Vec<Option<u8>>,
    CodebookError,
>)
    requires
        old(reader).wf(),
        entries < 0x100_0000,
        1 <= first_len <= 32,
    ensures
        match r {
            Ok(v) => final(reader).wf() && parse_ordered(
                old(reader).bits(),
                entries as nat,
                0,
                first_len,
            ) == Ok::<_, CodebookError>((v@, final(reader).bits())),
            Err(e) => parse_ordered(old(reader).bits(), entries as nat, 0, first_len) == Err::<
                (Seq<Option<u8>>, Seq<bool>),
                _,
            >(e),
        },
{
    let ghost s0 = reader.bits();
    let mut v: Vec<Option<u8>> = Vec::new();
    let mut cur_entry: u32 = 0;
    let mut cur_len: u8 = first_len;
    while cur_entry < entries
        invariant
            reader.wf(),
            cur_entry <= entries,
            entries < 0x100_0000,
            1 <= cur_len <= 33,
            match parse_ordered(reader.bits(), entries as nat, cur_entry as nat, cur_len) {
                Ok(p) => parse_ordered(s0, entries as nat, 0, first_len) == Ok::<
                    _,
                    CodebookError,
                >((v@ + p.0, p.1)),
                Err(e) => parse_ordered(s0, entries as nat, 0, first_len) == Err::<
                    (Seq<Option<u8>>, Seq<bool>),
                    _,
                >(e),
            },
        decreases reader.bits().len(),
    {
        if cur_len > 32 {
            return Err(CodebookError::LengthOverflow(cur_len));
        }
        let bits_to_read = ilog(entries - cur_entry);
        proof {
            crate::util::lemma_ilog_bounds((entries - cur_entry) as nat);
            vstd::arithmetic::power2::lemma2_to64();
            if bits_to_read < 24 {
                vstd::arithmetic::power2::lemma_pow2_strictly_increases(bits_to_read as nat, 24);
            } else {
                crate::util::lemma_ilog_le_32((entries - cur_entry) as u32);
                if ilog_spec((entries - cur_entry) as nat) > 24 {
                    vstd::arithmetic::power2::lemma_pow2_strictly_increases(
                        24,
                        (ilog_spec((entries - cur_entry) as nat) - 1) as nat,
                    );
                }
            }
        }
        let number = match reader.read_u32(bits_to_read) {
            Some(n) => n,
            None => {
                return Err(CodebookError::EndOfData);
            },
        };
        let ghost vpre = v@;
        let mut j: u32 = 0;
        while j < number
            invariant
                j <= number,
                v@ =~= vpre + Seq::new(j as nat, |t: int| Some(cur_len)),
            decreases number - j,
        {
            v.push(Some(cur_len));
            j = j + 1;
            proof {
                assert(v@ =~= vpre + Seq::new(j as nat, |t: int| Some(cur_len)));
            }
        }
        if cur_entry + number > entries {
            return Err(CodebookError::TooManyEntries(cur_entry + number));
        }
        cur_entry = cur_entry + number;
        cur_len = cur_len + 1;
        proof {
            match parse_ordered(reader.bits(), entries as nat, cur_entry as nat, cur_len) {
                Ok(p) => {
                    assert(vpre + (Seq::new(number as nat, |t: int| Some((cur_len - 1) as u8))
                        + p.0) =~= v@ + p.0);
                },
                Err(e) => {},
            }
        }
    }
    proof {
        assert(v@ + Seq::<Option<u8>>::empty() =~= v@);
    }
    Ok(v)
}

/// Read `k` multiplicands, each `w` bits wide.
#[verifier::loop_isolation(false)]
fn read_multiplicands(reader: &mut Reader, w: u8, k: u32) -> (r: Result<Vec<u32>, CodebookError>)
    requires
        old(reader).wf(),
        1 <= w <= 16,
    ensures
        match r {
            Ok(v) => final(reader).wf() && parse_multiplicands(
                old(reader).bits(),
                w as int,
                k as nat,
            ) == Ok::<_, CodebookError>((v@, final(reader).bits())),
            Err(e) => parse_multiplicands(old(reader).bits(), w as int, k as nat) == Err::<
                (Seq<u32>, Seq<bool>),
                _,
            >(e),
        },
{
    let ghost s0 = reader.bits();
    let mut v: Vec<u32> = Vec::new();
    let mut i: u32 = 0;
    while i < k
        invariant
            reader.wf(),
            i <= k,
            match parse_multiplicands(reader.bits(), w as int, (k - i) as nat) {
                Ok(p) => parse_multiplicands(s0, w as int, k as nat) == Ok::<_, CodebookError>(
                    (v@ + p.0, p.1),
                ),
                Err(e) => parse_multiplicands(s0, w as int, k as nat) == Err::<
                    (Seq<u32>, Seq<bool>),
                    _,
                >(e),
            },
        decreases k - i,
    {
        let ghost vpre = v@;
        let x = match reader.read_u32(w as u32) {
            Some(x) => x,
            None => {
                return Err(CodebookError::EndOfData);
            },
        };
        v.push(x);
        i = i + 1;
        proof {
            match parse_multiplicands(reader.bits(), w as int, (k - i) as nat) {
                Ok(p) => {
                    assert(vpre + (seq![x] + p.0) =~= v@ + p.0);
                },
                Err(e) => {},
            }
            assert(v@ =~= vpre + seq![x]);
        }
    }
    proof {
        assert(v@ + Seq::<u32>::empty() =~= v@);
    }
    Ok(v)
}

/// Read one vector lookup table.
fn read_vlt(reader: &mut Reader, lookup_type: u8, entries: u32, dimensions: u16) -> (r: Result<
    VectorLookupTable,
    CodebookError,
>)
    requires
        old(reader).wf(),
        lookup_type == 1 || lookup_type == 2,
        entries < 0x100_0000,
    ensures
        match r {
            Ok(t) => final(reader).wf() && parse_vlt(
                old(reader).bits(),
                lookup_type,
                entries,
                dimensions,
            ) == Ok::<_, CodebookError>((t@, final(reader).bits())),
            Err(e) => parse_vlt(old(reader).bits(), lookup_type, entries, dimensions) == Err::<
                (VectorLookupTableModel, Seq<bool>),
                _,
            >(e),
        },
{
    proof {
        vstd::arithmetic::power2::lemma2_to64();
    }
    let min_raw = match reader.read_u32(32) {
        Some(x) => x,
        None => {
            return Err(CodebookError::EndOfData);
        },
    };
    let minimum_value = float32_unpack(min_raw);
    if !minimum_value.is_finite() {
        return Err(CodebookError::NonFiniteFloat(min_raw));
    }
    let delta_raw = match reader.read_u32(32) {
        Some(x) => x,
        None => {
            return Err(CodebookError::EndOfData);
        },
    };
    let delta_value = float32_unpack(delta_raw);
    if !delta_value.is_finite() {
        return Err(CodebookError::NonFiniteFloat(delta_raw));
    }
    let value_bits = match reader.read_u8(4) {
        Some(x) => x + 1,
        None => {
            return Err(CodebookError::EndOfData);
        },
    };
    let sequence_p = match reader.read_bool() {
        Some(x) => x,
        None => {
            return Err(CodebookError::EndOfData);
        },
    };
    let lookup_values: u32 = if lookup_type == 1 {
        if dimensions == 0 && entries > 0 {
            return Err(CodebookError::ZeroLookupDimensions);
        }
        let lv = lookup1_values(entries, dimensions as u32);
        proof {
            if dimensions > 0 {
                lemma_lookup1_from_pins(entries as nat, dimensions as nat, 0, lv as nat);
            } else {
                vstd::arithmetic::power::lemma_pow0(lv as int);
            }
        }
        lv
    } else {
        assert((entries as u64) * (dimensions as u64) <= 0xFF_FFFFu64 * 0xFFFFu64)
            by (nonlinear_arith)
            requires
                entries < 0x100_0000,
                dimensions <= 0xFFFFu16,
        ;
        let prod: u64 = entries as u64 * dimensions as u64;
        if prod > 0xFFFF_FFFF {
            return Err(CodebookError::LookupTableTooLarge(prod));
        }
        prod as u32
    };
    let multiplicands = match read_multiplicands(reader, value_bits, lookup_values) {
        Ok(v) => v,
        Err(e) => {
            return Err(e);
        },
    };
    Ok(
        VectorLookupTable {
            minimum_value,
            delta_value,
            value_bits,
            sequence_p,
            lookup_values,
            multiplicands,
        },
    )
}

/// Build the canonical tree from a finished length list.
#[verifier::loop_isolation(false)]
fn build_tree(lengths: &Vec<Option<u8>>) -> (r: Result<HuffmanTree, CodebookError>)
    requires
        lengths@.len() < 0x100_0000,
        forall|j: int|
            0 <= j < lengths@.len() ==> ((#[trigger] lengths@[j]) matches Some(l) ==> 1 <= l),
    ensures
        match r {
            Ok(t) => t.wf() && build_tree_from(lengths@, 0, HuffmanNode::blank()) == Ok::<
                _,
                CodebookError,
            >(t.repr()),
            Err(e) => build_tree_from(lengths@, 0, HuffmanNode::blank()) == Err::<
                HuffmanNode,
                _,
            >(e),
        },
{
    let mut tree = HuffmanTree::new();
    let mut i: usize = 0;
    while i < lengths.len()
        invariant
            i <= lengths@.len(),
            tree.wf(),
            build_tree_from(lengths@, 0, HuffmanNode::blank()) == build_tree_from(
                lengths@,
                i as nat,
                tree.repr(),
            ),
        decreases lengths@.len() - i,
    {
        match lengths[i] {
            Some(len) => {
                let done = tree.add_node(len, i as u32);
                if !done {
                    return Err(CodebookError::HuffmanNoRoom(i as u32));
                }
            },
            None => {},
        }
        i = i + 1;
    }
    Ok(tree)
}

impl Codebook {
    /// Read one codebook record from the stream.
    pub fn decode(reader: &mut Reader) -> (r: Result<Codebook, CodebookError>)
        requires
            old(reader).wf(),
        ensures
            match r {
                Ok(c) => final(reader).wf() && parse_codebook(old(reader).bits()) == Ok::<
                    _,
                    CodebookError,
                >((c@, final(reader).bits())),
                Err(e) => parse_codebook(old(reader).bits()) == Err::<
                    (CodebookModel, Seq<bool>),
                    _,
                >(e),
            },
    {
        proof {
            vstd::arithmetic::power2::lemma2_to64();
        }
        let b0 = match reader.read_u8(8) {
            Some(x) => x,
            None => {
                return Err(CodebookError::EndOfData);
            },
        };
        let b1 = match reader.read_u8(8) {
            Some(x) => x,
            None => {
                return Err(CodebookError::EndOfData);
            },
        };
        let b2 = match reader.read_u8(8) {
            Some(x) => x,
            None => {
                return Err(CodebookError::EndOfData);
            },
        };
        if !(b0 == 0x42 && b1 == 0x43 && b2 == 0x56) {
            return Err(CodebookError::InvalidSyncPattern([b0, b1, b2]));
        }
        let dimensions = match reader.read_u16(16) {
            Some(x) => x,
            None => {
                return Err(CodebookError::EndOfData);
            },
        };
        let entries = match reader.read_u32(24) {
            Some(x) => x,
            None => {
                return Err(CodebookError::EndOfData);
            },
        };
        let ordered = match reader.read_bool() {
            Some(x) => x,
            None => {
                return Err(CodebookError::EndOfData);
            },
        };
        let ghost s6 = reader.bits();
        let mut sparse: Option<bool> = None;
        let codeword_lengths = if !ordered {
            let sp = match reader.read_bool() {
                Some(x) => x,
                None => {
                    return Err(CodebookError::EndOfData);
                },
            };
            sparse = Some(sp);
            let ghost su = reader.bits();
            proof {
                lemma_unordered_shape(su, entries as nat, sp);
            }
            match read_unordered(reader, entries, sp) {
                Ok(v) => v,
                Err(e) => {
                    return Err(e);
                },
            }
        } else {
            let first_len = match reader.read_u8(1) {
                Some(x) => x + 1,
                None => {
                    return Err(CodebookError::EndOfData);
                },
            };
            let ghost so = reader.bits();
            proof {
                lemma_ordered_shape(so, entries as nat, 0, first_len);
            }
            match read_ordered(reader, entries, first_len) {
                Ok(v) => v,
                Err(e) => {
                    return Err(e);
                },
            }
        };
        let lookup_type = match reader.read_u8(4) {
            Some(x) => x,
            None => {
                return Err(CodebookError::EndOfData);
            },
        };
        let vector_lookup_table = if lookup_type == 0 {
            None
        } else if lookup_type <= 2 {
            match read_vlt(reader, lookup_type, entries, dimensions) {
                Ok(t) => Some(t),
                Err(e) => {
                    return Err(e);
                },
            }
        } else {
            return Err(CodebookError::InvalidLookupType(lookup_type));
        };
        let huffman_tree = match build_tree(&codeword_lengths) {
            Ok(t) => t,
            Err(e) => {
                return Err(e);
            },
        };
        Ok(
            Codebook {
                dimensions,
                entries,
                ordered,
                sparse,
                codeword_lengths,
                lookup_type,
                vector_lookup_table,
                huffman_tree,
            },
        )
    }
}

} // verus!
