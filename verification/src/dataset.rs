//! The reference dataset: a binary file (little-endian) laid out as
//!
//! ```text
//! HEADER  (32 bytes)   magic u32, version u32, dim u32, n u32, 16 reserved bytes
//! LABELS  (n bytes)    0 = legit, 1 = fraud
//! PAD     (up to a multiple of 64)
//! VECTORS (DIM * n_padded * 2 bytes)  i16 column-major: all of dimension 0,
//!                                     then all of dimension 1, ...
//! ```
//!
//! `n_padded` rounds `n` up to a multiple of `SIMD_LANES`, so that a scan can
//! load whole lanes; the padding rows are never reported as neighbours.

use vstd::prelude::*;
use crate::proto::DIM;

verus! {

pub const MAGIC: u32 = 0x5242_4B33;

pub const VERSION: u32 = 3;

pub const HEADER_SIZE: usize = 32;

pub const LABEL_LEGIT: u8 = 0;

pub const LABEL_FRAUD: u8 = 1;

pub const ALIGN: usize = 64;

pub const SIMD_LANES: usize = 8;

/// Bytes per stored coordinate.
pub const VALUE_SIZE: usize = 2;

/// Why a byte image is not a dataset.
#[derive(Debug, Clone, Copy, PartialEq, Eq, Structural)]
pub enum DatasetError {
    BadMagic(u32),
    BadVersion(u32),
    BadDim(u32),
    Truncated { expected: usize, actual: usize },
}

/// `v` rounded up to a multiple of `a`.
pub open spec fn spec_align_up(v: int, a: int) -> int {
    (v + a - 1) / a * a
}

/// `n` rounded up to a multiple of `SIMD_LANES`.
pub open spec fn spec_padded_n(n: int) -> int {
    spec_align_up(n, SIMD_LANES as int)
}

/// Offset of the vector block in a file of `n` rows.
pub open spec fn spec_vectors_offset(n: int) -> int {
    spec_align_up(HEADER_SIZE + n, ALIGN as int)
}

/// Size of a complete file of `n` rows.
pub open spec fn spec_file_size(n: int) -> int {
    spec_vectors_offset(n) + DIM * spec_padded_n(n) * VALUE_SIZE
}

/// The little-endian `u32` at `off`.
pub open spec fn le_u32_at(b: Seq<u8>, off: int) -> int {
    b[off] + b[off + 1] * 256 + b[off + 2] * 65536 + b[off + 3] * 16777216
}

/// The little-endian two's-complement `i16` made of the bytes `lo`, `hi`.
pub open spec fn le_i16(lo: u8, hi: u8) -> i16 {
    let u = lo + hi * 256;
    (if u >= 32768 {
        u - 65536
    } else {
        u
    }) as i16
}

/// The abstract content of a dataset.
pub struct DatasetModel {
    /// Number of rows.
    pub n: nat,
    /// `n` rounded up to a multiple of `SIMD_LANES`.
    pub n_padded: nat,
    /// One label per row.
    pub labels: Seq<u8>,
    /// Column-major coordinates: coordinate `d` of row `i` is at `d * n_padded + i`.
    pub vectors: Seq<i16>,
}

/// The invariant of a dataset's content.
pub open spec fn model_wf(m: DatasetModel) -> bool {
    &&& m.n <= u32::MAX
    &&& m.n_padded == spec_padded_n(m.n as int)
    &&& m.labels.len() == m.n
    &&& m.vectors.len() == DIM * m.n_padded
}

/// The vector block of a file of `n` rows, decoded.
pub open spec fn decode_vectors(b: Seq<u8>, n: int) -> Seq<i16> {
    let off = spec_vectors_offset(n);
    Seq::new(
        (DIM * spec_padded_n(n)) as nat,
        |k: int| le_i16(b[off + 2 * k], b[off + 2 * k + 1]),
    )
}

/// What reading the byte image `b` gives.
pub open spec fn spec_decode(b: Seq<u8>) -> Result<DatasetModel, DatasetError> {
    if b.len() < HEADER_SIZE {
        Err(DatasetError::Truncated { expected: HEADER_SIZE, actual: b.len() as usize })
    } else if le_u32_at(b, 0) != MAGIC {
        Err(DatasetError::BadMagic(le_u32_at(b, 0) as u32))
    } else if le_u32_at(b, 4) != VERSION {
        Err(DatasetError::BadVersion(le_u32_at(b, 4) as u32))
    } else if le_u32_at(b, 8) != DIM {
        Err(DatasetError::BadDim(le_u32_at(b, 8) as u32))
    } else {
        let n = le_u32_at(b, 12);
        if b.len() < spec_file_size(n) {
            Err(
                DatasetError::Truncated {
                    expected: (if spec_file_size(n) > usize::MAX {
                        usize::MAX as int
                    } else {
                        spec_file_size(n)
                    }) as usize,
                    actual: b.len() as usize,
                },
            )
        } else {
            Ok(
                DatasetModel {
                    n: n as nat,
                    n_padded: spec_padded_n(n) as nat,
                    labels: b.subrange(HEADER_SIZE as int, HEADER_SIZE + n),
                    vectors: decode_vectors(b, n),
                },
            )
        }
    }
}


/// A validated reference dataset, held in memory.
pub struct Dataset {
    n: usize,
    n_padded: usize,
    labels: Vec<u8>,
    vectors: Vec<i16>,
}

impl View for Dataset {
    type V = DatasetModel;

    closed spec fn view(&self) -> DatasetModel {
        DatasetModel {
            n: self.n as nat,
            n_padded: self.n_padded as nat,
            labels: self.labels@,
            vectors: self.vectors@,
        }
    }
}

/// The little-endian `u32` at `off`.
fn read_u32_le(b: &[u8], off: usize) -> (r: u32)
    requires
        off + 4 <= b@.len(),
    ensures
        r == le_u32_at(b@, off as int),
{
    b[off] as u32 + b[off + 1] as u32 * 256 + b[off + 2] as u32 * 65536 + b[off + 3] as u32
        * 16777216
}

/// The two's-complement `i16` whose little-endian bytes are `lo`, `hi`.
fn i16_from_le(lo: u8, hi: u8) -> (r: i16)
    ensures
        r == le_i16(lo, hi),
{
    let u: u32 = lo as u32 + hi as u32 * 256;
    if u >= 32768 {
        (u as i32 - 65536) as i16
    } else {
        u as i16
    }
}

impl Dataset {
    /// The dataset's invariant: the content is consistent with its size.
    pub open spec fn wf(&self) -> bool {
        model_wf(self@)
    }

    /// Validates the byte image of a dataset file and loads it.
    pub fn from_bytes(bytes: &[u8]) -> (r: Result<Dataset, DatasetError>)
        ensures
            match r {
                Ok(ds) => ds.wf() && spec_decode(bytes@) == Ok::<DatasetModel, DatasetError>(ds@),
                Err(e) => spec_decode(bytes@) == Err::<DatasetModel, DatasetError>(e),
            },
    {
        if bytes.len() < HEADER_SIZE {
            return Err(DatasetError::Truncated { expected: HEADER_SIZE, actual: bytes.len() });
        }
        let magic = read_u32_le(bytes, 0);
        if magic != MAGIC {
            return Err(DatasetError::BadMagic(magic));
        }
        let version = read_u32_le(bytes, 4);
        if version != VERSION {
            return Err(DatasetError::BadVersion(version));
        }
        let dim = read_u32_le(bytes, 8);
        if dim as usize != DIM {
            return Err(DatasetError::BadDim(dim));
        }
        let n64 = read_u32_le(bytes, 12) as u64;
        proof {
            lemma_div_ceil(n64 as int, SIMD_LANES as int);
            lemma_div_ceil(HEADER_SIZE + n64, ALIGN as int);
        }
        let pad64: u64 = (n64 + 7) / 8 * 8;
        let voff64: u64 = (HEADER_SIZE as u64 + n64 + 63) / 64 * 64;
        let expected64: u64 = voff64 + DIM as u64 * pad64 * VALUE_SIZE as u64;
        if (bytes.len() as u64) < expected64 {
            let expected = if expected64 > usize::MAX as u64 {
                usize::MAX
            } else {
                expected64 as usize
            };
            return Err(DatasetError::Truncated { expected, actual: bytes.len() });
        }
        let blen = bytes.len();
        assert(voff64 >= HEADER_SIZE + n64);
        let n = n64 as usize;
        let n_padded = pad64 as usize;
        let labels_off = HEADER_SIZE;
        let vectors_off = voff64 as usize;
        let mut labels: Vec<u8> = Vec::with_capacity(n);
        let mut i: usize = 0;
        while i < n
            invariant
                i <= n,
                labels_off + n <= bytes@.len(),
                blen == bytes@.len(),
                labels_off == HEADER_SIZE,
                labels@ =~= bytes@.subrange(HEADER_SIZE as int, HEADER_SIZE + i),
            decreases n - i,
        {
            labels.push(bytes[labels_off + i]);
            i += 1;
        }
        let total = DIM * n_padded;
        let mut vectors: Vec<i16> = Vec::with_capacity(total);
        let mut k: usize = 0;
        while k < total
            invariant
                k <= total,
                total == DIM * n_padded,
                vectors_off == spec_vectors_offset(n as int),
                n_padded == spec_padded_n(n as int),
                vectors_off + total * 2 <= bytes@.len(),
                blen == bytes@.len(),
                vectors@ =~= decode_vectors(bytes@, n as int).take(k as int),
            decreases total - k,
        {
            let v = i16_from_le(bytes[vectors_off + 2 * k], bytes[vectors_off + 2 * k + 1]);
            vectors.push(v);
            k += 1;
        }
        assert(decode_vectors(bytes@, n as int).take(total as int) =~= decode_vectors(bytes@, n as int));
        Ok(Dataset { n, n_padded, labels, vectors })
    }

    /// Number of rows.
    pub fn len(&self) -> (r: usize)
        ensures
            r == self@.n,
    {
        self.n
    }

    /// Number of rows rounded up to a multiple of `SIMD_LANES`; a column has
    /// this many entries.
    pub fn n_padded(&self) -> (r: usize)
        ensures
            r == self@.n_padded,
    {
        self.n_padded
    }

    /// `true` when the dataset has no row.
    pub fn is_empty(&self) -> (r: bool)
        ensures
            r == (self@.n == 0),
    {
        self.n == 0
    }

    /// `true` when row `i` is labelled fraud; rows beyond `len()` are not.
    pub fn is_fraud(&self, i: usize) -> (r: bool)
        requires
            self.wf(),
        ensures
            r == (i < self@.n && self@.labels[i as int] == LABEL_FRAUD),
    {
        if i >= self.n {
            return false;
        }
        self.labels[i] == LABEL_FRAUD
    }

    /// The contiguous column of dimension `d` (`n_padded()` entries).
    pub fn dim_column(&self, d: usize) -> (r: &[i16])
        requires
            self.wf(),
            d < DIM,
        ensures
            r@ == self@.vectors.subrange(d * self@.n_padded, (d + 1) * self@.n_padded),
    {
        let pn = self.n_padded;
        let len = self.vectors.len();
        proof {
            assert(d * pn + pn == (d + 1) * pn && (d + 1) * pn <= DIM * pn) by (nonlinear_arith)
                requires
                    d < DIM,
            ;
        }
        let start = d * pn;
        let end = start + pn;
        &self.vectors.as_slice()[start..end]
    }
}

/// `n` rounded up to a multiple of `SIMD_LANES`.
pub fn padded_n(n: usize) -> (r: usize)
    requires
        spec_padded_n(n as int) <= usize::MAX,
    ensures
        r == spec_padded_n(n as int),
{
    align_up(n, SIMD_LANES)
}

/// `v` rounded up to a multiple of `a`.
pub fn align_up(v: usize, a: usize) -> (r: usize)
    requires
        a > 0,
        spec_align_up(v as int, a as int) <= usize::MAX,
    ensures
        r == spec_align_up(v as int, a as int),
{
    proof {
        lemma_div_ceil(v as int, a as int);
        let c = (v + a - 1) / (a as int);
        assert(c <= c * a) by (nonlinear_arith)
            requires
                c >= 0,
                a >= 1,
        ;
    }
    let q = v / a + (if v % a == 0 { 0usize } else { 1usize });
    q * a
}

/// `align_up` lands on the smallest multiple of `a` that is at least `v`.
pub proof fn lemma_align_up_bounds(v: int, a: int)
    requires
        v >= 0,
        a > 0,
    ensures
        v <= spec_align_up(v, a) < v + a,
        spec_align_up(v, a) % a == 0,
{
    lemma_div_ceil(v, a);
    vstd::arithmetic::div_mod::lemma_mod_multiples_basic((v + a - 1) / a, a);
}

proof fn lemma_div_ceil(v: int, a: int)
    requires
        v >= 0,
        a > 0,
    ensures
        v / a + (if v % a == 0 { 0int } else { 1int }) == (v + a - 1) / a,
        (v + a - 1) / a * a >= v,
        (v + a - 1) / a * a < v + a,
{
    vstd::arithmetic::div_mod::lemma_fundamental_div_mod(v, a);
    vstd::arithmetic::div_mod::lemma_fundamental_div_mod(v + a - 1, a);
    vstd::arithmetic::div_mod::lemma_mod_bound(v, a);
    vstd::arithmetic::div_mod::lemma_mod_bound(v + a - 1, a);
    let q = v / a;
    let r = v % a;
    if r == 0 {
        assert((v + a - 1) / a == q) by {
            vstd::arithmetic::mul::lemma_mul_is_commutative(a, q);
            vstd::arithmetic::div_mod::lemma_fundamental_div_mod_converse(v + a - 1, a, q, a - 1);
        }
    } else {
        assert((v + a - 1) / a == q + 1) by {
            vstd::arithmetic::mul::lemma_mul_is_commutative(a, q);
            vstd::arithmetic::mul::lemma_mul_is_distributive_add_other_way(a, q, 1);
            vstd::arithmetic::div_mod::lemma_fundamental_div_mod_converse(v + a - 1, a, q + 1, r - 1);
        }
    }
    vstd::arithmetic::mul::lemma_mul_is_commutative(a, q);
    vstd::arithmetic::mul::lemma_mul_is_distributive_add_other_way(a, q, 1);
}

} // verus!
