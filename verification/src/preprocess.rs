//! Building a dataset file from labelled, quantized reference vectors.

use vstd::prelude::*;
use vstd::string::StringSliceAdditionalSpecFns;
use crate::dataset::{
    align_up, le_i16, le_u32_at, padded_n, spec_decode, spec_file_size, spec_padded_n,
    spec_vectors_offset, DatasetError, DatasetModel, ALIGN, HEADER_SIZE, LABEL_FRAUD, LABEL_LEGIT,
    MAGIC, SIMD_LANES, VERSION,
};
use crate::proto::DIM;
use crate::text::bytes_eq;

verus! {

/// The label code that a reference's label text stands for: `"fraud"` and
/// `"legit"` are the only labels.
pub open spec fn spec_label_code(label: Seq<u8>) -> Option<u8> {
    if label == "fraud".spec_bytes() {
        Some(LABEL_FRAUD)
    } else if label == "legit".spec_bytes() {
        Some(LABEL_LEGIT)
    } else {
        None
    }
}

/// The label code of a reference's label; `None` for an unknown label.
pub fn label_code(label: &str) -> (r: Option<u8>)
    ensures
        r == spec_label_code(label.spec_bytes()),
{
    if bytes_eq(label.as_bytes(), "fraud".as_bytes()) {
        Some(LABEL_FRAUD)
    } else if bytes_eq(label.as_bytes(), "legit".as_bytes()) {
        Some(LABEL_LEGIT)
    } else {
        None
    }
}

/// `v` as an unsigned 16-bit pattern (two's complement).
pub open spec fn u16_pattern(v: i16) -> int {
    if v < 0 {
        v + 65536
    } else {
        v as int
    }
}

/// Low byte of the little-endian encoding of `v`.
pub open spec fn i16_lo(v: i16) -> u8 {
    (u16_pattern(v) % 256) as u8
}

/// High byte of the little-endian encoding of `v`.
pub open spec fn i16_hi(v: i16) -> u8 {
    (u16_pattern(v) / 256) as u8
}

/// The four little-endian bytes of `x` (`0 <= x < 2^32`).
pub open spec fn le_u32_bytes(x: int) -> Seq<u8> {
    let x1 = x / 256;
    let x2 = x1 / 256;
    let x3 = x2 / 256;
    seq![(x % 256) as u8, (x1 % 256) as u8, (x2 % 256) as u8, (x3 % 256) as u8]
}

/// The header of a file of `n` rows (the row count is stored modulo `2^32`).
pub open spec fn spec_header(n: int) -> Seq<u8> {
    le_u32_bytes(MAGIC as int) + le_u32_bytes(VERSION as int) + le_u32_bytes(DIM as int)
        + le_u32_bytes(n % 0x1_0000_0000) + Seq::new(16, |i: int| 0u8)
}

/// The little-endian bytes of a sequence of `i16`.
pub open spec fn values_le_bytes(v: Seq<i16>) -> Seq<u8> {
    Seq::new(
        2 * v.len(),
        |j: int|
            if j % 2 == 0 {
                i16_lo(v[j / 2])
            } else {
                i16_hi(v[j / 2])
            },
    )
}

/// The file image for the given labels and column-major coordinates.
pub open spec fn spec_encode(labels: Seq<u8>, soa: Seq<i16>) -> Seq<u8> {
    let n = labels.len() as int;
    spec_header(n) + labels + Seq::new(
        (spec_vectors_offset(n) - HEADER_SIZE - n) as nat,
        |i: int| 0u8,
    ) + values_le_bytes(soa)
}

/// The column-major layout of `rows`, padded with zero rows up to
/// `padded_n(rows.len())`.
pub open spec fn spec_to_soa(rows: Seq<[i16; DIM]>) -> Seq<i16> {
    let pn = spec_padded_n(rows.len() as int);
    Seq::new(
        (DIM * pn) as nat,
        |k: int|
            if k % pn < rows.len() {
                rows[k % pn][k / pn]
            } else {
                0i16
            },
    )
}

fn push_u32_le(out: &mut Vec<u8>, x: u32)
    ensures
        final(out)@ == old(out)@ + le_u32_bytes(x as int),
{
    let x1 = x / 256;
    let x2 = x1 / 256;
    let x3 = x2 / 256;
    out.push((x % 256) as u8);
    out.push((x1 % 256) as u8);
    out.push((x2 % 256) as u8);
    out.push((x3 % 256) as u8);
    assert(final(out)@ =~= old(out)@ + le_u32_bytes(x as int));
}

/// Lays out the rows column by column (all of dimension 0 first), padding
/// each column with zeros up to `padded_n(rows.len())`.
pub fn to_soa(rows: &[[i16; DIM]]) -> (r: Vec<i16>)
    requires
        DIM * spec_padded_n(rows@.len() as int) <= usize::MAX,
    ensures
        r@ == spec_to_soa(rows@),
{
    let n = rows.len();
    proof {
        crate::dataset::lemma_align_up_bounds(n as int, SIMD_LANES as int);
    }
    let pn = padded_n(n);
    let mut soa: Vec<i16> = Vec::with_capacity(DIM * pn);
    let mut d: usize = 0;
    while d < DIM
        invariant
            d <= DIM,
            n == rows@.len(),
            pn == spec_padded_n(n as int),
            n <= pn,
            DIM * pn <= usize::MAX,
            soa@ =~= spec_to_soa(rows@).take((d * pn) as int),
        decreases DIM - d,
    {
        let mut i: usize = 0;
        while i < pn
            invariant
                d < DIM,
                i <= pn,
                n == rows@.len(),
                pn == spec_padded_n(n as int),
                n <= pn,
                DIM * pn <= usize::MAX,
                soa@ =~= spec_to_soa(rows@).take((d * pn + i) as int),
            decreases pn - i,
        {
            proof {
                assert(d * pn + i < DIM * pn) by (nonlinear_arith)
                    requires
                        d < DIM,
                        i < pn,
                ;
                let k = d * pn + i;
                assert(k % (pn as int) == i && k / (pn as int) == d) by {
                    vstd::arithmetic::div_mod::lemma_fundamental_div_mod_converse(
                        k as int,
                        pn as int,
                        d as int,
                        i as int,
                    );
                }
            }
            let v = if i < n {
                rows[i][d]
            } else {
                0i16
            };
            soa.push(v);
            i += 1;
        }
        assert(d * pn + pn == (d + 1) * pn) by (nonlinear_arith);
        d += 1;
    }
    assert(spec_to_soa(rows@).take((DIM * pn) as int) =~= spec_to_soa(rows@));
    soa
}

/// The complete file image for `labels` (one per row) and the column-major
/// coordinates `soa`: header, labels, zero padding up to the vector block,
/// then the coordinates as little-endian `i16`.
pub fn encode_dataset(labels: &[u8], soa: &[i16]) -> (r: Vec<u8>)
    requires
        spec_vectors_offset(labels@.len() as int) + 2 * soa@.len() <= usize::MAX,
    ensures
        r@ == spec_encode(labels@, soa@),
{
    let n = labels.len();
    proof {
        crate::dataset::lemma_align_up_bounds(HEADER_SIZE + n, ALIGN as int);
    }
    let vectors_off = align_up(HEADER_SIZE + n, ALIGN);
    let mut out: Vec<u8> = Vec::with_capacity(vectors_off + 2 * soa.len());
    push_u32_le(&mut out, MAGIC);
    push_u32_le(&mut out, VERSION);
    push_u32_le(&mut out, DIM as u32);
    push_u32_le(&mut out, (n as u64 % 0x1_0000_0000u64) as u32);
    let mut z: usize = 0;
    while z < 16
        invariant
            z <= 16,
            out@ =~= spec_header(n as int).take(16 + z),
        decreases 16 - z,
    {
        out.push(0u8);
        z += 1;
    }
    assert(out@ =~= spec_header(n as int));
    let ghost head = out@;
    let mut i: usize = 0;
    while i < n
        invariant
            i <= n,
            n == labels@.len(),
            head == spec_header(n as int),
            out@ =~= head + labels@.take(i as int),
        decreases n - i,
    {
        out.push(labels[i]);
        i += 1;
    }
    assert(labels@.take(n as int) =~= labels@);
    let ghost with_labels = out@;
    let pad = vectors_off - HEADER_SIZE - n;
    let mut p: usize = 0;
    while p < pad
        invariant
            p <= pad,
            out@ =~= with_labels + Seq::new(p as nat, |i: int| 0u8),
        decreases pad - p,
    {
        out.push(0u8);
        p += 1;
    }
    let ghost with_pad = out@;
    let mut k: usize = 0;
    while k < soa.len()
        invariant
            k <= soa@.len(),
            vectors_off + 2 * soa@.len() <= usize::MAX,
            out@ =~= with_pad + values_le_bytes(soa@.take(k as int)),
        decreases soa@.len() - k,
    {
        let v = soa[k];
        let u: u32 = if v < 0 {
            (v as i32 + 65536) as u32
        } else {
            v as u32
        };
        out.push((u % 256) as u8);
        out.push((u / 256) as u8);
        proof {
            let a = soa@.take(k as int);
            let b = soa@.take(k as int + 1);
            assert forall|j: int| 0 <= j < 2 * a.len() implies #[trigger] values_le_bytes(b)[j]
                == values_le_bytes(a)[j] by {
                assert(b[j / 2] == a[j / 2]);
            }
            assert(values_le_bytes(b) =~= values_le_bytes(a).push(i16_lo(v)).push(i16_hi(v)));
        }
        k += 1;
    }
    assert(soa@.take(soa@.len() as int) =~= soa@);
    out
}


proof fn lemma_le_u32_bytes(x: int)
    requires
        0 <= x < 0x1_0000_0000,
    ensures
        le_u32_at(le_u32_bytes(x), 0) == x,
{
    let x1 = x / 256;
    let x2 = x1 / 256;
    let x3 = x2 / 256;
    vstd::arithmetic::div_mod::lemma_fundamental_div_mod(x, 256);
    vstd::arithmetic::div_mod::lemma_fundamental_div_mod(x1, 256);
    vstd::arithmetic::div_mod::lemma_fundamental_div_mod(x2, 256);
    vstd::arithmetic::div_mod::lemma_fundamental_div_mod(x3, 256);
    vstd::arithmetic::div_mod::lemma_mod_bound(x, 256);
    vstd::arithmetic::div_mod::lemma_mod_bound(x1, 256);
    vstd::arithmetic::div_mod::lemma_mod_bound(x2, 256);
    vstd::arithmetic::div_mod::lemma_mod_bound(x3, 256);
    assert(x3 < 256);
    assert(x3 % 256 == x3) by {
        vstd::arithmetic::div_mod::lemma_small_mod(x3 as nat, 256);
    }
}

proof fn lemma_le_i16_bytes(v: i16)
    ensures
        le_i16(i16_lo(v), i16_hi(v)) == v,
{
    let u = u16_pattern(v);
    vstd::arithmetic::div_mod::lemma_fundamental_div_mod(u, 256);
    vstd::arithmetic::div_mod::lemma_mod_bound(u, 256);
}

/// Reading back a written dataset file gives what was written: for at most
/// `u32::MAX` rows with one full column-major block of coordinates, decoding
/// the encoded image yields exactly those rows, labels and coordinates.
pub proof fn dataset_file_roundtrip(labels: Seq<u8>, soa: Seq<i16>)
    requires
        labels.len() <= u32::MAX,
        soa.len() == DIM * spec_padded_n(labels.len() as int),
    ensures
        spec_decode(spec_encode(labels, soa)) == Ok::<DatasetModel, DatasetError>(
            DatasetModel {
                n: labels.len(),
                n_padded: spec_padded_n(labels.len() as int) as nat,
                labels: labels,
                vectors: soa,
            },
        ),
{
    let n = labels.len() as int;
    let b = spec_encode(labels, soa);
    let h = spec_header(n);
    crate::dataset::lemma_align_up_bounds(HEADER_SIZE + n, ALIGN as int);
    crate::dataset::lemma_align_up_bounds(n, SIMD_LANES as int);
    let off = spec_vectors_offset(n);
    assert(h.len() == HEADER_SIZE);
    assert(b.len() == spec_file_size(n));
    assert(n % 0x1_0000_0000 == n) by {
        vstd::arithmetic::div_mod::lemma_small_mod(n as nat, 0x1_0000_0000);
    }
    lemma_le_u32_bytes(MAGIC as int);
    lemma_le_u32_bytes(VERSION as int);
    lemma_le_u32_bytes(DIM as int);
    lemma_le_u32_bytes(n);
    assert forall|j: int| 0 <= j < 4 implies b[j] == le_u32_bytes(MAGIC as int)[j]
        && b[4 + j] == le_u32_bytes(VERSION as int)[j] && b[8 + j] == le_u32_bytes(DIM as int)[j]
        && b[12 + j] == le_u32_bytes(n)[j] by {}
    assert(le_u32_at(b, 0) == le_u32_at(le_u32_bytes(MAGIC as int), 0));
    assert(le_u32_at(b, 4) == le_u32_at(le_u32_bytes(VERSION as int), 0));
    assert(le_u32_at(b, 8) == le_u32_at(le_u32_bytes(DIM as int), 0));
    assert(le_u32_at(b, 12) == le_u32_at(le_u32_bytes(n), 0));
    assert(b.subrange(HEADER_SIZE as int, HEADER_SIZE + n) =~= labels);
    let vb = values_le_bytes(soa);
    assert forall|j: int| 0 <= j < vb.len() implies b[off + j] == #[trigger] vb[j] by {}
    let dv = crate::dataset::decode_vectors(b, n);
    assert forall|k: int| 0 <= k < soa.len() implies #[trigger] dv[k] == soa[k] by {
        assert(b[off + 2 * k] == vb[2 * k]);
        assert(b[off + 2 * k + 1] == vb[2 * k + 1]);
        assert((2 * k) / 2 == k && (2 * k) % 2 == 0);
        assert((2 * k + 1) / 2 == k && (2 * k + 1) % 2 == 1);
        lemma_le_i16_bytes(soa[k]);
    }
    assert(dv =~= soa);
}

} // verus!
