//! The connection cost matrix read back from `matrix.mtx`.
use vstd::prelude::*;

use crate::builder::connection_cost_matrix::{
    build_costs_spec, data_region, header_spec, initial_costs, lemma_fill_keeps_header,
    matrix_mtx_spec,
};
use crate::byte_order::{i16_at, i16_lo, i16s_le, lemma_i16_le_roundtrip, read_i16_le};
use crate::dictionary::context_id_map::ContextIdMap;
use crate::error::{error_of, LinderaErrorKind};
use crate::LinderaResult;

verus! {

/// Byte length of the transposed format header:
/// `[i16 -1][i16 forward_size][i16 backward_size]`.
pub const NEW_FORMAT_HEADER_LEN: usize = 6;

/// Byte length of the legacy format header: `[i16 forward_size][i16 backward_size]`.
pub const OLD_FORMAT_HEADER_LEN: usize = 4;

/// The `i16` values stored little-endian from byte `start` on, as many
/// whole values as fit.
pub open spec fn payload(bytes: Seq<u8>, start: int) -> Seq<i16> {
    Seq::new(((bytes.len() - start) / 2) as nat, |i: int| i16_at(bytes, start + 2 * i))
}

/// The legacy layout `[backward_id + forward_id * backward_size]` turned
/// into the transposed layout `[forward_id + backward_id * forward_size]`;
/// values past the `forward_size * backward_size` cells are 0.
pub open spec fn transpose(old: Seq<i16>, forward_size: u32, backward_size: u32) -> Seq<i16> {
    Seq::new(
        old.len(),
        |i: int|
            if i < forward_size * backward_size {
                old[(i / forward_size as int) + (i % forward_size as int) * backward_size]
            } else {
                0i16
            },
    )
}

/// What `matrix.mtx` decodes to: `(forward_size, backward_size, table)` with
/// the table in transposed layout, or `None` when the data is too short or
/// the axes ask for more cells than the payload holds.
pub open spec fn load_spec(bytes: Seq<u8>) -> Option<(u32, u32, Seq<i16>)> {
    if bytes.len() < 4 {
        None
    } else if i16_at(bytes, 0) == -1 {
        if bytes.len() < 6 {
            None
        } else {
            let f = i16_at(bytes, 2) as u32;
            let b = i16_at(bytes, 4) as u32;
            let table = payload(bytes, 6);
            if f * b > table.len() {
                None
            } else {
                Some((f, b, table))
            }
        }
    } else {
        let f = i16_at(bytes, 0) as u32;
        let b = i16_at(bytes, 2) as u32;
        let old = payload(bytes, 4);
        if f * b > old.len() {
            None
        } else {
            Some((f, b, transpose(old, f, b)))
        }
    }
}

/// The connection cost matrix, in transposed layout
/// (`costs[forward_id + backward_id * forward_size]`).
pub struct ConnectionCostMatrix {
    /// The cost values.
    pub table: Vec<i16>,
    /// Number of forward (left-context) ids, i.e. the length of one row.
    pub forward_size: u32,
    /// Number of backward (right-context) ids, i.e. the number of rows.
    pub backward_size: u32,
}

impl View for ConnectionCostMatrix {
    type V = Seq<i16>;

    /// The cost table.
    open spec fn view(&self) -> Seq<i16> {
        self.table@
    }
}

/// Reads the `i16` values stored little-endian from byte `start` on.
fn read_payload(bytes: &[u8], start: usize) -> (r: Vec<i16>)
    requires
        start <= bytes@.len(),
    ensures
        r@ == payload(bytes@, start as int),
{
    let len = bytes.len();
    let n = (len - start) / 2;
    let mut out: Vec<i16> = Vec::with_capacity(n);
    let mut i: usize = 0;
    while i < n
        invariant
            len == bytes@.len(),
            n == (bytes@.len() - start) / 2,
            start <= bytes@.len(),
            i <= n,
            out@ == payload(bytes@, start as int).take(i as int),
        decreases n - i,
    {
        assert(2 * i + 2 <= bytes@.len() - start);
        out.push(read_i16_le(bytes, start + 2 * i));
        i += 1;
        assert(out@ =~= payload(bytes@, start as int).take(i as int));
    }
    assert(out@ =~= payload(bytes@, start as int));
    out
}

proof fn lemma_transpose_index(i: int, f: int, b: int, n: int)
    requires
        0 <= i < f * b,
        f * b <= n,
        f > 0,
        b > 0,
    ensures
        0 <= i / f < b,
        0 <= i % f < f,
        0 <= (i / f) + (i % f) * b < n,
{
    assert(0 <= i % f < f) by (nonlinear_arith)
        requires
            f > 0,
    ;
    assert(0 <= i / f) by (nonlinear_arith)
        requires
            f > 0,
            i >= 0,
    ;
    assert(i / f < b) by (nonlinear_arith)
        requires
            f > 0,
            0 <= i < f * b,
    ;
    assert((i / f) + (i % f) * b <= (b - 1) + (f - 1) * b) by (nonlinear_arith)
        requires
            0 <= i / f <= b - 1,
            0 <= i % f <= f - 1,
            b > 0,
    ;
    assert((b - 1) + (f - 1) * b == f * b - 1) by (nonlinear_arith);
}

/// Turns the legacy layout into the transposed one.
fn transpose_costs(old: &Vec<i16>, forward_size: u32, backward_size: u32) -> (r: Vec<i16>)
    requires
        forward_size * backward_size <= old@.len(),
    ensures
        r@ == transpose(old@, forward_size, backward_size),
{
    let n = old.len();
    let cells = forward_size as usize * backward_size as usize;
    let mut out: Vec<i16> = Vec::with_capacity(n);
    let mut i: usize = 0;
    while i < n
        invariant
            n == old@.len(),
            cells == forward_size * backward_size,
            cells <= n,
            i <= n,
            out@ == transpose(old@, forward_size, backward_size).take(i as int),
        decreases n - i,
    {
        let v: i16 = if i < cells {
            proof {
                assert(forward_size > 0 && backward_size > 0) by (nonlinear_arith)
                    requires
                        0 <= i < forward_size * backward_size,
                ;
                lemma_transpose_index(i as int, forward_size as int, backward_size as int, n as int);
            }
            let fs = forward_size as usize;
            old[i / fs + (i % fs) * backward_size as usize]
        } else {
            0
        };
        out.push(v);
        i += 1;
        assert(out@ =~= transpose(old@, forward_size, backward_size).take(i as int));
    }
    assert(out@ =~= transpose(old@, forward_size, backward_size));
    out
}

impl ConnectionCostMatrix {
    /// Rejects a header whose axis sizes ask for more cells than the payload
    /// holds.
    pub fn validate_axes(forward_size: u32, backward_size: u32, costs_len: usize) -> (r:
        LinderaResult<()>)
        ensures
            r is Ok <==> forward_size * backward_size <= costs_len,
            r matches Err(e) ==> e.kind == LinderaErrorKind::Deserialize,
    {
        match (forward_size as usize).checked_mul(backward_size as usize) {
            None => Err(error_of(LinderaErrorKind::Deserialize, "Connection cost matrix axes overflow")),
            Some(required) => {
                if costs_len < required {
                    Err(
                        error_of(
                            LinderaErrorKind::Deserialize,
                            "Connection cost matrix payload is smaller than its axes",
                        ),
                    )
                } else {
                    Ok(())
                }
            },
        }
    }

    /// Loads a matrix from the bytes of `matrix.mtx`, in the transposed
    /// format (header marker `-1`) or the legacy one, which is transposed on
    /// load.
    pub fn load(conn_data: &[u8]) -> (r: LinderaResult<ConnectionCostMatrix>)
        ensures
            match r {
                Ok(m) => load_spec(conn_data@) == Some((m.forward_size, m.backward_size, m@)),
                Err(e) => load_spec(conn_data@) is None && e.kind == LinderaErrorKind::Deserialize,
            },
    {
        if conn_data.len() < OLD_FORMAT_HEADER_LEN {
            return Err(error_of(LinderaErrorKind::Deserialize, "Connection cost matrix data too short"));
        }
        let first_v = read_i16_le(conn_data, 0);
        if first_v == -1 {
            if conn_data.len() < NEW_FORMAT_HEADER_LEN {
                return Err(
                    error_of(
                        LinderaErrorKind::Deserialize,
                        "Connection cost matrix header too short for new format",
                    ),
                );
            }
            let forward_size = read_i16_le(conn_data, 2) as u32;
            let backward_size = read_i16_le(conn_data, 4) as u32;
            let table = read_payload(conn_data, NEW_FORMAT_HEADER_LEN);
            Self::validate_axes(forward_size, backward_size, table.len())?;
            Ok(ConnectionCostMatrix { table, forward_size, backward_size })
        } else {
            let forward_size = first_v as u32;
            let backward_size = read_i16_le(conn_data, 2) as u32;
            let old = read_payload(conn_data, OLD_FORMAT_HEADER_LEN);
            Self::validate_axes(forward_size, backward_size, old.len())?;
            let table = transpose_costs(&old, forward_size, backward_size);
            Ok(ConnectionCostMatrix { table, forward_size, backward_size })
        }
    }

    /// The whole cost table, indexed by `forward_id + backward_id * forward_size`.
    pub fn costs(&self) -> (r: &[i16])
        ensures
            r@ == self@,
    {
        self.table.as_slice()
    }

    /// The row of costs for a fixed backward id, indexed by forward id.
    pub fn row(&self, backward_id: u32) -> (r: &[i16])
        requires
            backward_id * self.forward_size <= u32::MAX,
            backward_id * self.forward_size + self.forward_size <= self@.len(),
        ensures
            r@ == self@.subrange(
                backward_id * self.forward_size,
                backward_id * self.forward_size + self.forward_size,
            ),
    {
        let n = self.table.len();
        let start = (backward_id * self.forward_size) as usize;
        let end = start + self.forward_size as usize;
        &self.table.as_slice()[start..end]
    }

    /// The cost of connecting `forward_id` to `backward_id`.
    pub fn cost(&self, forward_id: u32, backward_id: u32) -> (r: i32)
        requires
            forward_id + backward_id * self.forward_size <= u32::MAX,
            forward_id + backward_id * self.forward_size < self@.len(),
        ensures
            r == self@[forward_id + backward_id * self.forward_size] as i32,
    {
        let cost_id = (forward_id + backward_id * self.forward_size) as usize;
        self.table[cost_id] as i32
    }
}

} // verus!

verus! {

/// Reading back what the builder wrote: when `matrix.def` builds, and both
/// axes fit the `i16` header fields, loading the bytes of `matrix.mtx` gives
/// the header's axes and every cell that the build set, at the same index,
/// so `cost(f, b)` is the cost that `matrix.def` gave `(f, b)`.
pub proof fn lemma_load_reads_back_build(def: Seq<u8>, remap: Option<&ContextIdMap>)
    requires
        build_costs_spec(def, remap) is Some,
        (header_spec(def)->0).0 <= 32767,
        (header_spec(def)->0).1 <= 32767,
    ensures
        load_spec(matrix_mtx_spec(def, remap)->0) == Some(
            (
                (header_spec(def)->0).0,
                (header_spec(def)->0).1,
                build_costs_spec(def, remap)->0.skip(3),
            ),
        ),
{
    let (f, b) = header_spec(def)->0;
    let init = initial_costs(f, b);
    let t = build_costs_spec(def, remap)->0;
    lemma_fill_keeps_header(data_region(def), 0, f, init, remap);
    assert(t.subrange(0, 3) == init.subrange(0, 3));
    assert(t[0] == t.subrange(0, 3)[0] && t[1] == t.subrange(0, 3)[1] && t[2] == t.subrange(0, 3)[2]);
    assert(init[0] == init.subrange(0, 3)[0] && init[1] == init.subrange(0, 3)[1] && init[2]
        == init.subrange(0, 3)[2]);
    assert(t[0] == -1 && t[1] == f as i16 && t[2] == b as i16);
    let bytes = i16s_le(t);
    assert(bytes.len() == 2 * t.len());
    lemma_i16_le_roundtrip(t[0]);
    lemma_i16_le_roundtrip(t[1]);
    lemma_i16_le_roundtrip(t[2]);
    assert(i16_at(bytes, 0) == t[0]);
    assert(i16_at(bytes, 2) == t[1]);
    assert(i16_at(bytes, 4) == t[2]);
    assert(((f as i16) as u32) == f) by (bit_vector)
        requires
            f <= 32767,
    ;
    assert(((b as i16) as u32) == b) by (bit_vector)
        requires
            b <= 32767,
    ;
    let p = payload(bytes, 6);
    assert(p.len() == t.len() - 3);
    assert forall|i: int| 0 <= i < p.len() implies p[i] == t.skip(3)[i] by {
        lemma_i16_le_roundtrip(t[3 + i]);
        assert(bytes[6 + 2 * i] == i16_lo(t[(6 + 2 * i) / 2]));
        assert((6 + 2 * i) / 2 == 3 + i);
        assert((7 + 2 * i) / 2 == 3 + i);
    }
    assert(p =~= t.skip(3));
}

} // verus!
