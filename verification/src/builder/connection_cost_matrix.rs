//! Parsing `matrix.def` into the transposed connection-cost table written as
//! `matrix.mtx`.
use vstd::prelude::*;

use crate::dictionary::context_id_map::ContextIdMap;
use crate::error::{error_of, LinderaErrorKind};
use crate::LinderaResult;
use rayon::iter::IntoParallelRefIterator;
use rayon::iter::ParallelIterator;
use crate::text::str_eq;
use encoding_rs::Encoding;

verus! {

/// Whether `b` is a blank that separates integers on a line (space, tab or
/// carriage return).
pub open spec fn is_blank(b: u8) -> bool {
    b == 32 || b == 9 || b == 13
}

/// Whether `b` is an ASCII decimal digit.
pub open spec fn is_digit_byte(b: u8) -> bool {
    48 <= b && b <= 57
}

/// The first position at or after `pos` that is not a blank (or the end).
pub open spec fn skip_blanks(bytes: Seq<u8>, pos: int) -> int
    decreases bytes.len() - pos,
{
    if 0 <= pos < bytes.len() && is_blank(bytes[pos]) {
        skip_blanks(bytes, pos + 1)
    } else {
        pos
    }
}

/// The first position at or after `pos` that is not a digit (or the end).
pub open spec fn skip_digits(bytes: Seq<u8>, pos: int) -> int
    decreases bytes.len() - pos,
{
    if 0 <= pos < bytes.len() && is_digit_byte(bytes[pos]) {
        skip_digits(bytes, pos + 1)
    } else {
        pos
    }
}

/// The value of the digits `bytes[from..to]`, accumulated as
/// `value * 10 + digit` in wrapping `i32` arithmetic.
pub open spec fn wrapped_digits(bytes: Seq<u8>, from: int, to: int) -> i32
    decreases to - from,
{
    if to <= from {
        0
    } else {
        wrapped_digits(bytes, from, to - 1).wrapping_mul(10).wrapping_add(
            (bytes[to - 1] - 48) as i32,
        )
    }
}

/// The next blank-separated integer from `pos`, with the position after it.
///
/// Blanks are skipped, then an optional `-` and a run of digits are read.
/// No integer (the end is reached, or a `-` has no digits) yields `None`.
pub open spec fn next_int_spec(bytes: Seq<u8>, pos: int) -> (Option<i32>, int) {
    let p1 = skip_blanks(bytes, pos);
    if p1 >= bytes.len() {
        (None, p1)
    } else {
        let negative = bytes[p1] == 45;
        let p2 = if negative { p1 + 1 } else { p1 };
        let p3 = skip_digits(bytes, p2);
        if p3 == p2 {
            (None, p3)
        } else {
            let v = wrapped_digits(bytes, p2, p3);
            (Some(if negative { 0i32.wrapping_sub(v) } else { v }), p3)
        }
    }
}

/// Parses the next whitespace-delimited signed integer from `bytes`,
/// advancing `pos` past it.
pub fn next_int(bytes: &[u8], pos: &mut usize) -> (r: Option<i32>)
    ensures
        (r, *final(pos) as int) == next_int_spec(bytes@, *old(pos) as int),
{
    let ghost start = *pos;
    while *pos < bytes.len() && (bytes[*pos] == 32 || bytes[*pos] == 9 || bytes[*pos] == 13)
        invariant
            start <= *pos,
            skip_blanks(bytes@, start as int) == skip_blanks(bytes@, *pos as int),
        decreases bytes@.len() - *pos,
    {
        *pos += 1;
    }
    if *pos >= bytes.len() {
        return None;
    }
    let negative = bytes[*pos] == 45;
    if negative {
        *pos += 1;
    }
    let digits_start = *pos;
    let mut value: i32 = 0;
    while *pos < bytes.len() && 48 <= bytes[*pos] && bytes[*pos] <= 57
        invariant
            digits_start <= *pos <= bytes@.len(),
            skip_digits(bytes@, digits_start as int) == skip_digits(bytes@, *pos as int),
            value == wrapped_digits(bytes@, digits_start as int, *pos as int),
        decreases bytes@.len() - *pos,
    {
        value = value.wrapping_mul(10).wrapping_add((bytes[*pos] - 48) as i32);
        *pos += 1;
    }
    if *pos == digits_start {
        return None;
    }
    Some(if negative { 0i32.wrapping_sub(value) } else { value })
}

} // verus!

verus! {

/// The cell that a `forward_id backward_id` pair addresses, after the
/// optional remap: `None` when an id lies outside the remap.
pub open spec fn remapped_cell(fwd: int, bwd: int, remap: Option<&ContextIdMap>) -> Option<(int, int)> {
    match remap {
        Some(m) => if fwd >= m.right@.len() || bwd >= m.left@.len() {
            None
        } else {
            Some((m.right@[fwd] as int, m.left@[bwd] as int))
        },
        None => Some((fwd, bwd)),
    }
}

/// What a `matrix.def` data line means: `Some(None)` for an empty or blank
/// line, `Some(Some((index, cost)))` for an entry writing `cost` at
/// `index = 3 + forward + backward * forward_size` of the cost table, and
/// `None` for a malformed line (one that does not start with three
/// integers, an id outside the remap, or an index outside the table).
pub open spec fn parse_line_spec(
    line: Seq<u8>,
    forward_size: u32,
    costs_len: int,
    remap: Option<&ContextIdMap>,
) -> Option<Option<(int, i16)>> {
    let (f, p1) = next_int_spec(line, 0);
    let (b, p2) = next_int_spec(line, p1);
    let (c, p3) = next_int_spec(line, p2);
    if f is None && skip_blanks(line, 0) >= line.len() {
        Some(None)
    } else if f is None || b is None || c is None {
        None
    } else {
        let fwd = f->0 as u32 as int;
        let bwd = b->0 as u32 as int;
        match remapped_cell(fwd, bwd, remap) {
            None => None,
            Some((x, y)) => {
                let index = 3 + x + y * forward_size;
                if index >= costs_len {
                    None
                } else {
                    Some(Some((index, (c->0 as u16) as i16)))
                }
            },
        }
    }
}

/// Parses one `matrix.def` data line (without its newline) into the cost
/// table index and cost it sets.
pub fn parse_data_line(
    line: &[u8],
    forward_size: u32,
    costs_len: usize,
    remap: Option<&ContextIdMap>,
) -> (r: LinderaResult<Option<(usize, i16)>>)
    ensures
        match r {
            Ok(None) => parse_line_spec(line@, forward_size, costs_len as int, remap) == Some(
                None::<(int, i16)>,
            ),
            Ok(Some((i, c))) => parse_line_spec(line@, forward_size, costs_len as int, remap)
                == Some(Some((i as int, c))),
            Err(e) => parse_line_spec(line@, forward_size, costs_len as int, remap) is None
                && e.kind == LinderaErrorKind::Content,
        },
{
    let mut pos: usize = 0;
    let forward_id = match next_int(line, &mut pos) {
        Some(v) => v,
        None => {
            let mut k: usize = 0;
            while k < line.len() && (line[k] == 32 || line[k] == 9 || line[k] == 13)
                invariant
                    k <= line@.len(),
                    skip_blanks(line@, 0) == skip_blanks(line@, k as int),
                decreases line@.len() - k,
            {
                k += 1;
            }
            if k >= line.len() {
                return Ok(None);
            }
            return Err(error_of(LinderaErrorKind::Content, "matrix.def line does not start with an integer"));
        },
    };
    let backward_id = match next_int(line, &mut pos) {
        Some(v) => v,
        None => {
            return Err(error_of(LinderaErrorKind::Content, "matrix.def line is missing backward id"));
        },
    };
    let cost = match next_int(line, &mut pos) {
        Some(v) => v,
        None => {
            return Err(error_of(LinderaErrorKind::Content, "matrix.def line is missing cost"));
        },
    };
    let forward_id = forward_id as u32 as usize;
    let backward_id = backward_id as u32 as usize;
    let (fwd, bwd): (usize, usize) = match remap {
        Some(m) => {
            if forward_id >= m.right.len() || backward_id >= m.left.len() {
                return Err(error_of(LinderaErrorKind::Content, "matrix.def entry is out of range"));
            }
            (m.right[forward_id] as usize, m.left[backward_id] as usize)
        },
        None => (forward_id, backward_id),
    };
    let index = match bwd.checked_mul(forward_size as usize) {
        Some(row) => match row.checked_add(fwd) {
            Some(x) => x.checked_add(3),
            None => None,
        },
        None => None,
    };
    match index {
        Some(index) => {
            if index >= costs_len {
                return Err(error_of(LinderaErrorKind::Content, "matrix.def entry is out of range"));
            }
            Ok(Some((index, (cost as u16) as i16)))
        },
        None => Err(error_of(LinderaErrorKind::Content, "matrix.def entry is out of range")),
    }
}

} // verus!

verus! {

/// The position of the first newline at or after `pos`, or the end.
pub open spec fn line_end(data: Seq<u8>, pos: int) -> int
    decreases data.len() - pos,
{
    if pos < 0 || pos >= data.len() {
        data.len() as int
    } else if data[pos] == 10 {
        pos
    } else {
        line_end(data, pos + 1)
    }
}

/// `line_end` lies between `pos` and the end.
pub proof fn lemma_line_end_bounds(data: Seq<u8>, pos: int)
    requires
        0 <= pos <= data.len(),
    ensures
        pos <= line_end(data, pos) <= data.len(),
    decreases data.len() - pos,
{
    if pos < data.len() && data[pos] != 10 {
        lemma_line_end_bounds(data, pos + 1);
    }
}

/// The cost table after applying every line of `data` from `pos` on, in
/// order, to `costs`; `None` when a line is malformed.
pub open spec fn fill_spec(
    data: Seq<u8>,
    pos: int,
    forward_size: u32,
    costs: Seq<i16>,
    remap: Option<&ContextIdMap>,
) -> Option<Seq<i16>>
    decreases data.len() + 1 - pos,
    via fill_spec_decreases
{
    if pos < 0 || pos >= data.len() {
        Some(costs)
    } else {
        let e = line_end(data, pos);
        match parse_line_spec(data.subrange(pos, e), forward_size, costs.len() as int, remap) {
            None => None,
            Some(None) => fill_spec(data, e + 1, forward_size, costs, remap),
            Some(Some((i, c))) => fill_spec(data, e + 1, forward_size, costs.update(i, c), remap),
        }
    }
}

#[via_fn]
proof fn fill_spec_decreases(
    data: Seq<u8>,
    pos: int,
    forward_size: u32,
    costs: Seq<i16>,
    remap: Option<&ContextIdMap>,
) {
    if 0 <= pos < data.len() {
        lemma_line_end_bounds(data, pos);
    }
}

/// Finds the end of the line that starts at `pos`.
fn find_line_end(data: &[u8], pos: usize) -> (r: usize)
    requires
        pos <= data@.len(),
    ensures
        r as int == line_end(data@, pos as int),
{
    let mut i = pos;
    while i < data.len() && data[i] != 10
        invariant
            pos <= i <= data@.len(),
            line_end(data@, pos as int) == line_end(data@, i as int),
        decreases data@.len() - i,
    {
        i += 1;
    }
    i
}

/// Parses the data region of `matrix.def` line by line and writes each
/// entry's cost into `costs`, in file order, so that a later duplicate of a
/// cell wins.
pub fn fill_costs_sequential(
    data: &[u8],
    forward_size: u32,
    costs: &mut Vec<i16>,
    remap: Option<&ContextIdMap>,
) -> (r: LinderaResult<()>)
    ensures
        final(costs)@.len() == old(costs)@.len(),
        r is Ok <==> fill_spec(data@, 0, forward_size, old(costs)@, remap) is Some,
        r is Ok ==> final(costs)@ == fill_spec(data@, 0, forward_size, old(costs)@, remap)->0,
        r matches Err(e) ==> e.kind == LinderaErrorKind::Content,
{
    let costs_len = costs.len();
    let mut pos: usize = 0;
    while pos < data.len()
        invariant
            costs@.len() == costs_len == old(costs)@.len(),
            fill_spec(data@, pos as int, forward_size, costs@, remap) == fill_spec(
                data@,
                0,
                forward_size,
                old(costs)@,
                remap,
            ),
        decreases data@.len() - pos,
    {
        let line_end = find_line_end(data, pos);
        proof {
            lemma_line_end_bounds(data@, pos as int);
        }
        let line = &data[pos..line_end];
        assert(line@ == data@.subrange(pos as int, line_end as int));
        let parsed = parse_data_line(line, forward_size, costs_len, remap);
        let ghost before = costs@;
        match parsed {
            Ok(Some((index, cost))) => {
                costs.set(index, cost);
            },
            Ok(None) => {},
            Err(e) => {
                return Err(e);
            },
        }
        if line_end < data.len() {
            pos = line_end + 1;
        } else {
            pos = data.len();
            assert(fill_spec(data@, pos as int, forward_size, costs@, remap) == fill_spec(
                data@,
                line_end + 1,
                forward_size,
                costs@,
                remap,
            ));
        }
    }
    Ok(())
}

} // verus!

verus! {

/// Whether `buffer` starts with the UTF-8 byte order mark.
pub open spec fn has_utf8_bom_spec(buffer: Seq<u8>) -> bool {
    buffer.len() >= 3 && buffer[0] == 0xEF && buffer[1] == 0xBB && buffer[2] == 0xBF
}

/// `buffer` without a leading UTF-8 byte order mark.
pub open spec fn strip_bom_spec(buffer: Seq<u8>) -> Seq<u8> {
    if has_utf8_bom_spec(buffer) {
        buffer.skip(3)
    } else {
        buffer
    }
}

/// Returns `buffer` without a leading UTF-8 byte order mark.
pub fn strip_utf8_bom(buffer: &[u8]) -> (r: &[u8])
    ensures
        r@ == if has_utf8_bom_spec(buffer@) { buffer@.skip(3) } else { buffer@ },
{
    if buffer.len() >= 3 && buffer[0] == 0xEF && buffer[1] == 0xBB && buffer[2] == 0xBF {
        let r = &buffer[3..buffer.len()];
        r
    } else {
        buffer
    }
}

/// Whether `buffer` starts with a UTF-16 (little- or big-endian) byte order
/// mark.
pub fn has_utf16_bom(buffer: &[u8]) -> (r: bool)
    ensures
        r == (buffer@.len() >= 2 && ((buffer@[0] == 0xFF && buffer@[1] == 0xFE) || (buffer@[0]
            == 0xFE && buffer@[1] == 0xFF))),
{
    buffer.len() >= 2 && ((buffer[0] == 0xFF && buffer[1] == 0xFE) || (buffer[0] == 0xFE
        && buffer[1] == 0xFF))
}

/// The `(forward_size, backward_size)` header of `matrix.def`: the first two
/// integers of its first line.
pub open spec fn header_spec(bytes: Seq<u8>) -> Option<(u32, u32)> {
    let header = bytes.subrange(0, line_end(bytes, 0));
    let (f, p1) = next_int_spec(header, 0);
    let (b, p2) = next_int_spec(header, p1);
    if f is None || b is None {
        None
    } else {
        Some((f->0 as u32, b->0 as u32))
    }
}

/// The data region of `matrix.def`: everything after the first line.
pub open spec fn data_region(bytes: Seq<u8>) -> Seq<u8> {
    let e = line_end(bytes, 0);
    if e < bytes.len() { bytes.skip(e + 1) } else { Seq::empty() }
}

/// The cost table before any entry is applied: the layout marker `-1`, the
/// two axis sizes, then `forward_size * backward_size` cells holding
/// `i16::MAX`.
pub open spec fn initial_costs(forward_size: u32, backward_size: u32) -> Seq<i16> {
    Seq::new(
        (3 + forward_size * backward_size) as nat,
        |i: int|
            if i == 0 {
                -1i16
            } else if i == 1 {
                forward_size as i16
            } else if i == 2 {
                backward_size as i16
            } else {
                i16::MAX
            },
    )
}

/// Whether the remap, if any, covers exactly the two axes.
pub open spec fn remap_fits(remap: Option<&ContextIdMap>, forward_size: u32, backward_size: u32) -> bool {
    match remap {
        Some(m) => m.right@.len() == forward_size as int && m.left@.len() == backward_size as int,
        None => true,
    }
}

/// The transposed cost table that `matrix.def` describes, or `None` when the
/// header is missing, the remap does not fit the axes, the table would not
/// fit in memory, or a data line is malformed.
pub open spec fn build_costs_spec(bytes: Seq<u8>, remap: Option<&ContextIdMap>) -> Option<Seq<i16>> {
    match header_spec(bytes) {
        None => None,
        Some((f, b)) => if !remap_fits(remap, f, b) || 3 + f * b > usize::MAX {
            None
        } else {
            fill_spec(data_region(bytes), 0, f, initial_costs(f, b), remap)
        },
    }
}

/// Parses `matrix.def` (with any UTF-8 byte order mark already removed) into
/// the transposed cost table
/// `[-1, forward_size, backward_size, costs[forward_id + backward_id * forward_size]...]`,
/// with cells that no line sets holding `i16::MAX`.
pub fn build_costs(bytes: &[u8], remap: Option<&ContextIdMap>) -> (r: LinderaResult<Vec<i16>>)
    ensures
        match r {
            Ok(costs) => build_costs_spec(bytes@, remap) == Some(costs@),
            Err(e) => build_costs_spec(bytes@, remap) is None && e.kind == LinderaErrorKind::Content,
        },
{
    let header_end = find_line_end(bytes, 0);
    proof {
        lemma_line_end_bounds(bytes@, 0);
    }
    let header = &bytes[0..header_end];
    assert(header@ == bytes@.subrange(0, line_end(bytes@, 0)));
    let mut header_pos: usize = 0;
    let forward_size = match next_int(header, &mut header_pos) {
        Some(v) => v as u32,
        None => {
            return Err(error_of(LinderaErrorKind::Content, "matrix.def is missing the size header"));
        },
    };
    let backward_size = match next_int(header, &mut header_pos) {
        Some(v) => v as u32,
        None => {
            return Err(
                error_of(LinderaErrorKind::Content, "matrix.def header is missing backward size"),
            );
        },
    };
    match remap {
        Some(m) => {
            if m.right.len() != forward_size as usize || m.left.len() != backward_size as usize {
                return Err(error_of(LinderaErrorKind::Content, "context-id remap size mismatch"));
            }
        },
        None => {},
    }
    let len = match (forward_size as usize).checked_mul(backward_size as usize) {
        Some(cells) => cells.checked_add(3),
        None => None,
    };
    let len = match len {
        Some(len) => len,
        None => {
            return Err(error_of(LinderaErrorKind::Content, "matrix.def axes are too large"));
        },
    };
    let mut costs: Vec<i16> = Vec::with_capacity(len);
    let mut i: usize = 0;
    while i < len
        invariant
            i <= len,
            len == 3 + forward_size * backward_size,
            costs@ == initial_costs(forward_size, backward_size).take(i as int),
        decreases len - i,
    {
        let v: i16 = if i == 0 {
            -1
        } else if i == 1 {
            forward_size as i16
        } else if i == 2 {
            backward_size as i16
        } else {
            i16::MAX
        };
        costs.push(v);
        i += 1;
        assert(costs@ == initial_costs(forward_size, backward_size).take(i as int));
    }
    assert(costs@ == initial_costs(forward_size, backward_size));
    let data: &[u8] = if header_end < bytes.len() {
        &bytes[header_end + 1..bytes.len()]
    } else {
        &[]
    };
    assert(data@ == data_region(bytes@));
    match fill_costs(data, forward_size, &mut costs, remap) {
        Ok(()) => Ok(costs),
        Err(e) => Err(e),
    }
}

/// Encodes the cost table as `matrix.mtx`: each value as a little-endian
/// `i16`, in order.
pub fn costs_to_bytes(costs: &[i16]) -> (r: Vec<u8>)
    ensures
        r@ == crate::byte_order::i16s_le(costs@),
{
    let mut out: Vec<u8> = Vec::new();
    let mut i: usize = 0;
    while i < costs.len()
        invariant
            i <= costs@.len(),
            out@ == crate::byte_order::i16s_le(costs@.take(i as int)),
        decreases costs@.len() - i,
    {
        crate::byte_order::push_i16_le(&mut out, costs[i]);
        i += 1;
        assert(out@ =~= crate::byte_order::i16s_le(costs@.take(i as int)));
    }
    assert(costs@.take(costs@.len() as int) == costs@);
    out
}

} // verus!

verus! {

/// The `(index, cost)` entries that the lines of `data` from `pos` on set,
/// in file order; `None` when a line is malformed.
pub open spec fn entries_spec(
    data: Seq<u8>,
    pos: int,
    forward_size: u32,
    costs_len: int,
    remap: Option<&ContextIdMap>,
) -> Option<Seq<(int, i16)>>
    decreases data.len() + 1 - pos,
    via entries_spec_decreases
{
    if pos < 0 || pos >= data.len() {
        Some(Seq::empty())
    } else {
        let e = line_end(data, pos);
        match parse_line_spec(data.subrange(pos, e), forward_size, costs_len, remap) {
            None => None,
            Some(line) => match entries_spec(data, e + 1, forward_size, costs_len, remap) {
                None => None,
                Some(rest) => Some(
                    match line {
                        None => rest,
                        Some(x) => seq![x] + rest,
                    },
                ),
            },
        }
    }
}

#[via_fn]
proof fn entries_spec_decreases(
    data: Seq<u8>,
    pos: int,
    forward_size: u32,
    costs_len: int,
    remap: Option<&ContextIdMap>,
) {
    if 0 <= pos < data.len() {
        lemma_line_end_bounds(data, pos);
    }
}

/// Writes each entry's cost at its index, in order.
pub open spec fn apply_entries(costs: Seq<i16>, es: Seq<(int, i16)>) -> Seq<i16>
    decreases es.len(),
{
    if es.len() == 0 {
        costs
    } else {
        apply_entries(costs.update(es[0].0, es[0].1), es.drop_first())
    }
}

/// Both parts present: their concatenation; otherwise `None`.
pub open spec fn opt_concat(x: Option<Seq<(int, i16)>>, y: Option<Seq<(int, i16)>>) -> Option<
    Seq<(int, i16)>,
> {
    match (x, y) {
        (Some(a), Some(b)) => Some(a + b),
        _ => None,
    }
}

/// The entries of a parsed chunk, with their indices as integers.
pub open spec fn entries_view(v: Seq<(usize, i16)>) -> Seq<(int, i16)> {
    Seq::new(v.len(), |j: int| (v[j].0 as int, v[j].1))
}

/// What parsing `chunk` yields: its entries in order, or a content error when
/// a line of it is malformed.
pub open spec fn chunk_outcome(
    chunk: Seq<u8>,
    forward_size: u32,
    costs_len: int,
    remap: Option<&ContextIdMap>,
    r: LinderaResult<Vec<(usize, i16)>>,
) -> bool {
    match r {
        Ok(v) => entries_spec(chunk, 0, forward_size, costs_len, remap) == Some(entries_view(v@)),
        Err(e) => entries_spec(chunk, 0, forward_size, costs_len, remap) is None && e.kind
            == LinderaErrorKind::Content,
    }
}

proof fn lemma_apply_concat(costs: Seq<i16>, a: Seq<(int, i16)>, b: Seq<(int, i16)>)
    ensures
        apply_entries(costs, a + b) == apply_entries(apply_entries(costs, a), b),
    decreases a.len(),
{
    if a.len() == 0 {
        assert(a + b =~= b);
    } else {
        assert((a + b).drop_first() =~= a.drop_first() + b);
        lemma_apply_concat(costs.update(a[0].0, a[0].1), a.drop_first(), b);
    }
}

proof fn lemma_apply_push(costs: Seq<i16>, a: Seq<(int, i16)>, x: (int, i16))
    ensures
        apply_entries(costs, a.push(x)) == apply_entries(costs, a).update(x.0, x.1),
{
    lemma_apply_concat(costs, a, seq![x]);
    assert(a.push(x) =~= a + seq![x]);
    let c = apply_entries(costs, a);
    assert(apply_entries(c, seq![x]) == apply_entries(c.update(x.0, x.1), seq![x].drop_first()));
    assert(seq![x].drop_first() =~= Seq::<(int, i16)>::empty());
}

proof fn lemma_parse_line_index(
    line: Seq<u8>,
    forward_size: u32,
    costs_len: int,
    remap: Option<&ContextIdMap>,
)
    ensures
        parse_line_spec(line, forward_size, costs_len, remap) matches Some(Some((i, c))) ==> 3 <= i
            < costs_len,
{
    let (f, p1) = next_int_spec(line, 0);
    let (b, p2) = next_int_spec(line, p1);
    if f is Some && b is Some {
        let fwd = f->0 as u32 as int;
        let bwd = b->0 as u32 as int;
        match remapped_cell(fwd, bwd, remap) {
            Some((x, y)) => {
                assert(x >= 0 && y >= 0);
                assert(y * forward_size >= 0) by (nonlinear_arith)
                    requires
                        y >= 0,
                ;
            },
            None => {},
        }
    }
}

/// Filling never changes the table's length nor its three header values.
pub proof fn lemma_fill_keeps_header(
    data: Seq<u8>,
    pos: int,
    forward_size: u32,
    costs: Seq<i16>,
    remap: Option<&ContextIdMap>,
)
    requires
        costs.len() >= 3,
    ensures
        fill_spec(data, pos, forward_size, costs, remap) matches Some(c) ==> c.len() == costs.len()
            && c.subrange(0, 3) == costs.subrange(0, 3),
    decreases data.len() + 1 - pos,
{
    if 0 <= pos < data.len() {
        let e = line_end(data, pos);
        lemma_line_end_bounds(data, pos);
        let line = data.subrange(pos, e);
        lemma_parse_line_index(line, forward_size, costs.len() as int, remap);
        match parse_line_spec(line, forward_size, costs.len() as int, remap) {
            None => {},
            Some(None) => {
                lemma_fill_keeps_header(data, e + 1, forward_size, costs, remap);
            },
            Some(Some((i, c))) => {
                let c2 = costs.update(i, c);
                assert(c2.subrange(0, 3) =~= costs.subrange(0, 3));
                lemma_fill_keeps_header(data, e + 1, forward_size, c2, remap);
            },
        }
    }
}

/// Applying the lines of `data` one after the other is applying the entries
/// they describe.
proof fn lemma_fill_is_apply(
    data: Seq<u8>,
    pos: int,
    forward_size: u32,
    costs: Seq<i16>,
    remap: Option<&ContextIdMap>,
)
    ensures
        fill_spec(data, pos, forward_size, costs, remap) == match entries_spec(
            data,
            pos,
            forward_size,
            costs.len() as int,
            remap,
        ) {
            None => None,
            Some(es) => Some(apply_entries(costs, es)),
        },
    decreases data.len() + 1 - pos,
{
    if 0 <= pos < data.len() {
        let e = line_end(data, pos);
        lemma_line_end_bounds(data, pos);
        let line = data.subrange(pos, e);
        lemma_parse_line_index(line, forward_size, costs.len() as int, remap);
        match parse_line_spec(line, forward_size, costs.len() as int, remap) {
            None => {},
            Some(None) => {
                lemma_fill_is_apply(data, e + 1, forward_size, costs, remap);
            },
            Some(Some((i, c))) => {
                let c2 = costs.update(i, c);
                assert(c2.len() == costs.len());
                lemma_fill_is_apply(data, e + 1, forward_size, c2, remap);
                match entries_spec(data, e + 1, forward_size, costs.len() as int, remap) {
                    None => {},
                    Some(rest) => {
                        let all = seq![(i, c)] + rest;
                        assert(all.drop_first() =~= rest);
                        assert(all[0] == (i, c));
                    },
                }
            },
        }
    }
}

proof fn lemma_line_end_at_newline(data: Seq<u8>, p: int, q: int)
    requires
        0 <= p <= q < data.len(),
        data[q] == 10,
    ensures
        line_end(data, p) <= q,
    decreases q - p,
{
    if data[p] != 10 {
        lemma_line_end_at_newline(data, p + 1, q);
    }
}

proof fn lemma_line_end_sub(data: Seq<u8>, a: int, b: int, p: int)
    requires
        0 <= a <= p <= b <= data.len(),
    ensures
        line_end(data.subrange(a, b), p - a) == if line_end(data, p) < b {
            line_end(data, p) - a
        } else {
            b - a
        },
    decreases b - p,
{
    lemma_line_end_bounds(data, p);
    if p < b {
        assert(data.subrange(a, b)[p - a] == data[p]);
        if data[p] != 10 {
            lemma_line_end_sub(data, a, b, p + 1);
        }
    }
}

/// Whether `b` ends a whole line of `data`: the end, or just after a newline.
pub open spec fn is_line_boundary(data: Seq<u8>, b: int) -> bool {
    b == data.len() || (0 < b <= data.len() && data[b - 1] == 10)
}

/// Cutting `data` at a line boundary `b` splits its entries in two.
proof fn lemma_entries_split(
    data: Seq<u8>,
    a: int,
    b: int,
    p: int,
    forward_size: u32,
    costs_len: int,
    remap: Option<&ContextIdMap>,
)
    requires
        0 <= a <= p <= b <= data.len(),
        is_line_boundary(data, b),
    ensures
        entries_spec(data, p, forward_size, costs_len, remap) == opt_concat(
            entries_spec(data.subrange(a, b), p - a, forward_size, costs_len, remap),
            entries_spec(data, b, forward_size, costs_len, remap),
        ),
    decreases b - p,
{
    let sub = data.subrange(a, b);
    if p == b {
        match entries_spec(data, b, forward_size, costs_len, remap) {
            None => {},
            Some(t) => {
                assert(Seq::<(int, i16)>::empty() + t =~= t);
            },
        }
    } else {
        let e = line_end(data, p);
        lemma_line_end_bounds(data, p);
        if b < data.len() {
            lemma_line_end_at_newline(data, p, b - 1);
        }
        lemma_line_end_sub(data, a, b, p);
        assert(line_end(sub, p - a) == e - a);
        assert(sub.subrange(p - a, e - a) =~= data.subrange(p, e));
        if e + 1 <= b {
            lemma_entries_split(data, a, b, e + 1, forward_size, costs_len, remap);
        }
        lemma_entries_split_step(data, a, b, p, forward_size, costs_len, remap);
    }
}

proof fn lemma_entries_split_step(
    data: Seq<u8>,
    a: int,
    b: int,
    p: int,
    forward_size: u32,
    costs_len: int,
    remap: Option<&ContextIdMap>,
)
    requires
        0 <= a <= p < b <= data.len(),
        is_line_boundary(data, b),
        p <= line_end(data, p) <= data.len(),
        line_end(data, p) + 1 <= b || (line_end(data, p) == data.len() && b == data.len()),
        line_end(data.subrange(a, b), p - a) == line_end(data, p) - a,
        data.subrange(a, b).subrange(p - a, line_end(data, p) - a) == data.subrange(
            p,
            line_end(data, p),
        ),
        line_end(data, p) + 1 <= b ==> entries_spec(
            data,
            line_end(data, p) + 1,
            forward_size,
            costs_len,
            remap,
        ) == opt_concat(
            entries_spec(
                data.subrange(a, b),
                line_end(data, p) + 1 - a,
                forward_size,
                costs_len,
                remap,
            ),
            entries_spec(data, b, forward_size, costs_len, remap),
        ),
    ensures
        entries_spec(data, p, forward_size, costs_len, remap) == opt_concat(
            entries_spec(data.subrange(a, b), p - a, forward_size, costs_len, remap),
            entries_spec(data, b, forward_size, costs_len, remap),
        ),
{
    let sub = data.subrange(a, b);
    let e = line_end(data, p);
    let line = parse_line_spec(data.subrange(p, e), forward_size, costs_len, remap);
    let rest_d = entries_spec(data, e + 1, forward_size, costs_len, remap);
    let rest_s = entries_spec(sub, e - a + 1, forward_size, costs_len, remap);
    let tail = entries_spec(data, b, forward_size, costs_len, remap);
    if e + 1 > b {
        assert(e == data.len());
        assert(b == data.len());
        assert(rest_d == Some(Seq::<(int, i16)>::empty()));
        assert(rest_s == Some(Seq::<(int, i16)>::empty()));
        assert(tail == Some(Seq::<(int, i16)>::empty()));
    }
    assert(rest_d == opt_concat(rest_s, tail));
    match (rest_s, tail) {
        (Some(s), Some(t)) => {
            match line {
                Some(Some(x)) => {
                    assert(seq![x] + (s + t) =~= (seq![x] + s) + t);
                },
                Some(None) => {},
                None => {},
            }
        },
        _ => {},
    }
}

/// The entries of chunks `k..` of `data`, cut at `bounds`, concatenated.
pub open spec fn chunks_entries(
    data: Seq<u8>,
    bounds: Seq<usize>,
    k: int,
    forward_size: u32,
    costs_len: int,
    remap: Option<&ContextIdMap>,
) -> Option<Seq<(int, i16)>>
    decreases bounds.len() - k,
{
    if k < 0 || k + 1 >= bounds.len() {
        Some(Seq::empty())
    } else {
        opt_concat(
            entries_spec(
                data.subrange(bounds[k] as int, bounds[k + 1] as int),
                0,
                forward_size,
                costs_len,
                remap,
            ),
            chunks_entries(data, bounds, k + 1, forward_size, costs_len, remap),
        )
    }
}

/// Whether `bounds` cuts `data` into whole-line chunks: it starts at 0,
/// ends at the end, never goes back, and each later cut is a line boundary.
pub open spec fn line_aligned_bounds(data: Seq<u8>, bounds: Seq<usize>) -> bool {
    &&& bounds.len() >= 1
    &&& bounds[0] == 0
    &&& bounds.last() == data.len()
    &&& forall|k: int| 0 <= k < bounds.len() - 1 ==> bounds[k] <= #[trigger] bounds[k + 1]
    &&& forall|k: int| 1 <= k < bounds.len() ==> is_line_boundary(data, #[trigger] bounds[k] as int)
}

proof fn lemma_chunks_entries(
    data: Seq<u8>,
    bounds: Seq<usize>,
    k: int,
    forward_size: u32,
    costs_len: int,
    remap: Option<&ContextIdMap>,
)
    requires
        line_aligned_bounds(data, bounds),
        0 <= k < bounds.len(),
    ensures
        entries_spec(data, bounds[k] as int, forward_size, costs_len, remap) == chunks_entries(
            data,
            bounds,
            k,
            forward_size,
            costs_len,
            remap,
        ),
    decreases bounds.len() - k,
{
    if k + 1 < bounds.len() {
        lemma_chunks_entries(data, bounds, k + 1, forward_size, costs_len, remap);
        assert(bounds[k] <= bounds[k + 1]);
        assert(is_line_boundary(data, bounds[k + 1] as int));
        assert(bounds[k + 1] <= data.len()) by {
            lemma_bounds_in_range(data, bounds, k + 1);
        }
        lemma_entries_split(
            data,
            bounds[k] as int,
            bounds[k + 1] as int,
            bounds[k] as int,
            forward_size,
            costs_len,
            remap,
        );
    } else {
        assert(bounds[k] == data.len());
    }
}

proof fn lemma_bounds_in_range(data: Seq<u8>, bounds: Seq<usize>, k: int)
    requires
        line_aligned_bounds(data, bounds),
        0 <= k < bounds.len(),
    ensures
        bounds[k] <= data.len(),
    decreases bounds.len() - k,
{
    if k + 1 < bounds.len() {
        lemma_bounds_in_range(data, bounds, k + 1);
        assert(bounds[k] <= bounds[k + 1]);
    }
}

} // verus!

verus! {

proof fn lemma_entries_in_range(
    data: Seq<u8>,
    pos: int,
    forward_size: u32,
    costs_len: int,
    remap: Option<&ContextIdMap>,
)
    ensures
        entries_spec(data, pos, forward_size, costs_len, remap) matches Some(es) ==> forall|j: int|
            0 <= j < es.len() ==> 0 <= #[trigger] es[j].0 < costs_len,
    decreases data.len() + 1 - pos,
{
    if 0 <= pos < data.len() {
        let e = line_end(data, pos);
        lemma_line_end_bounds(data, pos);
        lemma_entries_in_range(data, e + 1, forward_size, costs_len, remap);
        lemma_parse_line_index(data.subrange(pos, e), forward_size, costs_len, remap);
        match entries_spec(data, e + 1, forward_size, costs_len, remap) {
            None => {},
            Some(rest) => {
                match parse_line_spec(data.subrange(pos, e), forward_size, costs_len, remap) {
                    Some(Some(x)) => {
                        let es = seq![x] + rest;
                        assert forall|j: int| 0 <= j < es.len() implies 0 <= #[trigger] es[j].0
                            < costs_len by {
                            if j > 0 {
                                assert(es[j] == rest[j - 1]);
                            }
                        }
                    },
                    _ => {},
                }
            },
        }
    }
}

/// Parses every data line of a newline-aligned chunk into its
/// `(index, cost)` entries, in chunk order.
pub fn parse_chunk(
    chunk: &[u8],
    forward_size: u32,
    costs_len: usize,
    remap: Option<&ContextIdMap>,
) -> (r: LinderaResult<Vec<(usize, i16)>>)
    ensures
        chunk_outcome(chunk@, forward_size, costs_len as int, remap, r),
{
    let mut out: Vec<(usize, i16)> = Vec::new();
    let mut pos: usize = 0;
    assert(entries_view(out@) =~= Seq::<(int, i16)>::empty());
    assert(entries_spec(chunk@, 0, forward_size, costs_len as int, remap) == opt_concat(
        Some(entries_view(out@)),
        entries_spec(chunk@, 0, forward_size, costs_len as int, remap),
    )) by {
        match entries_spec(chunk@, 0, forward_size, costs_len as int, remap) {
            Some(t) => {
                assert(Seq::<(int, i16)>::empty() + t =~= t);
            },
            None => {},
        }
    }
    while pos < chunk.len()
        invariant
            pos <= chunk@.len(),
            entries_spec(chunk@, 0, forward_size, costs_len as int, remap) == opt_concat(
                Some(entries_view(out@)),
                entries_spec(chunk@, pos as int, forward_size, costs_len as int, remap),
            ),
        decreases chunk@.len() - pos,
    {
        let line_end = find_line_end(chunk, pos);
        proof {
            lemma_line_end_bounds(chunk@, pos as int);
        }
        let line = &chunk[pos..line_end];
        assert(line@ == chunk@.subrange(pos as int, line_end as int));
        let ghost old_out = out@;
        let ghost rest = entries_spec(
            chunk@,
            line_end + 1,
            forward_size,
            costs_len as int,
            remap,
        );
        match parse_data_line(line, forward_size, costs_len, remap) {
            Ok(Some(entry)) => {
                out.push(entry);
                proof {
                    assert(entries_view(out@) =~= entries_view(old_out).push(
                        (entry.0 as int, entry.1),
                    ));
                    match rest {
                        Some(t) => {
                            assert(entries_view(old_out) + (seq![(entry.0 as int, entry.1)] + t)
                                =~= entries_view(out@) + t);
                        },
                        None => {},
                    }
                }
            },
            Ok(None) => {},
            Err(e) => {
                return Err(e);
            },
        }
        if line_end < chunk.len() {
            pos = line_end + 1;
        } else {
            pos = chunk.len();
        }
    }
    proof {
        assert(entries_view(out@) + Seq::<(int, i16)>::empty() =~= entries_view(out@));
    }
    Ok(out)
}

/// Number of worker threads in rayon's current pool.
///
/// Calls `rayon::current_num_threads`; nothing is claimed of the result,
/// which depends on the machine and the pool configuration.
#[verifier::external_body]
fn current_num_threads() -> usize {
    rayon::current_num_threads()
}

/// Parses each chunk on rayon's thread pool.
///
/// Calls `par_iter().map(..).collect()` from rayon with `parse_chunk` as the
/// mapped function; the contract claims that the results come back one per
/// chunk, in chunk order, each being what `parse_chunk` returns for its chunk.
#[verifier::external_body]
fn parse_chunks_parallel(
    chunks: &Vec<&[u8]>,
    forward_size: u32,
    costs_len: usize,
    remap: Option<&ContextIdMap>,
) -> (r: Vec<LinderaResult<Vec<(usize, i16)>>>)
    ensures
        r@.len() == chunks@.len(),
        forall|k: int|
            0 <= k < chunks@.len() ==> chunk_outcome(
                chunks@[k]@,
                forward_size,
                costs_len as int,
                remap,
                #[trigger] r@[k],
            ),
{
    chunks.par_iter().map(|chunk| parse_chunk(chunk, forward_size, costs_len, remap)).collect()
}

/// The entries of chunk `k` of `data`, cut at `bounds`.
pub open spec fn chunk_entries(
    data: Seq<u8>,
    bounds: Seq<usize>,
    k: int,
    forward_size: u32,
    costs_len: int,
    remap: Option<&ContextIdMap>,
) -> Option<Seq<(int, i16)>> {
    entries_spec(
        data.subrange(bounds[k] as int, bounds[k + 1] as int),
        0,
        forward_size,
        costs_len,
        remap,
    )
}

proof fn lemma_chunks_none(
    data: Seq<u8>,
    bounds: Seq<usize>,
    j: int,
    k: int,
    forward_size: u32,
    costs_len: int,
    remap: Option<&ContextIdMap>,
)
    requires
        0 <= j <= k,
        k + 1 < bounds.len(),
        chunk_entries(data, bounds, k, forward_size, costs_len, remap) is None,
    ensures
        chunks_entries(data, bounds, j, forward_size, costs_len, remap) is None,
    decreases k - j,
{
    if j < k {
        lemma_chunks_none(data, bounds, j + 1, k, forward_size, costs_len, remap);
    }
}

proof fn lemma_line_end_is_newline(data: Seq<u8>, p: int)
    requires
        0 <= p <= data.len(),
        line_end(data, p) < data.len(),
    ensures
        data[line_end(data, p)] == 10,
    decreases data.len() - p,
{
    if p < data.len() && data[p] != 10 {
        lemma_line_end_is_newline(data, p + 1);
    }
}

proof fn lemma_chunks_some(
    data: Seq<u8>,
    bounds: Seq<usize>,
    k: int,
    forward_size: u32,
    costs_len: int,
    remap: Option<&ContextIdMap>,
)
    requires
        0 <= k,
        forall|j: int|
            k <= j < bounds.len() - 1 ==> (#[trigger] chunk_entries(
                data,
                bounds,
                j,
                forward_size,
                costs_len,
                remap,
            )) is Some,
    ensures
        chunks_entries(data, bounds, k, forward_size, costs_len, remap) is Some,
    decreases bounds.len() - k,
{
    if k + 1 < bounds.len() {
        lemma_chunks_some(data, bounds, k + 1, forward_size, costs_len, remap);
        assert(chunk_entries(data, bounds, k, forward_size, costs_len, remap) is Some);
    }
}

/// Parses the data region of `matrix.def` in line-aligned chunks on rayon's
/// thread pool, then writes the entries into `costs` in file order; the
/// outcome is the same as parsing line by line.
pub fn fill_costs_parallel(
    data: &[u8],
    forward_size: u32,
    costs: &mut Vec<i16>,
    remap: Option<&ContextIdMap>,
) -> (r: LinderaResult<()>)
    ensures
        final(costs)@.len() == old(costs)@.len(),
        r is Ok <==> fill_spec(data@, 0, forward_size, old(costs)@, remap) is Some,
        r is Ok ==> final(costs)@ == fill_spec(data@, 0, forward_size, old(costs)@, remap)->0,
        r matches Err(e) ==> e.kind == LinderaErrorKind::Content,
{
    let costs_len = costs.len();
    let threads = current_num_threads();
    let n_chunks: usize = if threads >= 1 && threads <= 1024 {
        threads * 4
    } else {
        1
    };
    let mut bounds: Vec<usize> = Vec::new();
    bounds.push(0);
    let mut i: usize = 1;
    while i < n_chunks
        invariant
            bounds@.len() >= 1,
            bounds@[0] == 0,
            forall|k: int| 0 <= k < bounds@.len() - 1 ==> bounds@[k] < #[trigger] bounds@[k + 1],
            forall|k: int|
                1 <= k < bounds@.len() ==> is_line_boundary(data@, #[trigger] bounds@[k] as int)
                    && bounds@[k] < data@.len(),
        decreases n_chunks - i,
    {
        match data.len().checked_mul(i) {
            Some(prod) => {
                let target = prod / n_chunks;
                let last = bounds[bounds.len() - 1];
                if target > last && target < data.len() {
                    let line_end = find_line_end(data, target);
                    proof {
                        lemma_line_end_bounds(data@, target as int);
                    }
                    if line_end < data.len() {
                        proof {
                            lemma_line_end_is_newline(data@, target as int);
                        }
                        let boundary = line_end + 1;
                        if boundary > last && boundary < data.len() {
                            bounds.push(boundary);
                        }
                    }
                }
            },
            None => {},
        }
        i += 1;
    }
    let ghost before_last = bounds@;
    bounds.push(data.len());
    proof {
        assert(bounds@.last() == data@.len());
        assert forall|k: int| 0 <= k < bounds@.len() - 1 implies bounds@[k] <= #[trigger] bounds@[
            k + 1] by {
            if k + 1 < before_last.len() {
                assert(before_last[k] < before_last[k + 1]);
            } else if k >= 1 {
                assert(before_last[k] < data@.len());
            }
        }
        assert forall|k: int| 1 <= k < bounds@.len() implies is_line_boundary(
            data@,
            #[trigger] bounds@[k] as int,
        ) by {
            if k < before_last.len() {
                assert(is_line_boundary(data@, before_last[k] as int));
            }
        }
        assert(line_aligned_bounds(data@, bounds@));
    }
    let mut chunks: Vec<&[u8]> = Vec::new();
    let mut k: usize = 0;
    while k < bounds.len() - 1
        invariant
            line_aligned_bounds(data@, bounds@),
            k < bounds@.len(),
            chunks@.len() == k,
            forall|j: int|
                0 <= j < k ==> (#[trigger] chunks@[j])@ == data@.subrange(
                    bounds@[j] as int,
                    bounds@[j + 1] as int,
                ),
        decreases bounds@.len() - k,
    {
        proof {
            lemma_bounds_in_range(data@, bounds@, k + 1);
            assert(bounds@[k as int] <= bounds@[k + 1]);
        }
        let chunk = &data[bounds[k]..bounds[k + 1]];
        chunks.push(chunk);
        k += 1;
    }
    let partials = parse_chunks_parallel(&chunks, forward_size, costs_len, remap);
    let n = partials.len();
    assert(n + 1 == bounds@.len());
    let mut k: usize = 0;
    while k < n
        invariant
            n == partials@.len(),
            n + 1 == bounds@.len(),
            k <= n,
            costs@ == old(costs)@,
            costs_len == costs@.len(),
            line_aligned_bounds(data@, bounds@),
            forall|j: int| 0 <= j < k ==> (#[trigger] partials@[j]) is Ok,
            forall|j: int|
                0 <= j < n ==> chunk_outcome(
                    chunks@[j]@,
                    forward_size,
                    costs_len as int,
                    remap,
                    #[trigger] partials@[j],
                ),
            chunks@.len() == n,
            forall|j: int|
                0 <= j < n ==> (#[trigger] chunks@[j])@ == data@.subrange(
                    bounds@[j] as int,
                    bounds@[j + 1] as int,
                ),
        decreases n - k,
    {
        let bad = match &partials[k] {
            Err(_) => true,
            Ok(_) => false,
        };
        if bad {
            proof {
                assert(chunk_outcome(
                    chunks@[k as int]@,
                    forward_size,
                    costs_len as int,
                    remap,
                    partials@[k as int],
                ));
                assert(chunk_entries(data@, bounds@, k as int, forward_size, costs_len as int, remap)
                    is None);
                lemma_chunks_none(data@, bounds@, 0, k as int, forward_size, costs_len as int, remap);
                lemma_chunks_entries(data@, bounds@, 0, forward_size, costs_len as int, remap);
                lemma_fill_is_apply(data@, 0, forward_size, costs@, remap);
            }
            let mut partials = partials;
            let p = partials.remove(k);
            match p {
                Err(e) => {
                    return Err(e);
                },
                Ok(_) => {
                    proof {
                        assert(false);
                    }
                    return Err(error_of(LinderaErrorKind::Content, "matrix.def is malformed"));
                },
            }
        }
        k += 1;
    }
    proof {
        assert forall|j: int| 0 <= j < n implies (#[trigger] chunk_entries(
            data@,
            bounds@,
            j,
            forward_size,
            costs_len as int,
            remap,
        )) is Some by {
            assert(partials@[j] is Ok);
            assert(chunk_outcome(chunks@[j]@, forward_size, costs_len as int, remap, partials@[j]));
        }
        lemma_chunks_some(data@, bounds@, 0, forward_size, costs_len as int, remap);
    }
    let ghost all = chunks_entries(data@, bounds@, 0, forward_size, costs_len as int, remap);
    let mut k: usize = 0;
    while k < n
        invariant
            n == partials@.len(),
            n + 1 == bounds@.len(),
            k <= n,
            line_aligned_bounds(data@, bounds@),
            costs@.len() == costs_len,
            forall|j: int| 0 <= j < n ==> (#[trigger] partials@[j]) is Ok,
            forall|j: int|
                0 <= j < n ==> chunk_outcome(
                    chunks@[j]@,
                    forward_size,
                    costs_len as int,
                    remap,
                    #[trigger] partials@[j],
                ),
            chunks@.len() == n,
            forall|j: int|
                0 <= j < n ==> (#[trigger] chunks@[j])@ == data@.subrange(
                    bounds@[j] as int,
                    bounds@[j + 1] as int,
                ),
            forall|j: int|
                0 <= j < n ==> (#[trigger] chunk_entries(
                    data@,
                    bounds@,
                    j,
                    forward_size,
                    costs_len as int,
                    remap,
                )) is Some,
            chunks_entries(data@, bounds@, k as int, forward_size, costs_len as int, remap) is Some,
            all is Some,
            apply_entries(
                costs@,
                chunks_entries(data@, bounds@, k as int, forward_size, costs_len as int, remap)->0,
            ) == apply_entries(old(costs)@, all->0),
        decreases n - k,
    {
        let ghost ck = costs@;
        let ghost rest = chunks_entries(
            data@,
            bounds@,
            k + 1,
            forward_size,
            costs_len as int,
            remap,
        );
        proof {
            lemma_chunks_some(data@, bounds@, k + 1, forward_size, costs_len as int, remap);
        }
        match &partials[k] {
            Ok(v) => {
                let ghost ev = entries_view(v@);
                proof {
                    assert(chunk_outcome(
                        chunks@[k as int]@,
                        forward_size,
                        costs_len as int,
                        remap,
                        partials@[k as int],
                    ));
                    assert(chunk_entries(data@, bounds@, k as int, forward_size, costs_len as int, remap)
                        == Some(ev));
                    lemma_entries_in_range(
                        chunks@[k as int]@,
                        0,
                        forward_size,
                        costs_len as int,
                        remap,
                    );
                    assert(ev.take(0) =~= Seq::<(int, i16)>::empty());
                }
                let mut j: usize = 0;
                while j < v.len()
                    invariant
                        j <= v@.len(),
                        ev == entries_view(v@),
                        costs@.len() == costs_len,
                        forall|t: int| 0 <= t < ev.len() ==> 0 <= #[trigger] ev[t].0 < costs_len,
                        costs@ == apply_entries(ck, ev.take(j as int)),
                    decreases v@.len() - j,
                {
                    let idx = v[j].0;
                    let c = v[j].1;
                    assert(ev[j as int] == (idx as int, c));
                    costs.set(idx, c);
                    proof {
                        lemma_apply_push(ck, ev.take(j as int), ev[j as int]);
                        assert(ev.take(j + 1) =~= ev.take(j as int).push(ev[j as int]));
                    }
                    j += 1;
                }
                proof {
                    assert(ev.take(v@.len() as int) =~= ev);
                    lemma_apply_concat(ck, ev, rest->0);
                }
            },
            Err(_) => {
                proof {
                    assert(false);
                }
            },
        }
        k += 1;
    }
    proof {
        assert(chunks_entries(data@, bounds@, k as int, forward_size, costs_len as int, remap)
            == Some(Seq::<(int, i16)>::empty()));
        lemma_chunks_entries(data@, bounds@, 0, forward_size, costs_len as int, remap);
        lemma_fill_is_apply(data@, 0, forward_size, old(costs)@, remap);
    }
    Ok(())
}

} // verus!

verus! {

/// Size of the data region, in bytes, from which on it is parsed on
/// several threads.
pub const PARALLEL_THRESHOLD: usize = 1048576;

/// Parses the data region of `matrix.def` into `costs`, on several threads
/// when it is large; either way the outcome is that of parsing it line by
/// line.
pub fn fill_costs(
    data: &[u8],
    forward_size: u32,
    costs: &mut Vec<i16>,
    remap: Option<&ContextIdMap>,
) -> (r: LinderaResult<()>)
    ensures
        final(costs)@.len() == old(costs)@.len(),
        r is Ok <==> fill_spec(data@, 0, forward_size, old(costs)@, remap) is Some,
        r is Ok ==> final(costs)@ == fill_spec(data@, 0, forward_size, old(costs)@, remap)->0,
        r matches Err(e) ==> e.kind == LinderaErrorKind::Content,
{
    if data.len() >= PARALLEL_THRESHOLD {
        fill_costs_parallel(data, forward_size, costs, remap)
    } else {
        fill_costs_sequential(data, forward_size, costs, remap)
    }
}

#[verifier::external_type_specification]
#[verifier::external_body]
pub struct ExEncoding(Encoding);

/// The canonical name of the encoding that the WHATWG label `label` selects,
/// or `None` for an unknown label or one that selects the replacement
/// encoding.
pub uninterp spec fn encoding_name_of(label: Seq<char>) -> Option<Seq<char>>;

/// Looks up the encoding for a label, with its canonical name.
///
/// Calls `encoding_rs::Encoding::for_label_no_replacement` and `name`; the
/// contract claims that the outcome and the name depend on the label alone.
#[verifier::external_body]
pub(crate) fn encoding_for_label(label: &str) -> (r: Option<(&'static Encoding, &'static str)>)
    ensures
        match r {
            Some((_, name)) => encoding_name_of(label@) == Some(name@),
            None => encoding_name_of(label@) is None,
        },
{
    match Encoding::for_label_no_replacement(label.as_bytes()) {
        Some(e) => Some((e, e.name())),
        None => None,
    }
}

/// The text that the encoding of the WHATWG label `label` makes of
/// `bytes`: a byte order mark sniffed first, malformed sequences replaced.
pub uninterp spec fn decoded_text_of(label: Seq<char>, bytes: Seq<u8>) -> Seq<char>;

/// Decodes `buffer` into text in the encoding of `label`.
///
/// Calls `encoding_rs::Encoding::for_label_no_replacement` and, on the
/// encoding found, `Encoding::decode`, which sniffs a byte order mark first
/// and replaces malformed sequences; the contract claims that the text
/// depends on the label and the bytes alone. What it is, is named, not
/// stated.
#[verifier::external_body]
pub(crate) fn decode_for_label(label: &str, buffer: &[u8]) -> (r: Option<String>)
    ensures
        r is Some <==> encoding_name_of(label@) is Some,
        r matches Some(t) ==> t@ == decoded_text_of(label@, buffer@),
{
    Encoding::for_label_no_replacement(label.as_bytes()).map(|e| e.decode(buffer).0.into_owned())
}

/// Whether an encoding name is one of the two UTF-16 encodings.
pub open spec fn is_utf16_name(name: Seq<char>) -> bool {
    name == "UTF-16LE"@ || name == "UTF-16BE"@
}

/// Whether `matrix.def` must be decoded before parsing: its encoding is
/// UTF-16, by name or by a UTF-16 byte order mark.
pub open spec fn needs_decode(label: Seq<char>, buffer: Seq<u8>) -> bool {
    &&& encoding_name_of(label) is Some
    &&& (is_utf16_name(encoding_name_of(label)->0) || (buffer.len() >= 2 && ((buffer[0] == 0xFF
        && buffer[1] == 0xFE) || (buffer[0] == 0xFE && buffer[1] == 0xFF))))
}

/// The bytes of `matrix.mtx` that the bytes of `matrix.def` (without a
/// UTF-8 byte order mark) describe, or `None` when they are malformed.
pub open spec fn matrix_mtx_spec(bytes: Seq<u8>, remap: Option<&ContextIdMap>) -> Option<Seq<u8>> {
    match build_costs_spec(bytes, remap) {
        Some(costs) => Some(crate::byte_order::i16s_le(costs)),
        None => None,
    }
}

/// Builds the connection cost matrix (`matrix.mtx`) from `matrix.def`.
pub struct ConnectionCostMatrixBuilder {
    /// Character encoding of the source `matrix.def` file.
    pub encoding: String,
    /// Optional context-ID remapping applied to both axes before the costs
    /// are scattered.
    pub context_id_remap: Option<ContextIdMap>,
}

impl ConnectionCostMatrixBuilder {
    /// The remap, borrowed.
    pub open spec fn remap(&self) -> Option<&ContextIdMap> {
        match &self.context_id_remap {
            Some(m) => Some(m),
            None => None,
        }
    }

    /// A builder for `matrix.def` files in `encoding`, with an optional
    /// context-ID remap.
    pub fn new(encoding: String, context_id_remap: Option<ContextIdMap>) -> (r: Self)
        ensures
            r.encoding@ == encoding@,
            r.context_id_remap == context_id_remap,
    {
        ConnectionCostMatrixBuilder { encoding, context_id_remap }
    }

    /// Decodes `buffer` into text when it cannot be parsed as raw bytes, that
    /// is when the encoding is UTF-16 by name or by byte order mark.
    pub fn decode_if_needed(&self, buffer: &[u8]) -> (r: LinderaResult<Option<String>>)
        ensures
            r is Err <==> encoding_name_of(self.encoding@) is None,
            r matches Err(e) ==> e.kind == LinderaErrorKind::Decode,
            r matches Ok(d) ==> (d is Some <==> needs_decode(self.encoding@, buffer@)),
            r matches Ok(Some(t)) ==> t@ == decoded_text_of(self.encoding@, buffer@),
    {
        let found = encoding_for_label(self.encoding.as_str());
        match found {
            None => Err(error_of(LinderaErrorKind::Decode, "Invalid encoding")),
            Some((_, name)) => {
                let is_utf16 = str_eq(name, "UTF-16LE") || str_eq(name, "UTF-16BE")
                    || has_utf16_bom(buffer);
                proof {
                    reveal_strlit("UTF-16LE");
                    reveal_strlit("UTF-16BE");
                }
                if is_utf16 {
                    match decode_for_label(self.encoding.as_str(), buffer) {
                        Some(text) => Ok(Some(text)),
                        None => Err(error_of(LinderaErrorKind::Decode, "Invalid encoding")),
                    }
                } else {
                    Ok(None)
                }
            },
        }
    }

    /// Parses the data region into `costs` with this builder's remap.
    pub fn fill_costs(&self, data: &[u8], forward_size: u32, costs: &mut Vec<i16>) -> (r:
        LinderaResult<()>)
        ensures
            final(costs)@.len() == old(costs)@.len(),
            r is Ok <==> fill_spec(data@, 0, forward_size, old(costs)@, self.remap()) is Some,
            r is Ok ==> final(costs)@ == fill_spec(
                data@,
                0,
                forward_size,
                old(costs)@,
                self.remap(),
            )->0,
            r matches Err(e) ==> e.kind == LinderaErrorKind::Content,
    {
        fill_costs(data, forward_size, costs, self.context_id_remap.as_ref())
    }

    /// Builds the bytes of `matrix.mtx` from the raw bytes of `matrix.def`:
    /// the transposed cost table, each value a little-endian `i16`.
    ///
    /// A UTF-16 file (by the encoding's name or by its byte order mark) is
    /// decoded first and its text parsed. An unknown encoding is a decode
    /// error; a missing header, a remap that does not fit the axes or a
    /// malformed line is a content error.
    pub fn build(&self, buffer: &[u8]) -> (r: LinderaResult<Vec<u8>>)
        ensures
            encoding_name_of(self.encoding@) is None ==> (r matches Err(e) && e.kind
                == LinderaErrorKind::Decode),
            needs_decode(self.encoding@, buffer@) ==> match r {
                Ok(out) => matrix_mtx_spec(
                    vstd::utf8::encode_utf8(decoded_text_of(self.encoding@, buffer@)),
                    self.remap(),
                ) == Some(out@),
                Err(e) => matrix_mtx_spec(
                    vstd::utf8::encode_utf8(decoded_text_of(self.encoding@, buffer@)),
                    self.remap(),
                ) is None && e.kind == LinderaErrorKind::Content,
            },
            encoding_name_of(self.encoding@) is Some && !needs_decode(self.encoding@, buffer@)
                ==> match r {
                Ok(out) => matrix_mtx_spec(
                    if has_utf8_bom_spec(buffer@) {
                        buffer@.skip(3)
                    } else {
                        buffer@
                    },
                    self.remap(),
                ) == Some(out@),
                Err(e) => matrix_mtx_spec(
                    if has_utf8_bom_spec(buffer@) {
                        buffer@.skip(3)
                    } else {
                        buffer@
                    },
                    self.remap(),
                ) is None && e.kind == LinderaErrorKind::Content,
            },
            r matches Err(e) ==> e.kind == LinderaErrorKind::Decode || e.kind
                == LinderaErrorKind::Content,
    {
        let decoded = self.decode_if_needed(buffer)?;
        let remap = self.context_id_remap.as_ref();
        let costs = match &decoded {
            Some(text) => build_costs(text.as_str().as_bytes(), remap),
            None => build_costs(strip_utf8_bom(buffer), remap),
        };
        match costs {
            Ok(costs) => Ok(costs_to_bytes(&costs)),
            Err(e) => Err(e),
        }
    }
}

} // verus!

verus! {

/// The `(forward_size, backward_size)` header of the contents of
/// `matrix.def` (a UTF-8 byte order mark skipped): the first two integers of
/// its first line; a missing one is a content error.
pub fn read_matrix_header(content: &[u8]) -> (r: LinderaResult<(u32, u32)>)
    ensures
        match r {
            Ok(h) => header_spec(strip_bom_spec(content@)) == Some(h),
            Err(e) => header_spec(strip_bom_spec(content@)) is None && e.kind == LinderaErrorKind::Content,
        },
{
    let bytes = strip_utf8_bom(content);
    let header_end = find_line_end(bytes, 0);
    proof {
        lemma_line_end_bounds(bytes@, 0);
    }
    let header = vstd::slice::slice_subrange(bytes, 0, header_end);
    let mut pos: usize = 0;
    let forward_size = match next_int(header, &mut pos) {
        Some(v) => v as u32,
        None => {
            return Err(error_of(LinderaErrorKind::Content, "matrix.def is missing the size header"));
        },
    };
    let backward_size = match next_int(header, &mut pos) {
        Some(v) => v as u32,
        None => {
            return Err(error_of(LinderaErrorKind::Content, "matrix.def header is missing backward size"));
        },
    };
    Ok((forward_size, backward_size))
}

} // verus!
