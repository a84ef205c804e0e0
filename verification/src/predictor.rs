//! Undoing the filters that rows of samples went through before they were compressed.

use vstd::prelude::*;
use crate::float::{law_integer_kept, nearest_integer, round_ratio, round_to_integer, SINGLE};
use crate::raster::{lemma_index, lemma_position};
use crate::scale::single;

verus! {

/// How the rows of samples were filtered.
#[derive(Clone, Copy)]
pub struct PredictorParams {
    pub predictor: u32,
    pub colors: u32,
    pub columns: u32,
    pub bpc: u8,
}

/// The distance between two integers.
pub open spec fn gap(x: int, y: int) -> int {
    if x < y {
        y - x
    } else {
        x - y
    }
}

/// Which of the bytes to the left, above, and above to the left is nearest to the first plus
/// the second less the third, the first of them where two are.
pub open spec fn paeth(a: u8, b: u8, c: u8) -> u8 {
    let p = a + b - c;
    if gap(p, a as int) <= gap(p, b as int) && gap(p, a as int) <= gap(p, c as int) {
        a
    } else if gap(p, b as int) <= gap(p, c as int) {
        b
    } else {
        c
    }
}

fn distance_between(x: i32, y: i32) -> (r: i32)
    requires
        -1000 <= x <= 1000,
        -1000 <= y <= 1000,
    ensures
        r == gap(x as int, y as int),
{
    if x < y {
        y - x
    } else {
        x - y
    }
}

/// The neighbour of a byte that predicts it.
pub fn paeth_predictor(a: u8, b: u8, c: u8) -> (r: u8)
    ensures
        r == paeth(a, b, c),
{
    let p: i32 = a as i32 + b as i32 - c as i32;
    let pa: i32 = distance_between(p, a as i32);
    let pb: i32 = distance_between(p, b as i32);
    let pc: i32 = distance_between(p, c as i32);
    if pa <= pb && pa <= pc {
        a
    } else if pb <= pc {
        b
    } else {
        c
    }
}

/// What a filter predicts of a byte from its neighbours.
pub open spec fn predicted(filter: u8, left: u8, up: u8, up_left: u8) -> u8 {
    if filter == 1 {
        left
    } else if filter == 2 {
        up
    } else if filter == 3 {
        ((left + up) / 2) as u8
    } else if filter == 4 {
        paeth(left, up, up_left)
    } else {
        0
    }
}

fn predict(filter: u8, left: u8, up: u8, up_left: u8) -> (r: u8)
    ensures
        r == predicted(filter, left, up, up_left),
{
    if filter == 1 {
        left
    } else if filter == 2 {
        up
    } else if filter == 3 {
        ((left as u16 + up as u16) / 2) as u8
    } else if filter == 4 {
        paeth_predictor(left, up, up_left)
    } else {
        0
    }
}

/// The filter of a row: the byte in front of it.
pub open spec fn row_filter(data: Seq<u8>, row_len: int, row: int) -> u8 {
    data[row * (row_len + 1)]
}

/// Byte `i` of a row, restored: the stored byte plus what the filter of the row predicts
/// from the restored bytes `step` to the left and above. Outside the image they are zero.
#[verifier::opaque]
pub open spec fn restored(data: Seq<u8>, row_len: int, step: int, row: int, i: int) -> u8
    decreases row, i,
{
    let left = if 0 < step <= i { restored(data, row_len, step, row, i - step) } else { 0 };
    let up = if row > 0 { restored(data, row_len, step, row - 1, i) } else { 0 };
    let up_left = if row > 0 && 0 < step <= i { restored(data, row_len, step, row - 1, i - step) } else { 0 };
    ((data[row * (row_len + 1) + 1 + i] + predicted(row_filter(data, row_len, row), left, up, up_left)) % 256) as u8
}

/// A restored byte, from its restored neighbours.
proof fn lemma_restored_from(data: Seq<u8>, row_len: int, step: int, row: int, i: int, left: u8, up: u8, up_left: u8)
    requires
        left == if 0 < step <= i { restored(data, row_len, step, row, i - step) } else { 0 },
        up == if row > 0 { restored(data, row_len, step, row - 1, i) } else { 0 },
        up_left == if row > 0 && 0 < step <= i { restored(data, row_len, step, row - 1, i - step) } else { 0 },
    ensures
        restored(data, row_len, step, row, i) == ((data[row * (row_len + 1) + 1 + i] + predicted(
            row_filter(data, row_len, row),
            left,
            up,
            up_left,
        )) % 256) as u8,
{
    reveal_with_fuel(restored, 1);
}

/// All rows restored, where each of them has one of the five filters.
pub open spec fn restored_rows(data: Seq<u8>, row_len: int, step: int, rows: int) -> Option<Seq<u8>> {
    if forall|row: int| 0 <= row < rows ==> #[trigger] row_filter(data, row_len, row) <= 4 {
        Some(
            Seq::new(
                (row_len * rows) as nat,
                |k: int| restored(data, row_len, step, k / row_len, k % row_len),
            ),
        )
    } else {
        None
    }
}

/// How many bytes hold that many bits, counted in single precision.
pub open spec fn bytes_for(bits: nat) -> nat {
    let n = nearest_integer(single(bits));
    ((if n < 0xffff_ffff { n } else { 0xffff_ffff }) + 7) / 8
}

fn bytes_for_bits(bits: u32) -> (r: u64)
    ensures
        r == bytes_for(bits as nat),
        r <= 0x2000_0000,
{
    let n: u32 = round_to_integer(round_ratio(SINGLE, bits as u128, 1), 0xffff_ffff);
    (n as u64 + 7) / 8
}

/// A product in 32 bits.
pub open spec fn product32(a: int, b: int) -> int {
    (a * b) % 0x1_0000_0000
}

/// The bytes of a sample of all colors.
pub open spec fn sample_bytes(params: PredictorParams) -> nat {
    bytes_for(product32(params.colors as int, params.bpc as int) as nat)
}

/// The bytes of a row.
pub open spec fn row_bytes(params: PredictorParams) -> nat {
    bytes_for(
        product32(product32(params.colors as int, params.columns as int), params.bpc as int) as nat,
    )
}

/// Data with its filters undone. Data of just the length of the rows has none; data too short
/// for the rows, or with a filter that there is not, cannot be restored.
pub open spec fn unfiltered(data: Seq<u8>, rows: u32, params: PredictorParams) -> Option<Seq<u8>> {
    let step = sample_bytes(params);
    let row_len = row_bytes(params);
    if step == 0 || row_len == 0 || rows == 0 {
        None
    } else if data.len() == row_len * rows {
        Some(data)
    } else if data.len() < (row_len + 1) * rows {
        None
    } else {
        restored_rows(data, row_len as int, step as int, rows as int)
    }
}

/// Where the rows before one end, in the data and in the result.
proof fn lemma_row_bounds(row_len: int, rows: int, row: int, i: int)
    requires
        0 <= row < rows,
        0 <= i < row_len,
    ensures
        0 <= row * (row_len + 1),
        row * (row_len + 1) + 1 + i < (row_len + 1) * rows,
        0 <= row * row_len + i < row_len * rows,
{
    assert(0 <= row * (row_len + 1)) by (nonlinear_arith)
        requires
            0 <= row,
            0 <= row_len,
    ;
    assert(row * (row_len + 1) + (row_len + 1) <= (row_len + 1) * rows) by (nonlinear_arith)
        requires
            row + 1 <= rows,
            0 <= row_len,
    ;
    lemma_index(row_len, rows, i, row);
}

/// The bytes before place `n` are those of the rows, restored.
#[verifier::opaque]
pub open spec fn restored_up_to(data: Seq<u8>, row_len: int, step: int, out: Seq<u8>, n: int) -> bool {
    &&& out.len() == n
    &&& forall|k: int|
        0 <= k < n ==> #[trigger] out[k] == restored(data, row_len, step, k / row_len, k % row_len)
}

proof fn lemma_restored_at(data: Seq<u8>, row_len: int, step: int, out: Seq<u8>, n: int, rows: int, row: int, i: int)
    requires
        restored_up_to(data, row_len, step, out, n),
        0 <= row < rows,
        0 <= i < row_len,
        row * row_len + i < n,
    ensures
        0 <= row * row_len + i < out.len(),
        out[row * row_len + i] == restored(data, row_len, step, row, i),
{
    reveal(restored_up_to);
    lemma_index(row_len, rows, i, row);
}

/// A restored byte, from those before it.
fn restore_byte(
    data: &Vec<u8>,
    row_len: usize,
    step: usize,
    rows: usize,
    row: usize,
    i: usize,
    out: &Vec<u8>,
) -> (r: u8)
    requires
        0 < step,
        row < rows,
        i < row_len,
        (row_len + 1) * rows <= data@.len(),
        restored_up_to(data@, row_len as int, step as int, out@, row * row_len + i),
    ensures
        r == restored(data@, row_len as int, step as int, row as int, i as int),
{
    let ghost l = row_len as int;
    let ghost s = step as int;
    let length: usize = data.len();
    let at: usize = out.len();
    proof {
        lemma_row_bounds(l, rows as int, row as int, i as int);
        assert(row_len + 1 <= (row_len + 1) * rows) by (nonlinear_arith)
            requires
                rows >= 1,
        ;
        assert(at == row * l + i) by {
            reveal(restored_up_to);
        }
        if row > 0 {
            assert((row - 1) * l == row * l - l) by (nonlinear_arith);
            lemma_restored_at(data@, l, s, out@, at as int, rows as int, row - 1, i as int);
        }
        if step <= i {
            lemma_restored_at(data@, l, s, out@, at as int, rows as int, row as int, i - step);
            if row > 0 {
                lemma_restored_at(data@, l, s, out@, at as int, rows as int, row - 1, i - step);
            }
        }
    }
    let begin: usize = row * (row_len + 1);
    let filter: u8 = data[begin];
    let left: u8 = if step <= i { out[at - step] } else { 0 };
    let up: u8 = if row > 0 { out[at - row_len] } else { 0 };
    let up_left: u8 = if row > 0 && step <= i { out[at - row_len - step] } else { 0 };
    proof {
        lemma_restored_from(data@, l, s, row as int, i as int, left, up, up_left);
    }
    data[begin + 1 + i].wrapping_add(predict(filter, left, up, up_left))
}

/// Appends a restored row.
fn restore_row(data: &Vec<u8>, row_len: usize, step: usize, rows: usize, row: usize, out: &mut Vec<u8>)
    requires
        0 < row_len,
        0 < step,
        row < rows,
        (row_len + 1) * rows <= data@.len(),
        restored_up_to(data@, row_len as int, step as int, old(out)@, row * row_len),
    ensures
        restored_up_to(data@, row_len as int, step as int, final(out)@, (row + 1) * row_len),
{
    for i in 0..row_len
        invariant
            0 < step,
            row < rows,
            (row_len + 1) * rows <= data@.len(),
            restored_up_to(data@, row_len as int, step as int, out@, row * row_len + i),
    {
        let byte: u8 = restore_byte(data, row_len, step, rows, row, i, out);
        proof {
            reveal(restored_up_to);
            lemma_index(row_len as int, rows as int, i as int, row as int);
        }
        out.push(byte);
    }
    assert((row + 1) * row_len == row * row_len + row_len) by (nonlinear_arith);
}

/// Undoes the filters of some rows.
pub fn decode_png_predictor(data: Vec<u8>, rows: u32, params: PredictorParams) -> (r: Option<Vec<u8>>)
    ensures
        r is Some <==> unfiltered(data@, rows, params) is Some,
        r matches Some(bytes) ==> unfiltered(data@, rows, params) == Some(bytes@),
{
    let step: u64 = bytes_for_bits(params.colors.wrapping_mul(params.bpc as u32));
    let row_len: u64 = bytes_for_bits(params.colors.wrapping_mul(params.columns).wrapping_mul(params.bpc as u32));
    if step == 0 || row_len == 0 || rows == 0 {
        return None;
    }
    let length: u64 = data.len() as u64;
    proof {
        assert(row_len * rows <= 0x2000_0000 * 0xffff_ffff) by (nonlinear_arith)
            requires
                row_len <= 0x2000_0000,
                rows <= 0xffff_ffff,
        ;
        assert((row_len + 1) * rows == row_len * rows + rows) by (nonlinear_arith);
    }
    if length == row_len * rows as u64 {
        return Some(data);
    }
    if length < (row_len + 1) * rows as u64 {
        return None;
    }
    proof {
        assert(row_len < row_len * rows + rows) by (nonlinear_arith)
            requires
                rows >= 1,
                row_len >= 1,
        ;
    }
    let n: usize = rows as usize;
    let row_length: usize = row_len as usize;
    let mut out: Vec<u8> = Vec::new();
    let ghost l = row_len as int;
    assert(0 * l == 0);
    assert(restored_up_to(data@, l, step as int, out@, 0)) by {
        reveal(restored_up_to);
    }
    for row in 0..n
        invariant
            n == rows,
            row_length == row_len,
            row_len == row_bytes(params),
            step == sample_bytes(params),
            l == row_len,
            0 < row_len <= 0x2000_0000,
            0 < step <= 0x2000_0000,
            0 < rows,
            (row_len + 1) * rows <= data@.len(),
            data@.len() != row_len * rows,
            forall|s: int| 0 <= s < row ==> #[trigger] row_filter(data@, l, s) <= 4,
            restored_up_to(data@, l, step as int, out@, row * l),
    {
        proof {
            lemma_row_bounds(l, n as int, row as int, 0);
        }
        assert(data.len() <= usize::MAX);
        if data[row * (row_length + 1)] > 4 {
            assert(row_filter(data@, l, row as int) > 4);
            return None;
        }
        restore_row(&data, row_length, step as usize, n, row, &mut out);
    }
    proof {
        assert(rows * l == l * rows) by (nonlinear_arith);
        reveal(restored_up_to);
        assert(out@ =~= restored_rows(data@, l, step as int, rows as int)->0);
    }
    Some(out)
}

/// Whether `data` is what filtering the rows of `plain` gives, each row with the filter that
/// stands before it: from each byte, what the filter predicts is taken away.
pub open spec fn is_filtered(data: Seq<u8>, plain: Seq<u8>, row_len: int, step: int, rows: int) -> bool {
    &&& data.len() == (row_len + 1) * rows
    &&& plain.len() == row_len * rows
    &&& forall|row: int| 0 <= row < rows ==> #[trigger] row_filter(data, row_len, row) <= 4
    &&& forall|row: int, i: int|
        0 <= row < rows && 0 <= i < row_len ==> #[trigger] data[row * (row_len + 1) + 1 + i] == filtered_byte(
            plain,
            row_len,
            step,
            row_filter(data, row_len, row),
            row,
            i,
        )
}

/// A byte with what a filter predicts taken away.
pub open spec fn filtered_byte(plain: Seq<u8>, row_len: int, step: int, filter: u8, row: int, i: int) -> u8 {
    let at = row * row_len + i;
    let left = if step <= i { plain[at - step] } else { 0 };
    let up = if row > 0 { plain[at - row_len] } else { 0 };
    let up_left = if row > 0 && step <= i { plain[at - row_len - step] } else { 0 };
    ((plain[at] - predicted(filter, left, up, up_left)) % 256) as u8
}

#[verifier::rlimit(60)]
#[verifier::spinoff_prover]
proof fn lemma_restored_filtered(data: Seq<u8>, plain: Seq<u8>, row_len: int, step: int, rows: int, row: int, i: int)
    requires
        is_filtered(data, plain, row_len, step, rows),
        0 < step,
        0 <= row < rows,
        0 <= i < row_len,
    ensures
        restored(data, row_len, step, row, i) == plain[row * row_len + i],
    decreases row, i,
{
    if row > 0 {
        assert((row - 1) * row_len == row * row_len - row_len) by (nonlinear_arith);
        lemma_restored_filtered(data, plain, row_len, step, rows, row - 1, i);
        if step <= i {
            lemma_restored_filtered(data, plain, row_len, step, rows, row - 1, i - step);
        }
    }
    if step <= i {
        lemma_restored_filtered(data, plain, row_len, step, rows, row, i - step);
    }
    let at = row * row_len + i;
    let left = if step <= i { plain[at - step] } else { 0 };
    let up = if row > 0 { plain[at - row_len] } else { 0 };
    let up_left = if row > 0 && step <= i { plain[at - row_len - step] } else { 0 };
    lemma_restored_from(data, row_len, step, row, i, left, up, up_left);
    assert(data[row * (row_len + 1) + 1 + i] == filtered_byte(
        plain,
        row_len,
        step,
        row_filter(data, row_len, row),
        row,
        i,
    ));
}

/// Undoing the filters of filtered rows gives back the rows.
pub proof fn law_unfiltered(data: Seq<u8>, plain: Seq<u8>, rows: u32, params: PredictorParams)
    requires
        sample_bytes(params) > 0,
        row_bytes(params) > 0,
        rows > 0,
        is_filtered(data, plain, row_bytes(params) as int, sample_bytes(params) as int, rows as int),
    ensures
        unfiltered(data, rows, params) == Some(plain),
{
    let row_len = row_bytes(params) as int;
    let step = sample_bytes(params) as int;
    assert((row_len + 1) * rows == row_len * rows + rows) by (nonlinear_arith);
    assert(0 <= row_len * rows) by (nonlinear_arith)
        requires
            row_len > 0,
    ;
    let out = restored_rows(data, row_len, step, rows as int)->0;
    assert forall|k: int| 0 <= k < plain.len() implies out[k] == plain[k] by {
        crate::raster::lemma_position(row_len, rows as int, k);
        lemma_restored_filtered(data, plain, row_len, step, rows as int, k / row_len, k % row_len);
    }
    assert(out =~= plain);
}

/// What is predicted from the neighbours of a byte is one of them.
pub proof fn law_paeth(a: u8, b: u8, c: u8)
    ensures
        paeth(a, b, c) == a || paeth(a, b, c) == b || paeth(a, b, c) == c,
{
}

/// What the five filters predict: nothing, the byte to the left, the one above, the mean of both
/// rounded down, and the one of three that is nearest to left and above less above to the left.
pub proof fn law_predicted(left: u8, up: u8, up_left: u8)
    ensures
        predicted(0, left, up, up_left) == 0,
        predicted(1, left, up, up_left) == left,
        predicted(2, left, up, up_left) == up,
        2 * predicted(3, left, up, up_left) <= left + up < 2 * predicted(3, left, up, up_left) + 2,
        predicted(4, left, up, up_left) == paeth(left, up, up_left),
{
}

/// The neighbour that predicts a byte is no farther than any other from left and above less above
/// to the left; and of two that are as near, the left one comes before the one above, and that
/// before the last.
pub proof fn law_paeth_nearest(a: u8, b: u8, c: u8)
    ensures
        ({
            let p = a + b - c;
            let v = paeth(a, b, c) as int;
            let off = if p < v { v - p } else { p - v };
            let off_a = if p < a { a - p } else { p - a };
            let off_b = if p < b { b - p } else { p - b };
            let off_c = if p < c { c - p } else { p - c };
            &&& off <= off_a && off <= off_b && off <= off_c
            &&& off == off_a ==> v == a
            &&& off == off_b && off != off_a ==> v == b
        }),
{
}

/// A row has as many bytes as hold its bits, and so has a sample, for sizes that are exact in
/// single precision.
pub proof fn law_row_bytes(params: PredictorParams)
    requires
        params.colors * params.columns * params.bpc < 0x100_0000,
        params.colors >= 1,
        params.columns >= 1,
        params.bpc >= 1,
    ensures
        row_bytes(params) == (params.colors * params.columns * params.bpc + 7) / 8,
        sample_bytes(params) == (params.colors * params.bpc + 7) / 8,
{
    let (c, n, b) = (params.colors as int, params.columns as int, params.bpc as int);
    assert(0 < c * n <= c * n * b && 0 < c * b <= c * n * b) by (nonlinear_arith)
        requires
            c >= 1,
            n >= 1,
            b >= 1,
    ;
    law_integer_kept(SINGLE as nat, (c * n * b) as nat);
    law_integer_kept(SINGLE as nat, (c * b) as nat);
    assert(product32(c, n) == c * n);
    assert(product32(c * n, b) == c * n * b);
    assert(product32(c, b) == c * b);
}

/// Data of just the length of its rows is left as it is, and data too short for its rows cannot
/// be restored.
pub proof fn law_row_lengths(data: Seq<u8>, rows: u32, params: PredictorParams)
    requires
        sample_bytes(params) > 0,
        row_bytes(params) > 0,
        rows > 0,
    ensures
        data.len() == row_bytes(params) * rows ==> unfiltered(data, rows, params) == Some(data),
        data.len() < (row_bytes(params) + 1) * rows && data.len() != row_bytes(params) * rows ==> unfiltered(
            data,
            rows,
            params,
        ) is None,
        unfiltered(data, rows, params) matches Some(out) ==> out.len() == row_bytes(params) * rows,
{
    let row_len = row_bytes(params) as int;
    assert(0 <= row_len * rows) by (nonlinear_arith)
        requires
            row_len > 0,
    ;
}

/// The filter of a row is the byte in front of it, and the row is the bytes behind that: a row
/// without a filter is restored as it is stored.
pub proof fn law_row_filter(data: Seq<u8>, row_len: int, step: int, row: int, i: int)
    requires
        0 <= row,
        0 <= i < row_len,
        0 < step,
    ensures
        row_filter(data, row_len, row) == data[row * (row_len + 1)],
        data[row * (row_len + 1)] == 0 ==> restored(data, row_len, step, row, i) == data[row * (row_len + 1) + 1 + i],
{
    reveal_with_fuel(restored, 1);
}

} // verus!
