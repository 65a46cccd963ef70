//! Connection matrix (`matrix.bin`) writer.
//!
//! Layout: `[u16 lsize LE][u16 rsize LE][i16 costs LE]`, where the cost of the
//! transition from right-context id `r` to left-context id `l` is stored at
//! flat index `r + lsize * l`.

use vstd::prelude::*;
use crate::error::BuildError;
use crate::le_bytes::{le_u16, le_i16, le_i16_seq, from_le2, push_u16_le, push_i16_le, lemma_le_i16_seq_index, lemma_le_i16_roundtrip, lemma_le_u16_roundtrip};
use crate::text::{join3, usize_text};

verus! {

/// Flat index of the cost of `right_id -> left_id`.
pub open spec fn cost_index(lsize: int, right_id: int, left_id: int) -> int {
    right_id + lsize * left_id
}

/// The complete `matrix.bin` image.
pub open spec fn matrix_bin(lsize: u16, rsize: u16, costs: Seq<i16>) -> Seq<u8> {
    le_u16(lsize) + le_u16(rsize) + le_i16_seq(costs)
}

/// Set the cost of the transition `right_id -> left_id` in a flat cost array.
///
/// Exactly the cell `right_id + lsize * left_id` changes.
pub fn set_cost(costs: &mut [i16], lsize: usize, right_id: usize, left_id: usize, value: i16)
    requires
        cost_index(lsize as int, right_id as int, left_id as int) < old(costs)@.len(),
    ensures
        final(costs)@ == old(costs)@.update(cost_index(lsize as int, right_id as int, left_id as int), value),
{
    let n: usize = costs.len();
    assert(lsize * left_id <= right_id + lsize * left_id) by (nonlinear_arith)
        requires right_id >= 0, lsize >= 0, left_id >= 0;
    assert(right_id + lsize * left_id < n);
    let idx: usize = right_id + lsize * left_id;
    costs[idx] = value;
}

/// Build the `matrix.bin` byte image.
///
/// Fails with [`BuildError::InvalidInput`] exactly when `costs` does not hold
/// `lsize * rsize` cells; otherwise returns [`matrix_bin`].
pub fn build_matrix_bytes(lsize: u16, rsize: u16, costs: &[i16]) -> (r: Result<Vec<u8>, BuildError>)
    ensures
        costs@.len() != lsize * rsize <==> r matches Err(BuildError::InvalidInput(_)),
        costs@.len() == lsize * rsize ==> (r matches Ok(bytes) && bytes@ == matrix_bin(lsize, rsize, costs@)),
{
    assert(lsize * rsize <= 65535 * 65535) by (nonlinear_arith)
        requires lsize <= 65535, rsize <= 65535;
    let expected_len: usize = lsize as usize * rsize as usize;
    if costs.len() != expected_len {
        let msg = join3("costs.len() = ", &usize_text(costs.len()), " does not match lsize * rsize");
        return Err(BuildError::InvalidInput(msg));
    }
    let mut buf: Vec<u8> = Vec::new();
    push_u16_le(&mut buf, lsize);
    push_u16_le(&mut buf, rsize);
    let ghost prefix = buf@;
    let mut i: usize = 0;
    while i < costs.len()
        invariant
            i <= costs@.len(),
            buf@ == prefix + le_i16_seq(costs@.take(i as int)),
        decreases costs.len() - i,
    {
        push_i16_le(&mut buf, costs[i]);
        i += 1;
        assert(costs@.take(i as int).drop_last() =~= costs@.take(i - 1));
        assert(buf@ =~= prefix + le_i16_seq(costs@.take(i as int)));
    }
    assert(costs@.take(i as int) =~= costs@);
    Ok(buf)
}

/// Reading a built `matrix.bin` gives back its dimensions and, at the slot of
/// `right_id -> left_id`, the cost stored in that cell.
pub proof fn lemma_matrix_bin_lookup(lsize: u16, rsize: u16, costs: Seq<i16>, right_id: int, left_id: int)
    requires
        costs.len() == lsize * rsize,
        0 <= right_id < lsize,
        0 <= left_id < rsize,
    ensures
        ({
            let b = matrix_bin(lsize, rsize, costs);
            let off = 4 + 2 * cost_index(lsize as int, right_id, left_id);
            &&& b.len() == 4 + 2 * costs.len()
            &&& from_le2(b[0], b[1]) == lsize
            &&& from_le2(b[2], b[3]) == rsize
            &&& from_le2(b[off], b[off + 1]) == costs[cost_index(lsize as int, right_id, left_id)] as u16
        }),
{
    let idx = cost_index(lsize as int, right_id, left_id);
    assert(0 <= idx < lsize * rsize) by (nonlinear_arith)
        requires idx == right_id + lsize * left_id, 0 <= right_id < lsize, 0 <= left_id < rsize;
    let b = matrix_bin(lsize, rsize, costs);
    let head = le_u16(lsize) + le_u16(rsize);
    lemma_le_i16_seq_index(costs, idx);
    lemma_le_i16_roundtrip(costs[idx]);
    lemma_le_u16_roundtrip(lsize);
    lemma_le_u16_roundtrip(rsize);
    assert(b =~= head + le_i16_seq(costs));
    assert(b[0] == le_u16(lsize)[0] && b[1] == le_u16(lsize)[1]);
    assert(b[2] == le_u16(rsize)[0] && b[3] == le_u16(rsize)[1]);
    let off = 4 + 2 * idx;
    assert(b[off] == le_i16_seq(costs).subrange(2 * idx, 2 * idx + 2)[0]);
    assert(b[off + 1] == le_i16_seq(costs).subrange(2 * idx, 2 * idx + 2)[1]);
}

} // verus!
