//! When a transaction was mined and what fee it paid.

use crate::bitcoin::{Block, DecodedTransaction, Input, Output};
use crate::error::IntegrityError;
use vstd::prelude::*;

verus! {

/// The timestamp of the block that holds a transaction, and the fee that
/// the transaction paid, in satoshis.
#[derive(Clone, Copy, Debug, PartialEq, Eq, Structural)]
pub struct TransactionData {
    pub time: i64,
    pub fee: i64,
}

/// The sum of the values of some outputs.
pub open spec fn outputs_total(vout: Seq<Output>) -> int
    decreases vout.len(),
{
    if vout.len() == 0 {
        0
    } else {
        outputs_total(vout.drop_last()) + vout.last().sat
    }
}

/// `source` is the transaction that the input spends from, and has the
/// output that the input names.
pub open spec fn funds(source: DecodedTransaction, input: Input) -> bool {
    source.txid@ == input.txid@ && 0 <= input.vout < source.vout.len()
}

/// Each of `sources` is the transaction that the input at the same position
/// spends from.
pub open spec fn sources_match(vin: Seq<Input>, sources: Seq<DecodedTransaction>) -> bool {
    &&& sources.len() == vin.len()
    &&& forall|k: int| 0 <= k < vin.len() ==> (#[trigger] sources[k]).txid@ == vin[k].txid@
}

/// Each of `sources` has the output that the input at the same position
/// names.
pub open spec fn outputs_exist(vin: Seq<Input>, sources: Seq<DecodedTransaction>) -> bool {
    forall|k: int|
        0 <= k < vin.len() && k < sources.len() ==> 0 <= (#[trigger] vin[k]).vout
            < sources[k].vout.len()
}

/// The sum of the values that some inputs bring in: for each input, the
/// value of the output that it spends.
pub open spec fn inputs_total(vin: Seq<Input>, sources: Seq<DecodedTransaction>) -> int
    decreases vin.len(),
{
    if vin.len() == 0 || sources.len() != vin.len() {
        0
    } else {
        inputs_total(vin.drop_last(), sources.drop_last()) + sources.last().vout[vin.last().vout as int].sat
    }
}

/// The fee of a transaction: what its inputs bring in less what its outputs
/// pay out.
pub open spec fn fee_of(tx: DecodedTransaction, sources: Seq<DecodedTransaction>) -> int {
    inputs_total(tx.vin@, sources) - outputs_total(tx.vout@)
}

/// The value that an input brings in, read off the transaction it spends
/// from.
pub fn input_value(input: &Input, source: &DecodedTransaction) -> (r: Result<i64, IntegrityError>)
    ensures
        r is Ok <==> funds(*source, *input),
        r matches Ok(v) ==> v == source.vout[input.vout as int].sat,
        r matches Err(e) ==> e == if source.txid@ != input.txid@ {
            IntegrityError::SourceMismatch
        } else {
            IntegrityError::OutputOutOfRange
        },
{
    if !(source.txid == input.txid) {
        Err(IntegrityError::SourceMismatch)
    } else if input.vout < 0 || input.vout as u64 >= source.vout.len() as u64 {
        Err(IntegrityError::OutputOutOfRange)
    } else {
        Ok(source.vout[input.vout as usize].sat)
    }
}

/// The sum of the values of a transaction's outputs.
fn sum_outputs(vout: &Vec<Output>) -> (total: i128)
    ensures
        total == outputs_total(vout@),
        -(vout.len() * 0x8000_0000_0000_0000) <= total <= vout.len() * 0x7fff_ffff_ffff_ffff,
{
    let mut total: i128 = 0;
    let mut k: usize = 0;
    assert(vout@.take(0) =~= Seq::<Output>::empty());
    while k < vout.len()
        invariant
            k <= vout.len(),
            total == outputs_total(vout@.take(k as int)),
            -(k * 0x8000_0000_0000_0000) <= total <= k * 0x7fff_ffff_ffff_ffff,
        decreases vout.len() - k,
    {
        proof {
            let next = vout@.take(k + 1);
            assert(next.drop_last() =~= vout@.take(k as int));
            assert(next.last() == vout@[k as int]);
        }
        total = total + vout[k].sat as i128;
        k += 1;
    }
    assert(vout@.take(vout@.len() as int) =~= vout@);
    total
}

/// The sum of the values that a transaction's inputs bring in.
fn sum_inputs(vin: &Vec<Input>, sources: &Vec<DecodedTransaction>) -> (r: Result<
    i128,
    IntegrityError,
>)
    ensures
        r is Ok <==> sources_match(vin@, sources@) && outputs_exist(vin@, sources@),
        r matches Ok(total) ==> total == inputs_total(vin@, sources@) && -(vin.len()
            * 0x8000_0000_0000_0000) <= total <= vin.len() * 0x7fff_ffff_ffff_ffff,
        r matches Err(e) ==> e == if sources_match(vin@, sources@) {
            IntegrityError::OutputOutOfRange
        } else {
            IntegrityError::SourceMismatch
        },
{
    if sources.len() != vin.len() {
        return Err(IntegrityError::SourceMismatch);
    }
    let mut k: usize = 0;
    while k < vin.len()
        invariant
            k <= vin.len(),
            sources.len() == vin.len(),
            forall|j: int| 0 <= j < k ==> (#[trigger] sources@[j]).txid@ == vin@[j].txid@,
        decreases vin.len() - k,
    {
        if !(sources[k].txid == vin[k].txid) {
            return Err(IntegrityError::SourceMismatch);
        }
        k += 1;
    }
    let mut total: i128 = 0;
    k = 0;
    assert(vin@.take(0) =~= Seq::<Input>::empty());
    assert(sources@.take(0) =~= Seq::<DecodedTransaction>::empty());
    while k < vin.len()
        invariant
            k <= vin.len(),
            sources.len() == vin.len(),
            sources_match(vin@, sources@),
            forall|j: int| 0 <= j < k ==> 0 <= (#[trigger] vin@[j]).vout < sources@[j].vout.len(),
            total == inputs_total(vin@.take(k as int), sources@.take(k as int)),
            -(k * 0x8000_0000_0000_0000) <= total <= k * 0x7fff_ffff_ffff_ffff,
        decreases vin.len() - k,
    {
        proof {
            let next = vin@.take(k + 1);
            assert(next.drop_last() =~= vin@.take(k as int));
            assert(next.last() == vin@[k as int]);
            let from = sources@.take(k + 1);
            assert(from.drop_last() =~= sources@.take(k as int));
            assert(from.last() == sources@[k as int]);
        }
        match input_value(&vin[k], &sources[k]) {
            Ok(v) => {
                total = total + v as i128;
            },
            Err(e) => {
                return Err(e);
            },
        }
        k += 1;
    }
    assert(vin@.take(vin@.len() as int) =~= vin@);
    assert(sources@.take(sources@.len() as int) =~= sources@);
    Ok(total)
}

/// The time and fee of a transaction, from the block that holds it and the
/// transactions that its inputs spend from, one for each input and in the
/// order of the inputs.
///
/// Fails if `sources` are not the transactions that the inputs name, if one
/// of them lacks the output that its input names, or if the fee does not fit
/// in 64 bits, in this order.
pub fn enrich(block: &Block, tx: &DecodedTransaction, sources: &Vec<DecodedTransaction>) -> (r:
    Result<TransactionData, IntegrityError>)
    ensures
        r is Ok <==> {
            &&& sources_match(tx.vin@, sources@)
            &&& outputs_exist(tx.vin@, sources@)
            &&& i64::MIN <= fee_of(*tx, sources@) <= i64::MAX
        },
        r matches Ok(data) ==> data.time == block.time && data.fee == fee_of(*tx, sources@),
        r matches Err(e) ==> e == if !sources_match(tx.vin@, sources@) {
            IntegrityError::SourceMismatch
        } else if !outputs_exist(tx.vin@, sources@) {
            IntegrityError::OutputOutOfRange
        } else {
            IntegrityError::FeeOutOfRange
        },
{
    let brought = match sum_inputs(&tx.vin, sources) {
        Ok(total) => total,
        Err(e) => {
            return Err(e);
        },
    };
    let paid = sum_outputs(&tx.vout);
    match brought.checked_sub(paid) {
        Some(fee) => {
            if fee < i64::MIN as i128 || fee > i64::MAX as i128 {
                Err(IntegrityError::FeeOutOfRange)
            } else {
                Ok(TransactionData { time: block.time, fee: fee as i64 })
            }
        },
        None => Err(IntegrityError::FeeOutOfRange),
    }
}

} // verus!
