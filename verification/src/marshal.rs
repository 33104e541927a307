//! The marshaling stage of the harness: given the outcome of an extraction
//! function and the shared buffer, it serializes a successful result into the
//! buffer's prefix — never past its capacity — and folds every outcome into
//! the single signed status code. `status_of` and `buffer_after` specify the
//! stage exactly, so the status and the bytes are functions of the outcome
//! and the buffer alone.

use vstd::prelude::*;
use crate::STATUS_FAULT;
use crate::STATUS_NOT_APPLICABLE;
use crate::STATUS_TOO_LARGE;
use crate::encode::encode_result;
use crate::encode::encoding_of;
use crate::records::ExtractError;
use crate::records::ExtractionResult;

verus! {

/// The status code owed for outcome `res` and capacity `cap`: the byte count
/// when the encoding fits, the too-large sentinel when it does not, the
/// not-applicable sentinel for a "no result" outcome, and the fault sentinel
/// for both hard domain faults.
pub open spec fn status_of(res: Result<ExtractionResult, ExtractError>, cap: int) -> int {
    match res {
        Result::Ok(r) => if encoding_of(r).len() <= cap {
            encoding_of(r).len() as int
        } else {
            STATUS_TOO_LARGE as int
        },
        Result::Err(ExtractError::NotApplicable) => STATUS_NOT_APPLICABLE as int,
        Result::Err(ExtractError::AuthRequired) => STATUS_FAULT as int,
        Result::Err(ExtractError::Malformed) => STATUS_FAULT as int,
    }
}

/// The buffer contents owed after marshaling: the encoding written at offset
/// zero when it fits, and the buffer untouched on every failure — no partial
/// or truncated output is ever exposed.
pub open spec fn buffer_after(
    res: Result<ExtractionResult, ExtractError>,
    buf: Seq<u8>,
) -> Seq<u8> {
    match res {
        Result::Ok(r) => if encoding_of(r).len() <= buf.len() {
            encoding_of(r) + buf.skip(encoding_of(r).len() as int)
        } else {
            buf
        },
        Result::Err(_) => buf,
    }
}

/// Serializes a successful outcome into the buffer prefix and reports the
/// single status code; the capacity invariant (never write past `buf.len()`)
/// is enforced by checking the encoded size before the first byte is
/// written.
pub fn marshal_result(res: &Result<ExtractionResult, ExtractError>, buf: &mut Vec<u8>) -> (status:
    i32)
    requires
        old(buf)@.len() <= i32::MAX,
    ensures
        status == status_of(*res, old(buf)@.len() as int),
        final(buf)@ == buffer_after(*res, old(buf)@),
        final(buf)@.len() == old(buf)@.len(),
        status >= 0 ==> res is Ok && status == encoding_of(res->Ok_0).len() && final(buf)@.subrange(
            0,
            status as int,
        ) == encoding_of(res->Ok_0),
        status < 0 ==> final(buf)@ == old(buf)@,
{
    match res {
        Result::Err(ExtractError::NotApplicable) => STATUS_NOT_APPLICABLE,
        Result::Err(ExtractError::AuthRequired) => STATUS_FAULT,
        Result::Err(ExtractError::Malformed) => STATUS_FAULT,
        Result::Ok(r) => {
            let out = encode_result(r);
            if out.len() > buf.len() {
                STATUS_TOO_LARGE
            } else {
                let n = out.len();
                let mut i: usize = 0;
                while i < n
                    invariant
                        i <= n == out@.len() <= buf@.len(),
                        out@ == encoding_of(*r),
                        buf@.len() == old(buf)@.len(),
                        forall|k: int| 0 <= k < i ==> buf@[k] == out@[k],
                        forall|k: int| i <= k < buf@.len() ==> buf@[k] == old(buf)@[k],
                    decreases n - i,
                {
                    buf.set(i, out[i]);
                    i = i + 1;
                }
                assert(buf@ =~= encoding_of(*r) + old(buf)@.skip(encoding_of(*r).len() as int));
                assert(buf@.subrange(0, n as int) =~= encoding_of(*r));
                n as i32
            }
        },
    }
}

/// The three failure sentinels are pairwise distinct, stable, and strictly
/// negative, so a non-negative status always means success.
pub proof fn lemma_sentinels_distinct()
    ensures
        STATUS_NOT_APPLICABLE < 0,
        STATUS_FAULT < 0,
        STATUS_TOO_LARGE < 0,
        STATUS_NOT_APPLICABLE != STATUS_FAULT,
        STATUS_NOT_APPLICABLE != STATUS_TOO_LARGE,
        STATUS_FAULT != STATUS_TOO_LARGE,
{
}

/// When the serialized size fits the capacity, marshaling reports exactly
/// that size and the buffer prefix holds exactly the independently specified
/// encoding.
pub proof fn lemma_success_exact(r: ExtractionResult, buf: Seq<u8>)
    requires
        encoding_of(r).len() <= buf.len(),
    ensures
        status_of(Result::Ok(r), buf.len() as int) == encoding_of(r).len(),
        buffer_after(Result::Ok(r), buf).subrange(0, encoding_of(r).len() as int) == encoding_of(
            r,
        ),
        buffer_after(Result::Ok(r), buf).len() == buf.len(),
{
    assert(buffer_after(Result::Ok(r), buf).subrange(0, encoding_of(r).len() as int)
        =~= encoding_of(r));
    assert(buffer_after(Result::Ok(r), buf) =~= encoding_of(r) + buf.skip(
        encoding_of(r).len() as int,
    ));
}

/// When the serialized size exceeds the capacity, marshaling reports the
/// too-large sentinel and leaves every byte of the buffer as it was: output
/// is never silently truncated.
pub proof fn lemma_too_large_untouched(r: ExtractionResult, buf: Seq<u8>)
    requires
        encoding_of(r).len() > buf.len(),
    ensures
        status_of(Result::Ok(r), buf.len() as int) == STATUS_TOO_LARGE,
        buffer_after(Result::Ok(r), buf) == buf,
{
}

/// A "no result" outcome always maps to the not-applicable sentinel — never
/// to the success path — and the buffer is untouched.
pub proof fn lemma_not_applicable_never_success(buf: Seq<u8>)
    ensures
        status_of(Result::Err(ExtractError::NotApplicable), buf.len() as int)
            == STATUS_NOT_APPLICABLE,
        status_of(Result::Err(ExtractError::NotApplicable), buf.len() as int) < 0,
        buffer_after(Result::Err(ExtractError::NotApplicable), buf) == buf,
{
}

/// Both hard domain faults — an authentication wall deliberately signalled
/// by an extraction function, and malformed structure — are folded into the
/// single fault sentinel.
pub proof fn lemma_fault_contained(e: ExtractError, buf: Seq<u8>)
    requires
        e != ExtractError::NotApplicable,
    ensures
        status_of(Result::Err(e), buf.len() as int) == STATUS_FAULT,
        buffer_after(Result::Err(e), buf) == buf,
{
}

/// Marshaling holds no state across calls: identical outcomes and identical
/// buffers yield an identical status and identical bytes.
pub proof fn lemma_marshal_deterministic(
    res1: Result<ExtractionResult, ExtractError>,
    res2: Result<ExtractionResult, ExtractError>,
    buf1: Seq<u8>,
    buf2: Seq<u8>,
)
    requires
        res1 == res2,
        buf1 == buf2,
    ensures
        status_of(res1, buf1.len() as int) == status_of(res2, buf2.len() as int),
        buffer_after(res1, buf1) == buffer_after(res2, buf2),
{
}

} // verus!
