//! The blocks of bytes that codewords carry.
use crate::ldpc::LdpcCode;
use crate::util;
use vstd::prelude::*;

verus! {

/// Why a code carries no block of bytes.
#[derive(Clone, Copy, Debug, PartialEq, Eq)]
pub enum EnvelopeError {
    NotByteAligned { k: usize },
    TooSmall { k: usize },
    PayloadTooLarge { len: usize, cap: usize },
}

/// The bytes that the information bits of a codeword hold.
pub fn ldpc_info_bytes(code: &LdpcCode) -> (r: Result<usize, EnvelopeError>)
    ensures
        r == if code.k % 8 != 0 {
            Err::<usize, EnvelopeError>(EnvelopeError::NotByteAligned { k: code.k })
        } else {
            Ok::<usize, EnvelopeError>((code.k / 8) as usize)
        },
{
    if code.k % 8 != 0 {
        return Err(EnvelopeError::NotByteAligned { k: code.k });
    }
    Ok(code.k / 8)
}

/// What a codeword can carry for the stream: all its bytes, at least one.
pub open spec fn payload_capacity(k: usize) -> Result<usize, EnvelopeError> {
    if k % 8 != 0 {
        Err(EnvelopeError::NotByteAligned { k })
    } else if k / 8 == 0 {
        Err(EnvelopeError::TooSmall { k })
    } else {
        Ok((k / 8) as usize)
    }
}

pub fn ldpc_user_payload_bytes(code: &LdpcCode) -> (r: Result<usize, EnvelopeError>)
    ensures
        r == payload_capacity(code.k),
{
    match ldpc_info_bytes(code) {
        Ok(n) => {
            if n == 0 {
                Err(EnvelopeError::TooSmall { k: code.k })
            } else {
                Ok(n)
            }
        },
        Err(e) => Err(e),
    }
}

/// A payload filled up with zeros.
pub open spec fn padded(payload: Seq<u8>, n: nat) -> Seq<u8> {
    Seq::new(
        n,
        |i: int|
            if i < payload.len() {
                payload[i]
            } else {
                0
            },
    )
}

/// Replaces `out` by the block of a payload. Where there is none, `out` stays as it is.
pub fn pack_cw_info_block_into(code: &LdpcCode, payload: &[u8], out: &mut Vec<u8>) -> (r: Result<
    (),
    EnvelopeError,
>)
    ensures
        match payload_capacity(code.k) {
            Err(e) => r == Err::<(), EnvelopeError>(e) && final(out)@ == old(out)@,
            Ok(cap) => if payload@.len() > cap {
                r == Err::<(), EnvelopeError>(
                    EnvelopeError::PayloadTooLarge { len: payload@.len() as usize, cap },
                ) && final(out)@ == old(out)@
            } else {
                r == Ok::<(), EnvelopeError>(()) && final(out)@ == padded(payload@, cap as nat)
            },
        },
{
    let cap: usize = match ldpc_user_payload_bytes(code) {
        Ok(c) => c,
        Err(e) => {
            return Err(e);
        },
    };
    if payload.len() > cap {
        return Err(EnvelopeError::PayloadTooLarge { len: payload.len(), cap });
    }
    out.clear();
    util::append_all(out, payload);
    out.resize(cap, 0);
    assert(out@ =~= padded(payload@, cap as nat));
    Ok(())
}

pub fn pack_cw_info_block(code: &LdpcCode, payload: &[u8]) -> (r: Result<Vec<u8>, EnvelopeError>)
    ensures
        match payload_capacity(code.k) {
            Err(e) => r == Err::<Vec<u8>, EnvelopeError>(e),
            Ok(cap) => if payload@.len() > cap {
                r == Err::<Vec<u8>, EnvelopeError>(
                    EnvelopeError::PayloadTooLarge { len: payload@.len() as usize, cap },
                )
            } else {
                r is Ok && r->Ok_0@ == padded(payload@, cap as nat)
            },
        },
{
    let mut b: Vec<u8> = Vec::new();
    match pack_cw_info_block_into(code, payload, &mut b) {
        Ok(_) => Ok(b),
        Err(e) => Err(e),
    }
}

/// Bytes are the block of a codeword where they are as many as a codeword holds.
pub open spec fn is_block(k: usize, bytes: Seq<u8>) -> bool {
    k % 8 == 0 && bytes.len() == k / 8
}

pub fn unpack_cw_info_block_view<'a>(code: &LdpcCode, bytes: &'a [u8]) -> (r: Option<&'a [u8]>)
    ensures
        match r {
            Some(b) => is_block(code.k, bytes@) && b@ == bytes@,
            None => !is_block(code.k, bytes@),
        },
{
    match ldpc_info_bytes(code) {
        Ok(n) => {
            if bytes.len() != n {
                None
            } else {
                Some(bytes)
            }
        },
        Err(_) => None,
    }
}

pub fn unpack_cw_info_block(code: &LdpcCode, bytes: &[u8]) -> (r: Option<Vec<u8>>)
    ensures
        match r {
            Some(b) => is_block(code.k, bytes@) && b@ == bytes@,
            None => !is_block(code.k, bytes@),
        },
{
    match unpack_cw_info_block_view(code, bytes) {
        Some(b) => {
            let v: Vec<u8> = util::copy_range(b, 0, b.len());
            assert(v@ =~= bytes@);
            Some(v)
        },
        None => None,
    }
}

/// A packed block is one that is unpacked, and starts with its payload.
pub proof fn law_block_round_trip(k: usize, payload: Seq<u8>)
    requires
        payload_capacity(k) is Ok,
        payload.len() <= payload_capacity(k)->Ok_0,
    ensures
        is_block(k, padded(payload, payload_capacity(k)->Ok_0 as nat)),
        padded(payload, payload_capacity(k)->Ok_0 as nat).take(payload.len() as int) == payload,
        forall|i: int|
            payload.len() <= i < payload_capacity(k)->Ok_0 ==> #[trigger] padded(
                payload,
                payload_capacity(k)->Ok_0 as nat,
            )[i] == 0,
{
    assert(padded(payload, payload_capacity(k)->Ok_0 as nat).take(payload.len() as int)
        =~= payload);
}

/// A codeword carries all its information bits, where they are whole bytes and at least one.
pub proof fn law_codeword_is_filled(k: usize)
    ensures
        payload_capacity(k) is Ok <==> k % 8 == 0 && k >= 8,
        payload_capacity(k) is Ok ==> 8 * payload_capacity(k)->Ok_0 == k,
{
}

/// A payload that is filled up starts with the payload, and the rest is zero.
pub proof fn law_filling_is_behind(payload: Seq<u8>, n: nat)
    requires
        payload.len() <= n,
    ensures
        padded(payload, n).len() == n,
        padded(payload, n).take(payload.len() as int) == payload,
        forall|i: int| payload.len() <= i < n ==> #[trigger] padded(payload, n)[i] == 0,
{
    assert(padded(payload, n).take(payload.len() as int) =~= payload);
}

} // verus!
