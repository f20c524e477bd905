//! What this crate takes on trust: the calls into `bytemuck` and into the
//! standard library, each with the contract that the proofs rest on. Verus
//! believes these contracts and does not look into the bodies.

use bytemuck::PodCastError;
use crate::bytes::le_bytes;
use vstd::prelude::*;
use vstd::utf8::{decode_utf8, valid_utf8};

verus! {

/// The error of a failed `bytemuck` cast.
#[verifier::external_type_specification]
#[verifier::external_body]
pub struct ExPodCastError(PodCastError);

/// `PodCastError` is `Copy`, and its `clone` is the copy.
pub assume_specification[ <PodCastError as Clone>::clone ](e: &PodCastError) -> (r: PodCastError)
    ensures
        r == *e,
;

/// Calls `bytemuck::bytes_of` on `x`. `bytes_of` hands out the one byte of its
/// argument, so the result is `x` in two's complement.
#[verifier::external_body]
pub(crate) fn bytes_of_i8(x: i8) -> (out: Vec<u8>)
    ensures
        out@ == le_bytes(x as int, 1),
{
    bytemuck::bytes_of(&x).to_vec()
}

/// Calls `bytemuck::bytes_of` on `x`. `bytes_of` hands out the one byte of its
/// argument, so the result is `x` in base 256.
#[verifier::external_body]
pub(crate) fn bytes_of_u8(x: u8) -> (out: Vec<u8>)
    ensures
        out@ == le_bytes(x as int, 1),
{
    bytemuck::bytes_of(&x).to_vec()
}

/// Calls `bytemuck::bytes_of` on `x` put in little-endian order. `bytes_of`
/// hands out the two bytes of its argument as they lie in memory, so on every
/// target the result is `x` in two's complement, least significant byte first.
#[verifier::external_body]
pub(crate) fn bytes_of_i16(x: i16) -> (out: Vec<u8>)
    ensures
        out@ == le_bytes(x as int, 2),
{
    bytemuck::bytes_of(&x.to_le()).to_vec()
}

/// Calls `bytemuck::bytes_of` on `x` put in little-endian order. `bytes_of`
/// hands out the two bytes of its argument as they lie in memory, so on every
/// target the result is `x` in base 256, least significant byte first.
#[verifier::external_body]
pub(crate) fn bytes_of_u16(x: u16) -> (out: Vec<u8>)
    ensures
        out@ == le_bytes(x as int, 2),
{
    bytemuck::bytes_of(&x.to_le()).to_vec()
}

/// Calls `bytemuck::bytes_of` on `x` put in little-endian order. `bytes_of`
/// hands out the four bytes of its argument as they lie in memory, so on every
/// target the result is `x` in two's complement, least significant byte first.
#[verifier::external_body]
pub(crate) fn bytes_of_i32(x: i32) -> (out: Vec<u8>)
    ensures
        out@ == le_bytes(x as int, 4),
{
    bytemuck::bytes_of(&x.to_le()).to_vec()
}

/// Calls `bytemuck::bytes_of` on `x` put in little-endian order. `bytes_of`
/// hands out the four bytes of its argument as they lie in memory, so on every
/// target the result is `x` in base 256, least significant byte first.
#[verifier::external_body]
pub(crate) fn bytes_of_u32(x: u32) -> (out: Vec<u8>)
    ensures
        out@ == le_bytes(x as int, 4),
{
    bytemuck::bytes_of(&x.to_le()).to_vec()
}

/// Calls `bytemuck::bytes_of` on `x` put in little-endian order. `bytes_of`
/// hands out the eight bytes of its argument as they lie in memory, so on
/// every target the result is `x` in two's complement, least significant byte
/// first.
#[verifier::external_body]
pub(crate) fn bytes_of_i64(x: i64) -> (out: Vec<u8>)
    ensures
        out@ == le_bytes(x as int, 8),
{
    bytemuck::bytes_of(&x.to_le()).to_vec()
}

/// Calls `bytemuck::bytes_of` on `x` put in little-endian order. `bytes_of`
/// hands out the eight bytes of its argument as they lie in memory, so on
/// every target the result is `x` in base 256, least significant byte first.
#[verifier::external_body]
pub(crate) fn bytes_of_u64(x: u64) -> (out: Vec<u8>)
    ensures
        out@ == le_bytes(x as int, 8),
{
    bytemuck::bytes_of(&x.to_le()).to_vec()
}

/// Calls `bytemuck::try_from_bytes::<i8>`, which fails when `data` is not one
/// byte long and else hands out that byte as an `i8`: a type of alignment one
/// is aligned at every address.
#[verifier::external_body]
pub(crate) fn from_bytes_i8(data: &[u8]) -> (r: Result<i8, PodCastError>)
    ensures
        r is Ok <==> data@.len() == 1,
        r matches Ok(v) ==> le_bytes(v as int, 1) == data@,
{
    bytemuck::try_from_bytes::<i8>(data).copied()
}

/// Calls `bytemuck::try_pod_read_unaligned::<i16>`, which fails exactly when
/// `data` is not two bytes long and else reads them as an `i16` in memory
/// order, whatever their address; the value is then taken as little-endian, so
/// on every target it is the number whose bytes `data` are, least significant
/// byte first.
#[verifier::external_body]
pub(crate) fn pod_read_i16(data: &[u8]) -> (r: Result<i16, PodCastError>)
    ensures
        r is Ok <==> data@.len() == 2,
        r matches Ok(v) ==> le_bytes(v as int, 2) == data@,
{
    bytemuck::try_pod_read_unaligned::<i16>(data).map(i16::from_le)
}

/// Calls `bytemuck::try_pod_read_unaligned::<u16>`, which fails exactly when
/// `data` is not two bytes long and else reads them as a `u16` in memory
/// order, whatever their address; the value is then taken as little-endian, so
/// on every target it is the number whose bytes `data` are, least significant
/// byte first.
#[verifier::external_body]
pub(crate) fn pod_read_u16(data: &[u8]) -> (r: Result<u16, PodCastError>)
    ensures
        r is Ok <==> data@.len() == 2,
        r matches Ok(v) ==> le_bytes(v as int, 2) == data@,
{
    bytemuck::try_pod_read_unaligned::<u16>(data).map(u16::from_le)
}

/// Calls `bytemuck::try_pod_read_unaligned::<i32>`, which fails exactly when
/// `data` is not four bytes long and else reads them as an `i32` in memory
/// order, whatever their address; the value is then taken as little-endian, so
/// on every target it is the number whose bytes `data` are, least significant
/// byte first.
#[verifier::external_body]
pub(crate) fn pod_read_i32(data: &[u8]) -> (r: Result<i32, PodCastError>)
    ensures
        r is Ok <==> data@.len() == 4,
        r matches Ok(v) ==> le_bytes(v as int, 4) == data@,
{
    bytemuck::try_pod_read_unaligned::<i32>(data).map(i32::from_le)
}

/// Calls `bytemuck::try_pod_read_unaligned::<u32>`, which fails exactly when
/// `data` is not four bytes long and else reads them as a `u32` in memory
/// order, whatever their address; the value is then taken as little-endian, so
/// on every target it is the number whose bytes `data` are, least significant
/// byte first.
#[verifier::external_body]
pub(crate) fn pod_read_u32(data: &[u8]) -> (r: Result<u32, PodCastError>)
    ensures
        r is Ok <==> data@.len() == 4,
        r matches Ok(v) ==> le_bytes(v as int, 4) == data@,
{
    bytemuck::try_pod_read_unaligned::<u32>(data).map(u32::from_le)
}

/// Calls `bytemuck::try_pod_read_unaligned::<i64>`, which fails exactly when
/// `data` is not eight bytes long and else reads them as an `i64` in memory
/// order, whatever their address; the value is then taken as little-endian, so
/// on every target it is the number whose bytes `data` are, least significant
/// byte first.
#[verifier::external_body]
pub(crate) fn pod_read_i64(data: &[u8]) -> (r: Result<i64, PodCastError>)
    ensures
        r is Ok <==> data@.len() == 8,
        r matches Ok(v) ==> le_bytes(v as int, 8) == data@,
{
    bytemuck::try_pod_read_unaligned::<i64>(data).map(i64::from_le)
}

/// Calls `bytemuck::try_pod_read_unaligned::<u64>`, which fails exactly when
/// `data` is not eight bytes long and else reads them as a `u64` in memory
/// order, whatever their address; the value is then taken as little-endian, so
/// on every target it is the number whose bytes `data` are, least significant
/// byte first.
#[verifier::external_body]
pub(crate) fn pod_read_u64(data: &[u8]) -> (r: Result<u64, PodCastError>)
    ensures
        r is Ok <==> data@.len() == 8,
        r matches Ok(v) ==> le_bytes(v as int, 8) == data@,
{
    bytemuck::try_pod_read_unaligned::<u64>(data).map(u64::from_le)
}

/// Calls `String::from_utf8`, which hands back the text that `bytes` hold
/// where they are UTF-8, and fails where they are not.
#[verifier::external_body]
pub(crate) fn string_from_utf8(bytes: Vec<u8>) -> (r: Option<String>)
    ensures
        r is Some <==> valid_utf8(bytes@),
        r matches Some(s) ==> s@ == decode_utf8(bytes@),
{
    String::from_utf8(bytes).ok()
}

} // verus!
