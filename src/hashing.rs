//! Deterministic derivation of 32-byte game identifiers from the execution
//! context and the issuance counter.

use vstd::prelude::*;

verus! {

/// The 32-byte BLAKE2b digest of `data`.
pub uninterp spec fn blake2_256_of(data: Seq<u8>) -> Seq<u8>;

/// Relies on `sp_crypto_hashing::blake2_256`: the BLAKE2b-256 digest of
/// `data`, which depends on `data` alone.
#[verifier::external_body]
fn blake2_256(data: &[u8]) -> (r: [u8; 32])
    ensures
        r@ == blake2_256_of(data@),
{
    sp_crypto_hashing::blake2_256(data)
}

/// The ambient values that the host supplies for the duration of one call.
#[derive(Clone, Copy, Debug, PartialEq, Eq)]
pub struct ExecutionContext {
    pub parent_hash: [u8; 32],
    pub block_number: u64,
    pub extrinsic_index: Option<u32>,
}

/// The `n` low bytes of `x`, least significant first.
pub open spec fn le_bytes(x: nat, n: nat) -> Seq<u8>
    decreases n,
{
    if n == 0 {
        Seq::empty()
    } else {
        seq![(x % 256) as u8] + le_bytes(x / 256, (n - 1) as nat)
    }
}

/// The encoding of an optional index: a tag byte, then the value.
pub open spec fn option_bytes(o: Option<u32>) -> Seq<u8> {
    match o {
        None => seq![0u8],
        Some(i) => seq![1u8] + le_bytes(i as nat, 4),
    }
}

/// The bytes hashed to make a key: parent hash, block number, call index
/// and issuance counter, each in its fixed little-endian encoding.
pub open spec fn key_payload(ctx: ExecutionContext, count: u32) -> Seq<u8> {
    ctx.parent_hash@ + le_bytes(ctx.block_number as nat, 8) + option_bytes(ctx.extrinsic_index)
        + le_bytes(count as nat, 4)
}

/// Appends the `n` low bytes of `x`, least significant first.
fn push_le_bytes(out: &mut Vec<u8>, x: u64, n: usize)
    ensures
        final(out)@ == old(out)@ + le_bytes(x as nat, n as nat),
{
    let mut cur: u64 = x;
    let mut i: usize = 0;
    while i < n
        invariant
            i <= n,
            out@ + le_bytes(cur as nat, (n - i) as nat) == old(out)@ + le_bytes(x as nat, n as nat),
        decreases n - i,
    {
        let ghost before = out@;
        out.push((cur % 256) as u8);
        proof {
            assert(le_bytes(cur as nat, (n - i) as nat) == seq![(cur % 256) as u8] + le_bytes(
                (cur / 256) as nat,
                (n - i - 1) as nat,
            ));
            assert(out@ + le_bytes((cur / 256) as nat, (n - i - 1) as nat) =~= before + le_bytes(
                cur as nat,
                (n - i) as nat,
            ));
        }
        cur = cur / 256;
        i = i + 1;
    }
    assert(le_bytes(cur as nat, 0) =~= Seq::<u8>::empty());
    assert(out@ =~= out@ + le_bytes(cur as nat, 0));
}

/// The bytes that `gen_key` hashes.
pub fn key_payload_bytes(ctx: &ExecutionContext, count: u32) -> (r: Vec<u8>)
    ensures
        r@ == key_payload(*ctx, count),
{
    let mut out: Vec<u8> = Vec::new();
    let mut i: usize = 0;
    while i < 32
        invariant
            i <= 32,
            out@ =~= ctx.parent_hash@.subrange(0, i as int),
        decreases 32 - i,
    {
        out.push(ctx.parent_hash[i]);
        i = i + 1;
    }
    assert(out@ =~= ctx.parent_hash@);
    push_le_bytes(&mut out, ctx.block_number, 8);
    match ctx.extrinsic_index {
        None => {
            out.push(0u8);
            assert(seq![0u8] =~= option_bytes(ctx.extrinsic_index));
        },
        Some(idx) => {
            out.push(1u8);
            push_le_bytes(&mut out, idx as u64, 4);
        },
    }
    push_le_bytes(&mut out, count as u64, 4);
    assert(out@ =~= key_payload(*ctx, count));
    out
}

/// Derives a game key from the execution context and the issuance counter.
pub fn gen_key(ctx: &ExecutionContext, count: u32) -> (r: [u8; 32])
    ensures
        r@ == blake2_256_of(key_payload(*ctx, count)),
{
    let payload = key_payload_bytes(ctx, count);
    blake2_256(payload.as_slice())
}

} // verus!
