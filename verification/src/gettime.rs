//! The memory workload run between two switches of the process and thread
//! switch benchmarks.
use vstd::prelude::*;

verus! {

/// Bytes of one workload buffer: 64 blocks of 256 bytes.
pub const BUF_SIZE: usize = 0x100 * 64;

/// The block of `buf` that round `idx` touches: block `idx mod 64`.
pub open spec fn block_of(idx: usize, p: int) -> bool {
    (idx % 64) * 0x100 <= p < (idx % 64) * 0x100 + 0x100
}

/// Law: round `idx` touches block `idx mod 64`: the 256 bytes from
/// `(idx % 64) * 256`, so every one of the 64 blocks is reached.
pub proof fn lemma_block_of(idx: usize, p: int)
    ensures
        block_of(idx, p) <==> (idx % 64) * 256 <= p < (idx % 64) * 256 + 256,
        block_of(idx, p) ==> 0 <= p < BUF_SIZE,
{
}

/// Increments every byte of block `idx mod 64` of `buf`, wrapping from 255 to 0.
pub fn work_load(buf: &mut [u8; BUF_SIZE], idx: usize)
    ensures
        forall|p: int|
            0 <= p < BUF_SIZE ==> #[trigger] final(buf)@[p] == if block_of(idx, p) {
                ((old(buf)@[p] + 1) % 256) as u8
            } else {
                old(buf)@[p]
            },
        forall|p: int|
            0 <= p < BUF_SIZE ==> #[trigger] final(buf)@[p] == if (idx % 64) * 256 <= p < (idx % 64)
                * 256 + 256 {
                ((old(buf)@[p] + 1) % 256) as u8
            } else {
                old(buf)@[p]
            },
{
    let blk = idx % 64;
    let ghost b0 = buf@;
    for i in 0..0x100
        invariant
            blk == idx % 64,
            forall|p: int|
                0 <= p < BUF_SIZE ==> #[trigger] buf@[p] == if blk * 0x100 <= p < blk * 0x100 + i {
                    ((b0[p] + 1) % 256) as u8
                } else {
                    b0[p]
                },
    {
        let k = blk * 0x100 + i;
        let v: u8 = buf[k];
        let w: u8 = v.wrapping_add(1);
        assert(w == (v + 1) % 256);
        buf[k] = w;
    }
}

} // verus!
