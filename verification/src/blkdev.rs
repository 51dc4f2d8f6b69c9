//! The block device test: whether the device is large enough, how a transfer is split into
//! one request per tag, and the data it writes. Driving the device's registers is left to
//! the caller.

use vstd::prelude::*;

verus! {

/// The size of a sector, in bytes.
pub const BLKDEV_SECTOR_SIZE: usize = 512;

/// The number of 32-bit words in a sector.
pub const WORDS_PER_SECTOR: usize = 128;

/// Why the block device cannot run the test.
#[derive(Debug, Clone, Copy, PartialEq, Eq, Structural)]
pub enum GeometryError {
    /// The device has `nsectors` sectors, fewer than the test needs.
    TooFewSectors { nsectors: u32, needed: u32 },
    /// The device takes requests of at most `max_req_len` sectors, fewer than the test needs.
    RequestTooShort { max_req_len: u32, needed: u32 },
}

/// Checks that a device of `nsectors` sectors, taking requests of up to `max_req_len`
/// sectors, can transfer `needed` sectors in one request; the sector count is checked first.
pub fn check_geometry(nsectors: u32, max_req_len: u32, needed: u32) -> (res: Result<(), GeometryError>)
    ensures
        nsectors < needed ==> res == Err::<(), GeometryError>(
            GeometryError::TooFewSectors { nsectors, needed },
        ),
        nsectors >= needed && max_req_len < needed ==> res == Err::<(), GeometryError>(
            GeometryError::RequestTooShort { max_req_len, needed },
        ),
        nsectors >= needed && max_req_len >= needed ==> res is Ok,
{
    if nsectors < needed {
        Err(GeometryError::TooFewSectors { nsectors, needed })
    } else if max_req_len < needed {
        Err(GeometryError::RequestTooShort { max_req_len, needed })
    } else {
        Ok(())
    }
}

/// One request of a transfer: `nsectors` sectors from sector `sector` of the device, to or
/// from the buffer at word `word_offset`.
#[derive(Debug, Clone, Copy, PartialEq, Eq, Structural)]
pub struct BlockRequest {
    pub word_offset: u64,
    pub sector: u32,
    pub nsectors: u32,
    pub write: bool,
}

/// The sectors of each request when `nsectors` sectors are split among `ntags` tags.
pub open spec fn sectors_per_tag(nsectors: u32, ntags: usize) -> int {
    nsectors as int / ntags as int
}

/// Splits a transfer of `nsectors` sectors from sector `offset` into `ntags` requests of
/// `nsectors / ntags` sectors each, one after the other on the device and in the buffer.
pub fn plan_requests(offset: u32, nsectors: u32, ntags: usize, write: bool) -> (reqs: Vec<BlockRequest>)
    requires
        1 <= ntags <= 255,
        offset + ntags * sectors_per_tag(nsectors, ntags) <= u32::MAX,
    ensures
        reqs@.len() == ntags,
        forall|i: int|
            0 <= i < ntags ==> #[trigger] reqs@[i] == (BlockRequest {
                word_offset: (i * sectors_per_tag(nsectors, ntags) * WORDS_PER_SECTOR) as u64,
                sector: (offset + i * sectors_per_tag(nsectors, ntags)) as u32,
                nsectors: sectors_per_tag(nsectors, ntags) as u32,
                write,
            }),
{
    let per_tag: u32 = nsectors / (ntags as u32);
    assert(per_tag == sectors_per_tag(nsectors, ntags));
    let chunk: u64 = (per_tag as u64) * (WORDS_PER_SECTOR as u64);
    let mut reqs: Vec<BlockRequest> = Vec::new();
    let mut current: u32 = offset;
    let mut i: usize = 0;
    while i < ntags
        invariant
            1 <= ntags <= 255,
            per_tag == sectors_per_tag(nsectors, ntags),
            chunk == per_tag * WORDS_PER_SECTOR,
            offset + ntags * per_tag <= u32::MAX,
            i <= ntags,
            current == offset + i * per_tag,
            reqs@.len() == i,
            forall|k: int|
                0 <= k < i ==> #[trigger] reqs@[k] == (BlockRequest {
                    word_offset: (k * per_tag * WORDS_PER_SECTOR) as u64,
                    sector: (offset + k * per_tag) as u32,
                    nsectors: per_tag,
                    write,
                }),
        decreases ntags - i,
    {
        assert(i * per_tag + per_tag <= ntags * per_tag) by (nonlinear_arith)
            requires
                i < ntags,
        ;
        assert(i * chunk <= 255 * 0x1_0000_0000 * 128) by (nonlinear_arith)
            requires
                i < 256,
                chunk == per_tag * 128,
                per_tag < 0x1_0000_0000,
        ;
        assert(i * chunk == i * per_tag * WORDS_PER_SECTOR) by (nonlinear_arith)
            requires
                chunk == per_tag * WORDS_PER_SECTOR,
        ;
        assert((i + 1) * per_tag == i * per_tag + per_tag) by (nonlinear_arith);
        let word_offset = (i as u64) * chunk;
        reqs.push(BlockRequest { word_offset, sector: current, nsectors: per_tag, write });
        current = current + per_tag;
        i += 1;
    }
    reqs
}

/// The data the block device test writes: word `i` holds `i << 8`, truncated to 32 bits.
pub fn test_pattern(n: usize) -> (data: Vec<u32>)
    ensures
        data@.len() == n,
        forall|i: int| 0 <= i < n ==> #[trigger] data@[i] == (i * 0x100) % 0x1_0000_0000,
{
    let mut data: Vec<u32> = Vec::new();
    for i in 0..n
        invariant
            data@.len() == i,
            forall|k: int| 0 <= k < i ==> #[trigger] data@[k] == (k * 0x100) % 0x1_0000_0000,
    {
        let w = i as u64;
        let v = ((w << 8u64) & 0xffff_ffff) as u32;
        assert(w < 0x1_0000_0000_0000_0000);
        assert(((w << 8u64) & 0xffff_ffff) as int == (w * 0x100) % 0x1_0000_0000) by (bit_vector);
        data.push(v);
    }
    data
}

} // verus!
