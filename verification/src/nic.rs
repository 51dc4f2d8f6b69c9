//! The SimpleNIC network interface: what its registers' words mean, and the check of a
//! loopback test. Reading and writing the registers is left to the caller.

use vstd::prelude::*;

verus! {

/// The number of free send request slots in a reading of the counts register: its low byte.
pub fn send_req_avail(counts: u32) -> (n: u32)
    ensures
        n == counts % 0x100,
{
    let n = counts & 0xff;
    assert(counts & 0xff == counts % 0x100) by (bit_vector);
    n
}

/// The number of free receive request slots in a reading of the counts register: its second
/// byte.
pub fn recv_req_avail(counts: u32) -> (n: u32)
    ensures
        n == (counts / 0x100) % 0x100,
{
    let n = (counts >> 8) & 0xff;
    assert((counts >> 8) & 0xff == (counts / 0x100) % 0x100) by (bit_vector);
    n
}

/// The number of pending send completions in a reading of the counts register: its third
/// byte.
pub fn send_comp_avail(counts: u32) -> (n: u32)
    ensures
        n == (counts / 0x1_0000) % 0x100,
{
    let n = (counts >> 16) & 0xff;
    assert((counts >> 16) & 0xff == (counts / 0x1_0000) % 0x100) by (bit_vector);
    n
}

/// The number of pending receive completions in a reading of the counts register: its high
/// byte.
pub fn recv_comp_avail(counts: u32) -> (n: u32)
    ensures
        n == counts / 0x100_0000,
{
    let n = (counts >> 24) & 0xff;
    assert((counts >> 24) & 0xff == counts / 0x100_0000) by (bit_vector);
    n
}

/// The word of a send request as `nic_send` makes it: the packet length in the top 16 bits,
/// the low 48 bits of the buffer's address below it.
pub fn send_request_word(addr: u64, len: u64) -> (word: u64)
    ensures
        word == (len % 0x1_0000) * 0x1_0000_0000_0000 + addr % 0x1_0000_0000_0000,
{
    let masked = addr & 0xffff_ffff_ffff;
    let word = (len << 48u64) | masked;
    assert((len << 48u64) | (addr & 0xffff_ffff_ffff) == (len % 0x1_0000) * 0x1_0000_0000_0000 + addr
        % 0x1_0000_0000_0000) by (bit_vector);
    word
}

/// The word of a send request as the loopback test makes it: the packet length shifted
/// into the top 16 bits, combined by bitwise or with the whole buffer address, which is
/// not masked (an address of 48 bits or more sets bits of the length field).
pub fn loopback_request_word(addr: u64, len: u64) -> (word: u64)
    ensures
        word % 0x1_0000_0000_0000 == addr % 0x1_0000_0000_0000,
        word / 0x1_0000_0000_0000 == ((len % 0x1_0000) as u64 | (addr / 0x1_0000_0000_0000) as u64),
{
    let word = (len << 48u64) | addr;
    assert(((len << 48u64) | addr) % 0x1_0000_0000_0000 == addr % 0x1_0000_0000_0000) by (bit_vector);
    assert(((len << 48u64) | addr) / 0x1_0000_0000_0000 == ((len % 0x1_0000) as u64 | (addr
        / 0x1_0000_0000_0000) as u64)) by (bit_vector);
    word
}

/// How a loopback test fails.
#[derive(Debug, Clone, Copy, PartialEq, Eq, Structural)]
pub enum LoopbackError {
    /// Packet `packet` came back with `got` bytes instead of `expected`.
    WrongLength { packet: usize, expected: u64, got: u64 },
    /// Word `word` of packet `packet` came back different from what was sent.
    Mismatch { packet: usize, word: usize },
}

/// The source buffers of the loopback test: word `j` of buffer `i` holds
/// `i * array_len + j`, truncated to 32 bits.
pub fn loopback_source(npackets: usize, array_len: usize) -> (src: Vec<Vec<u32>>)
    requires
        npackets * array_len <= usize::MAX,
    ensures
        src@.len() == npackets,
        forall|i: int| 0 <= i < npackets ==> #[trigger] src@[i]@.len() == array_len,
        forall|i: int, j: int|
            0 <= i < npackets && 0 <= j < array_len ==> #[trigger] src@[i]@[j] == (i * array_len + j)
                % 0x1_0000_0000,
{
    let mut src: Vec<Vec<u32>> = Vec::new();
    for i in 0..npackets
        invariant
            npackets * array_len <= usize::MAX,
            src@.len() == i,
            forall|k: int| 0 <= k < i ==> #[trigger] src@[k]@.len() == array_len,
            forall|k: int, j: int|
                0 <= k < i && 0 <= j < array_len ==> #[trigger] src@[k]@[j] == (k * array_len + j)
                    % 0x1_0000_0000,
    {
        assert(i * array_len + array_len <= npackets * array_len) by (nonlinear_arith)
            requires
                i < npackets,
        ;
        let base = i * array_len;
        let mut row: Vec<u32> = Vec::new();
        for j in 0..array_len
            invariant
                base == i * array_len,
                base + array_len <= usize::MAX,
                row@.len() == j,
                forall|q: int| 0 <= q < j ==> #[trigger] row@[q] == (base + q) % 0x1_0000_0000,
        {
            let v = (base + j) as u64;
            assert((v as u32) as int == v % 0x1_0000_0000) by (bit_vector);
            row.push(v as u32);
        }
        src.push(row);
    }
    src
}

/// The check of a loopback test, packet by packet: each packet must come back with
/// `expected_len` bytes, and its first `test_len` words must equal the source words from
/// `offset` on. The first failure is reported.
pub fn check_loopback(
    lengths: &[u64],
    dst: &Vec<Vec<u32>>,
    src: &Vec<Vec<u32>>,
    expected_len: u64,
    offset: usize,
    test_len: usize,
) -> (res: Result<(), LoopbackError>)
    requires
        dst@.len() == lengths@.len(),
        src@.len() == lengths@.len(),
        forall|i: int| 0 <= i < dst@.len() ==> test_len <= #[trigger] dst@[i]@.len(),
        forall|i: int| 0 <= i < src@.len() ==> offset + test_len <= #[trigger] src@[i]@.len(),
    ensures
        res is Ok <==> forall|i: int|
            0 <= i < lengths@.len() ==> #[trigger] packet_ok(lengths@[i], dst@[i]@, src@[i]@, expected_len, offset, test_len),
        res matches Err(LoopbackError::WrongLength { packet, expected, got }) ==> {
            &&& packet < lengths@.len()
            &&& expected == expected_len
            &&& got == lengths@[packet as int]
            &&& got != expected_len
            &&& forall|i: int| 0 <= i < packet ==> #[trigger] packet_ok(lengths@[i], dst@[i]@, src@[i]@, expected_len, offset, test_len)
        },
        res matches Err(LoopbackError::Mismatch { packet, word }) ==> {
            &&& packet < lengths@.len()
            &&& lengths@[packet as int] == expected_len
            &&& word < test_len
            &&& dst@[packet as int]@[word as int] != src@[packet as int]@[offset + word]
            &&& forall|j: int| 0 <= j < word ==> #[trigger] dst@[packet as int]@[j] == src@[packet as int]@[offset + j]
            &&& forall|i: int| 0 <= i < packet ==> #[trigger] packet_ok(lengths@[i], dst@[i]@, src@[i]@, expected_len, offset, test_len)
        },
{
    let n = lengths.len();
    for i in 0..n
        invariant
            n == lengths@.len(),
            dst@.len() == n,
            src@.len() == n,
            forall|i: int| 0 <= i < dst@.len() ==> test_len <= #[trigger] dst@[i]@.len(),
            forall|i: int| 0 <= i < src@.len() ==> offset + test_len <= #[trigger] src@[i]@.len(),
            forall|k: int| 0 <= k < i ==> #[trigger] packet_ok(lengths@[k], dst@[k]@, src@[k]@, expected_len, offset, test_len),
    {
        if lengths[i] != expected_len {
            assert(!packet_ok(lengths@[i as int], dst@[i as int]@, src@[i as int]@, expected_len, offset, test_len));
            return Err(LoopbackError::WrongLength { packet: i, expected: expected_len, got: lengths[i] });
        }
        let d = &dst[i];
        let s = &src[i];
        for j in 0..test_len
            invariant
                i < n,
                n == lengths@.len(),
                dst@.len() == n,
                src@.len() == n,
                lengths@[i as int] == expected_len,
                forall|k: int| 0 <= k < i ==> #[trigger] packet_ok(lengths@[k], dst@[k]@, src@[k]@, expected_len, offset, test_len),
                d@ == dst@[i as int]@,
                s@ == src@[i as int]@,
                test_len <= d@.len(),
                offset + test_len <= s.len(),
                forall|q: int| 0 <= q < j ==> #[trigger] d@[q] == s@[offset + q],
        {
            if d[j] != s[offset + j] {
                assert(!packet_ok(lengths@[i as int], dst@[i as int]@, src@[i as int]@, expected_len, offset, test_len));
                return Err(LoopbackError::Mismatch { packet: i, word: j });
            }
        }
    }
    Ok(())
}

/// Packet with received length `len`, received words `d` and sent words `s` passed the
/// loopback check.
pub open spec fn packet_ok(len: u64, d: Seq<u32>, s: Seq<u32>, expected_len: u64, offset: usize, test_len: usize) -> bool {
    &&& len == expected_len
    &&& forall|j: int| 0 <= j < test_len ==> #[trigger] d[j] == s[offset + j]
}


/// Completions of a loopback test that cannot happen: more than were requested.
#[derive(Debug, Clone, Copy, PartialEq, Eq, Structural)]
pub enum CompletionError {
    /// More send completions than sends still outstanding.
    TooManySends,
    /// A receive completion with no receive outstanding.
    TooManyReceives,
}

/// The bookkeeping of a loopback test's completions: how many sends and receives are still
/// outstanding, and the lengths of the packets received so far, in order.
pub struct CompletionTracker {
    send_left: usize,
    recv_left: usize,
    lengths: Vec<u64>,
}

impl CompletionTracker {
    /// Sends outstanding.
    pub closed spec fn spec_send_left(&self) -> nat {
        self.send_left as nat
    }

    /// Receives outstanding.
    pub closed spec fn spec_recv_left(&self) -> nat {
        self.recv_left as nat
    }

    /// Lengths of the packets received so far.
    pub closed spec fn spec_lengths(&self) -> Seq<u64> {
        self.lengths@
    }

    /// The bookkeeping after `npackets` sends and `npackets` receives were requested.
    pub fn new(npackets: usize) -> (t: CompletionTracker)
        ensures
            t.spec_send_left() == npackets,
            t.spec_recv_left() == npackets,
            t.spec_lengths() == Seq::<u64>::empty(),
    {
        CompletionTracker { send_left: npackets, recv_left: npackets, lengths: Vec::new() }
    }

    /// Records `n` send completions.
    pub fn sends_completed(&mut self, n: usize) -> (res: Result<(), CompletionError>)
        ensures
            n <= old(self).spec_send_left() ==> res is Ok && final(self).spec_send_left() == old(
                self,
            ).spec_send_left() - n,
            n > old(self).spec_send_left() ==> res == Err::<(), CompletionError>(
                CompletionError::TooManySends,
            ) && final(self).spec_send_left() == old(self).spec_send_left(),
            final(self).spec_recv_left() == old(self).spec_recv_left(),
            final(self).spec_lengths() == old(self).spec_lengths(),
    {
        if n > self.send_left {
            Err(CompletionError::TooManySends)
        } else {
            self.send_left = self.send_left - n;
            Ok(())
        }
    }

    /// Records the completion of a receive of `len` bytes.
    pub fn receive_completed(&mut self, len: u16) -> (res: Result<(), CompletionError>)
        ensures
            old(self).spec_recv_left() > 0 ==> res is Ok && final(self).spec_recv_left() == old(
                self,
            ).spec_recv_left() - 1 && final(self).spec_lengths() == old(self).spec_lengths().push(
                len as u64,
            ),
            old(self).spec_recv_left() == 0 ==> res == Err::<(), CompletionError>(
                CompletionError::TooManyReceives,
            ) && final(self).spec_recv_left() == 0 && final(self).spec_lengths() == old(
                self,
            ).spec_lengths(),
            final(self).spec_send_left() == old(self).spec_send_left(),
    {
        if self.recv_left == 0 {
            Err(CompletionError::TooManyReceives)
        } else {
            self.recv_left = self.recv_left - 1;
            self.lengths.push(len as u64);
            Ok(())
        }
    }

    /// Whether every send and every receive has completed.
    pub fn done(&self) -> (d: bool)
        ensures
            d == (self.spec_send_left() == 0 && self.spec_recv_left() == 0),
    {
        self.send_left == 0 && self.recv_left == 0
    }

    /// The lengths of the packets received, in order.
    pub fn lengths(&self) -> (l: &Vec<u64>)
        ensures
            l@ == self.spec_lengths(),
    {
        &self.lengths
    }
}

} // verus!
