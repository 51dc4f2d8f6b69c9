//! Requests to the host through HTIF (the Host-Target InterFace) proxy system calls.
//!
//! A request is a frame of eight 64-bit words, the system call number followed by its
//! arguments, whose address the target writes to `tohost`. This module decides what the
//! frames hold; writing them to the host is left to the caller.

use vstd::prelude::*;

verus! {

/// The proxy system call number of `write`.
pub const SYS_WRITE: u64 = 64;

/// The proxy system call number of `exit`.
pub const SYS_EXIT: u64 = 93;

/// A proxy system call for the host to perform.
#[derive(Debug, Clone, Copy, PartialEq, Eq, Structural)]
pub enum HostRequest {
    /// Write `len` bytes, from a buffer that the frame points to, to the host's file `fd`.
    Write { fd: u64, len: u64 },
    /// End the program with the exit status `code`.
    Exit { code: u64 },
}

/// The frame of eight words that the host reads for a request: the system call number,
/// then the arguments, then zeros. `buf_addr` is the address of the bytes that a write
/// request sends.
pub open spec fn spec_frame(req: HostRequest, buf_addr: u64) -> Seq<u64> {
    match req {
        HostRequest::Write { fd, len } => seq![SYS_WRITE, fd, buf_addr, len, 0, 0, 0, 0],
        HostRequest::Exit { code } => seq![SYS_EXIT, code, 0, 0, 0, 0, 0, 0],
    }
}

impl HostRequest {
    /// The frame of eight words that the host reads for this request.
    pub fn syscall_frame(&self, buf_addr: u64) -> (frame: [u64; 8])
        ensures
            frame@ == spec_frame(*self, buf_addr),
    {
        let frame = match *self {
            HostRequest::Write { fd, len } => [SYS_WRITE, fd, buf_addr, len, 0, 0, 0, 0],
            HostRequest::Exit { code } => [SYS_EXIT, code, 0, 0, 0, 0, 0, 0],
        };
        assert(frame@ =~= spec_frame(*self, buf_addr));
        frame
    }
}

/// A file of the host, by its descriptor.
#[derive(Debug, Clone, Copy, PartialEq, Eq, Structural)]
pub struct HostFile {
    fd: u64,
}

impl HostFile {
    /// The host file with descriptor `fd`.
    pub fn from_fd(fd: u64) -> (file: HostFile)
        ensures
            file.fd() == fd,
    {
        HostFile { fd }
    }

    /// The host's standard output, descriptor 1.
    pub fn stdout() -> (file: HostFile)
        ensures
            file.fd() == 1,
    {
        HostFile::from_fd(1)
    }

    /// The descriptor of this file.
    #[verifier::when_used_as_spec(spec_fd)]
    pub fn fd(&self) -> (fd: u64)
        ensures
            fd == self.spec_fd(),
    {
        self.fd
    }

    /// The descriptor of this file.
    pub closed spec fn spec_fd(&self) -> u64 {
        self.fd
    }

    /// The request that writes the string `s` to this file.
    pub fn write_request(&self, s: &str) -> (req: HostRequest)
        ensures
            req == (HostRequest::Write { fd: self.spec_fd(), len: s.len() as u64 }),
    {
        write(self.fd, s)
    }
}

/// The request that writes the bytes of the string `s` to the host file `fd`.
pub fn write(fd: u64, s: &str) -> (req: HostRequest)
    ensures
        req == (HostRequest::Write { fd, len: s.len() as u64 }),
{
    let len = s.len();
    HostRequest::Write { fd, len: len as u64 }
}

/// The request that ends the program with the exit status `code`.
pub fn exit(code: u64) -> (req: HostRequest)
    ensures
        req == (HostRequest::Exit { code }),
{
    HostRequest::Exit { code }
}

/// The word written to `tohost` to report failure `n` to the host: `2n + 1`, in two's
/// complement.
pub fn fail_word(n: i64) -> (word: u64)
    requires
        i64::MIN <= 2 * n + 1 <= i64::MAX,
    ensures
        word == (2 * n + 1) as u64,
{
    (n * 2 + 1) as u64
}

} // verus!
