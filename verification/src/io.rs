//! Random access to the bytes of a file.

use vstd::prelude::*;

verus! {

/// Errors of std's input and output.
#[verifier::external_type_specification]
#[verifier::external_body]
pub struct ExIoError(std::io::Error);

/// Minimal random-access read abstraction.
pub trait ReadRange {
    /// The bytes that can be read.
    spec fn content(&self) -> Seq<u8>;

    /// Whether the bytes from `lo` to below `hi` are sure to be had: reading
    /// them cannot fail.
    spec fn sure(&self, lo: int, hi: int) -> bool;

    /// The bytes from `offset` on, `len` of them.
    fn read_range(&mut self, offset: u64, len: usize) -> (r: Result<Vec<u8>, std::io::Error>)
        ensures
            final(self).content() == old(self).content(),
            old(self).sure(offset as int, offset + len) ==> r is Ok,
            r is Ok ==> offset + len <= old(self).content().len() && r->Ok_0@ == old(
                self,
            ).content().subrange(offset as int, offset + len),
    ;

    /// Number of bytes that can be read.
    fn len(&self) -> (r: u64)
        ensures
            r == self.content().len(),
    ;

    /// Whether there is nothing to read.
    fn is_empty(&self) -> (r: bool)
        ensures
            r == (self.content().len() == 0),
    {
        self.len() == 0
    }
}

/// Size of the initial header read. CR3 `moov` (incl. Canon makernotes)
/// typically fits well within this.
pub const HEADER_READ: usize = 262144;

/// How many bytes of a file of the given size the initial header read takes.
pub fn header_len(size: u64) -> (r: usize)
    ensures
        r == (if size < HEADER_READ {
            size as int
        } else {
            HEADER_READ as int
        }),
        r <= size,
        r <= 262144,
        r == size || r == 262144,
{
    if size < HEADER_READ as u64 {
        size as usize
    } else {
        HEADER_READ
    }
}

/// Where a range of a file is to be had whose header is in memory.
#[derive(Debug, Clone, Copy, PartialEq, Eq, Structural)]
pub enum ReadPlan {
    /// In the header, from this index on.
    Cached(usize),
    /// In the file; it has to be read.
    Fetch,
    /// Beyond the end of the file.
    PastEnd,
}

/// Decides where the range of `len` bytes at `offset` is to be had.
pub fn plan_read(cached: usize, size: u64, offset: u64, len: usize) -> (r: ReadPlan)
    ensures
        r == (if offset + len <= cached {
            ReadPlan::Cached(offset as usize)
        } else if offset + len <= size {
            ReadPlan::Fetch
        } else {
            ReadPlan::PastEnd
        }),
        r matches ReadPlan::Cached(i) ==> i == offset && i + len <= cached,
        r is PastEnd <==> offset + len > cached && offset + len > size,
{
    match offset.checked_add(len as u64) {
        Some(end) => {
            if end <= cached as u64 {
                ReadPlan::Cached(offset as usize)
            } else if end <= size {
                ReadPlan::Fetch
            } else {
                ReadPlan::PastEnd
            }
        },
        None => ReadPlan::PastEnd,
    }
}

/// `std::io::Error::from` an error kind: the error that a range past the end
/// of a file gives. Nothing is stated of it.
#[verifier::external_body]
pub(crate) fn past_end() -> std::io::Error {
    std::io::Error::from(std::io::ErrorKind::UnexpectedEof)
}

/// The parts of a file that are in memory: its start, and one range more.
pub struct Chunks {
    size: u64,
    header: Vec<u8>,
    at: u64,
    chunk: Vec<u8>,
}

impl Chunks {
    /// Size of the file.
    pub closed spec fn file_size(self) -> u64 {
        self.size
    }

    /// Byte `i` of the file: of its start where that is in memory, else of the
    /// further range; 0 where it is in neither.
    pub closed spec fn byte(self, i: int) -> u8 {
        if i < self.header@.len() {
            self.header@[i]
        } else if self.at <= i < self.at + self.chunk@.len() {
            self.chunk@[i - self.at]
        } else {
            0
        }
    }

    /// Whether all bytes from `lo` to below `hi` are in memory.
    pub closed spec fn holds(self, lo: int, hi: int) -> bool {
        &&& hi <= self.size
        &&& hi <= self.header@.len() || (hi <= self.at + self.chunk@.len() && (self.at <= lo
            || self.at <= self.header@.len()))
    }

    /// A file of `size` bytes that starts with `header`; `chunk` is what
    /// stands at offset `at`.
    pub fn new(size: u64, header: Vec<u8>, at: u64, chunk: Vec<u8>) -> (r: Chunks)
        ensures
            r.file_size() == size,
            forall|i: int|
                #[trigger] r.byte(i) == (if i < header@.len() {
                    header@[i]
                } else if at <= i < at + chunk@.len() {
                    chunk@[i - at]
                } else {
                    0
                }),
            forall|lo: int, hi: int|
                #[trigger] r.holds(lo, hi) == (hi <= size && (hi <= header@.len() || (hi <= at
                    + chunk@.len() && (at <= lo || at <= header@.len())))),
    {
        Chunks { size, header, at, chunk }
    }
}

impl ReadRange for Chunks {
    open spec fn content(&self) -> Seq<u8> {
        Seq::new(self.file_size() as nat, |i: int| self.byte(i))
    }

    open spec fn sure(&self, lo: int, hi: int) -> bool {
        self.holds(lo, hi)
    }

    fn read_range(&mut self, offset: u64, len: usize) -> (r: Result<Vec<u8>, std::io::Error>)
        ensures
            *final(self) == *old(self),
            r is Ok <==> old(self).holds(offset as int, offset + len),
    {
        let n: usize = self.header.len();
        let m: usize = self.chunk.len();
        let end: u64 = match offset.checked_add(len as u64) {
            Some(e) => e,
            None => return Err(past_end()),
        };
        if end > self.size {
            return Err(past_end());
        }
        if end > n as u64 {
            let beyond = match self.at.checked_add(m as u64) {
                Some(e) => end > e,
                None => false,
            };
            if beyond || (self.at > offset && self.at > n as u64) {
                return Err(past_end());
            }
        }
        let mut out: Vec<u8> = Vec::new();
        let mut i: u64 = offset;
        while i < end
            invariant
                *self == *old(self),
                n == self.header@.len(),
                m == self.chunk@.len(),
                end == offset + len,
                self.holds(offset as int, end as int),
                offset <= i <= end,
                out@.len() == i - offset,
                forall|j: int| 0 <= j < i - offset ==> #[trigger] out@[j] == self.byte(offset + j),
            decreases end - i,
        {
            let b: u8 = if i < n as u64 {
                self.header[i as usize]
            } else {
                self.chunk[(i - self.at) as usize]
            };
            out.push(b);
            i += 1;
        }
        assert(out@ =~= self.content().subrange(offset as int, offset + len));
        Ok(out)
    }

    fn len(&self) -> (r: u64) {
        self.size
    }
}

} // verus!
