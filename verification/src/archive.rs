//! Reading the zip container.
//!
//! An archive is kept as the bytes it was read from, beside a list of its
//! entries as the central directory names them. The end record is the last
//! place where its signature stands and its comment runs to the end of the
//! file; the directory stands right before it; each directory header names
//! a local record, which holds the entry's data. Entries must lie in the
//! file in the order of the directory, without overlap. Data is only
//! unpacked when an entry is read.

use vstd::prelude::*;
use vstd::slice::slice_subrange;
use crate::bytes::{bytes_eq, copy_of};
use crate::error::PatchError;
use crate::splice::bytes_of;

verus! {

/// The signature of the end record.
pub const TAIL_SIGNATURE: u32 = 0x0605_4b50;

/// The signature of a directory header.
pub const HEADER_SIGNATURE: u32 = 0x0201_4b50;

/// The signature of a local record.
pub const LOCAL_SIGNATURE: u32 = 0x0403_4b50;

/// The length of an end record without its comment.
pub const TAIL_LEN: usize = 22;

/// The length of a directory header without its name, extra field and
/// comment.
pub const HEADER_LEN: usize = 46;

/// The length of a local record's header without its name and extra field.
pub const LOCAL_LEN: usize = 30;

/// The method number of stored data.
pub const STORED: u16 = 0;

/// The method number of deflated data.
pub const DEFLATED: u16 = 8;

/// The two-byte number at `p`, low byte first.
pub open spec fn le16(src: Seq<u8>, p: int) -> int {
    src[p] as int + 256 * (src[p + 1] as int)
}

/// The four-byte number at `p`, low byte first.
pub open spec fn le32(src: Seq<u8>, p: int) -> int {
    le16(src, p) + 65536 * le16(src, p + 2)
}

/// Reads the two-byte number at `p`.
pub fn read16(src: &[u8], p: usize) -> (v: u16)
    requires
        p + 2 <= src@.len(),
    ensures
        v == le16(src@, p as int),
{
    let low: u16 = src[p] as u16;
    let high: u16 = src[p + 1] as u16;
    low + 256 * high
}

/// Reads the four-byte number at `p`.
pub fn read32(src: &[u8], p: usize) -> (v: u32)
    requires
        p + 4 <= src@.len(),
    ensures
        v == le32(src@, p as int),
{
    let n: usize = src.len();
    let low: u32 = read16(src, p) as u32;
    let high: u32 = read16(src, p + 2) as u32;
    low + 65536 * high
}

/// One entry of the archive, as its directory header and local record
/// describe it.
#[derive(Clone, Copy, Debug, PartialEq, Eq, Structural)]
pub struct Entry {
    /// Where the directory header starts.
    pub header: usize,
    /// The length of the name, which follows the header.
    pub name_len: usize,
    /// Where the next directory header starts.
    pub next: usize,
    pub flags: u16,
    pub method: u16,
    pub crc: u32,
    /// The length of the data as it is stored.
    pub packed: usize,
    /// The length of the data once unpacked.
    pub size: usize,
    /// Where the local record starts.
    pub local: usize,
    /// Where the data starts.
    pub data: usize,
}

impl Entry {
    /// Where the local record ends.
    pub open spec fn end(self) -> int {
        self.data + self.packed
    }
}

/// The name of an entry.
pub open spec fn entry_name(src: Seq<u8>, e: Entry) -> Seq<u8> {
    src.subrange(e.header + HEADER_LEN, e.header + HEADER_LEN + e.name_len)
}

/// The data of an entry, as it is stored.
pub open spec fn entry_data(src: Seq<u8>, e: Entry) -> Seq<u8> {
    src.subrange(e.data as int, e.end())
}

/// The entry whose directory header starts at `h`, in a directory that
/// ends at `stop`. `None` if no header stands there, the header or the
/// local record it names does not fit, or the entry is encrypted.
#[verifier::opaque]
pub open spec fn entry_at(src: Seq<u8>, h: int, stop: int) -> Option<Entry> {
    let name_len = le16(src, h + 28);
    let next = h + HEADER_LEN + name_len + le16(src, h + 30) + le16(src, h + 32);
    let local = le32(src, h + 42);
    let packed = le32(src, h + 20);
    let data = local + LOCAL_LEN + le16(src, local + 26) + le16(src, local + 28);
    if !(0 <= h && h + HEADER_LEN <= stop && stop <= src.len() <= usize::MAX && le32(src, h)
        == HEADER_SIGNATURE) {
        None
    } else if !(next <= stop && local + LOCAL_LEN <= src.len() && le32(src, local)
        == LOCAL_SIGNATURE && le16(src, h + 8) % 2 == 0) {
        None
    } else if !(data + packed <= src.len()) {
        None
    } else {
        Some(
            Entry {
                header: h as usize,
                name_len: name_len as usize,
                next: next as usize,
                flags: le16(src, h + 8) as u16,
                method: le16(src, h + 10) as u16,
                crc: le32(src, h + 16) as u32,
                packed: packed as usize,
                size: le32(src, h + 24) as usize,
                local: local as usize,
                data: data as usize,
            },
        )
    }
}

/// Where the directory header with index `i` starts, in a directory that
/// runs from `start` to `stop`.
pub open spec fn header_pos(src: Seq<u8>, start: int, stop: int, i: int) -> int
    decreases i,
{
    if i <= 0 {
        start
    } else {
        let h = header_pos(src, start, stop, i - 1);
        match entry_at(src, h, stop) {
            Some(e) => e.next as int,
            None => h,
        }
    }
}

/// The entry with index `i` of the directory.
pub open spec fn listed_entry(src: Seq<u8>, start: int, stop: int, i: int) -> Option<Entry> {
    entry_at(src, header_pos(src, start, stop, i), stop)
}

/// The directory holds `count` headers that fill it from `start` to
/// `stop`.
pub open spec fn listed(src: Seq<u8>, start: int, stop: int, count: int) -> bool {
    &&& forall|i: int| 0 <= i < count ==> (#[trigger] listed_entry(src, start, stop, i)) is Some
    &&& header_pos(src, start, stop, count) == stop
}

/// The entries lie in the file in the order of the list, each ending
/// before the next starts, and the last before the directory.
pub open spec fn laid_out(entries: Seq<Entry>, start: int) -> bool {
    &&& forall|i: int, j: int|
        0 <= i && j == i + 1 && j < entries.len() ==> (#[trigger] entries[i]).end() <= (
        #[trigger] entries[j]).local
    &&& entries.len() > 0 ==> entries.last().end() <= start
}

/// Whether an end record stands at `p`: its signature, and a comment that
/// runs to the end of the file.
pub open spec fn is_tail(src: Seq<u8>, p: int) -> bool {
    &&& 0 <= p
    &&& p + TAIL_LEN <= src.len()
    &&& le32(src, p) == TAIL_SIGNATURE
    &&& p + TAIL_LEN + le16(src, p + 20) == src.len()
}

/// The last position at or before `p` where an end record stands.
pub open spec fn tail_from(src: Seq<u8>, p: int) -> Option<int>
    decreases p + 1,
{
    if p < 0 {
        None
    } else if is_tail(src, p) {
        Some(p)
    } else {
        tail_from(src, p - 1)
    }
}

/// Where the end record of the file stands.
pub open spec fn tail_of(src: Seq<u8>) -> Option<int> {
    tail_from(src, src.len() - TAIL_LEN)
}

/// The archive is one file with one directory, which stands right before
/// the end record and holds as many headers as the end record says, and
/// `entries` are its entries.
pub open spec fn lists(src: Seq<u8>, tail: int, start: int, entries: Seq<Entry>) -> bool {
    &&& tail_of(src) == Some(tail)
    &&& le16(src, tail + 4) == 0
    &&& le16(src, tail + 6) == 0
    &&& le16(src, tail + 8) == entries.len()
    &&& le16(src, tail + 10) == entries.len()
    &&& le32(src, tail + 16) == start
    &&& start + le32(src, tail + 12) == tail
    &&& listed(src, start, tail, entries.len() as int)
    &&& forall|i: int|
        0 <= i < entries.len() ==> listed_entry(src, start, tail, i) == Some(#[trigger] entries[i])
    &&& laid_out(entries, start)
}

/// A file read as an archive: where its end record and its directory
/// start, and its entries.
pub struct Listing {
    pub tail: int,
    pub start: int,
    pub entries: Seq<Entry>,
}

/// The listing is that of the file.
pub open spec fn lists_as(src: Seq<u8>, l: Listing) -> bool {
    lists(src, l.tail, l.start, l.entries)
}

/// The file can be read as an archive.
pub open spec fn readable(src: Seq<u8>) -> bool {
    exists|l: Listing| lists_as(src, l)
}

/// The reading of a file as an archive.
pub open spec fn listing(src: Seq<u8>) -> Listing {
    choose|l: Listing| lists_as(src, l)
}

/// The first position at or after `i` whose entry is called `name`, or
/// the number of entries.
pub open spec fn entry_position(src: Seq<u8>, entries: Seq<Entry>, name: Seq<u8>, i: int) -> int
    decreases entries.len() - i,
{
    if 0 <= i < entries.len() && entry_name(src, entries[i]) != name {
        entry_position(src, entries, name, i + 1)
    } else {
        i
    }
}

/// Whether the archive has an entry called `name`.
pub open spec fn has_entry(src: Seq<u8>, entries: Seq<Entry>, name: Seq<u8>) -> bool {
    entry_position(src, entries, name, 0) < entries.len()
}

/// What `miniz_oxide::inflate::decompress_to_vec_with_limit` returns for
/// deflated data and a limit on the size of the output, if it succeeds.
pub uninterp spec fn inflated(data: Seq<u8>, limit: usize) -> Option<Seq<u8>>;

/// What `crc32fast::hash` returns: the CRC-32 checksum of the data.
pub uninterp spec fn checksum(data: Seq<u8>) -> u32;

/// Calls `miniz_oxide::inflate::decompress_to_vec_with_limit`, which
/// unpacks a raw deflate stream into a vector of at most `limit` bytes and
/// fails on a stream that is damaged, cut short or unpacks to more.
#[verifier::external_body]
fn inflate(data: &[u8], limit: usize) -> (out: Option<Vec<u8>>)
    ensures
        match out {
            Some(v) => inflated(data@, limit) == Some(v@),
            None => inflated(data@, limit) is None,
        },
{
    miniz_oxide::inflate::decompress_to_vec_with_limit(data, limit).ok()
}

/// Calls `crc32fast::hash`, which computes the CRC-32 checksum of a byte
/// string.
#[verifier::external_body]
pub(crate) fn crc32(data: &[u8]) -> (sum: u32)
    ensures
        sum == checksum(data@),
{
    crc32fast::hash(data)
}

/// What unpacked data is worth: it is the entry's content if it has the
/// length and the checksum the directory gives, and the archive is corrupt
/// if it has not.
pub open spec fn accepted(e: Entry, bytes: Seq<u8>, sum: u32) -> Result<Seq<u8>, PatchError> {
    if bytes.len() == e.size && sum == e.crc {
        Ok(bytes)
    } else {
        Err(PatchError::CorruptArchive)
    }
}

/// The content of an entry: its data, unpacked by the entry's method and
/// checked against the directory. A method other than storing and
/// deflating is refused with `UnsupportedFeature`.
pub open spec fn content(src: Seq<u8>, e: Entry) -> Result<Seq<u8>, PatchError> {
    let data = entry_data(src, e);
    if e.method == STORED {
        accepted(e, data, checksum(data))
    } else if e.method == DEFLATED {
        match inflated(data, e.size) {
            Some(bytes) => accepted(e, bytes, checksum(bytes)),
            None => Err(PatchError::CorruptArchive),
        }
    } else {
        Err(PatchError::UnsupportedFeature)
    }
}

/// Checks unpacked data against the length and checksum of its entry.
pub fn accept(e: &Entry, bytes: Vec<u8>, sum: u32) -> (outcome: Result<Vec<u8>, PatchError>)
    ensures
        bytes_of(outcome) == accepted(*e, bytes@, sum),
{
    if bytes.len() == e.size && sum == e.crc {
        Ok(bytes)
    } else {
        Err(PatchError::CorruptArchive)
    }
}

/// An archive: the bytes of the file and the entries of its directory.
pub struct Archive {
    pub src: Vec<u8>,
    pub entries: Vec<Entry>,
    /// Where the directory starts.
    pub start: usize,
    /// Where the end record starts.
    pub tail: usize,
}

impl Archive {
    /// The entries are those of the file.
    pub open spec fn wf(&self) -> bool {
        lists(self.src@, self.tail as int, self.start as int, self.entries@)
    }

    /// Whether the entries are those of the file. An archive that was read
    /// from a file always is intact; the question is for a caller who made
    /// or changed one by hand.
    pub fn intact(&self) -> (ok: bool)
        ensures
            ok == self.wf(),
    {
        let read = match read_directory(self.src.as_slice()) {
            Ok(a) => a,
            Err(_) => {
                assert(!lists_as(
                    self.src@,
                    Listing {
                        tail: self.tail as int,
                        start: self.start as int,
                        entries: self.entries@,
                    },
                ));
                return false;
            },
        };
        proof {
            if self.wf() {
                lemma_lists_unique(
                    self.src@,
                    self.tail as int,
                    self.start as int,
                    self.entries@,
                    read.tail as int,
                    read.start as int,
                    read.entries@,
                );
            }
        }
        if read.tail != self.tail || read.start != self.start || read.entries.len()
            != self.entries.len() {
            return false;
        }
        let mut i: usize = 0;
        while i < self.entries.len()
            invariant
                i <= self.entries@.len(),
                read.entries@.len() == self.entries@.len(),
                forall|j: int| 0 <= j < i ==> read.entries@[j] == self.entries@[j],
                self.wf() ==> read.entries@ == self.entries@,
            decreases self.entries@.len() - i,
        {
            if read.entries[i] != self.entries[i] {
                return false;
            }
            i += 1;
        }
        assert(read.entries@ =~= self.entries@);
        true
    }

    /// The index of the entry called `name`, if there is one.
    pub fn find(&self, name: &[u8]) -> (at: Option<usize>)
        requires
            self.wf(),
        ensures
            match at {
                Some(i) => i == entry_position(self.src@, self.entries@, name@, 0) && i
                    < self.entries@.len(),
                None => !has_entry(self.src@, self.entries@, name@),
            },
    {
        let mut i: usize = 0;
        while i < self.entries.len()
            invariant
                self.wf(),
                i <= self.entries@.len(),
                entry_position(self.src@, self.entries@, name@, 0) == entry_position(
                    self.src@,
                    self.entries@,
                    name@,
                    i as int,
                ),
            decreases self.entries@.len() - i,
        {
            let e = self.entries[i];
            proof {
                lemma_entry_bounds(
                self.src@,
                self.tail as int,
                self.start as int,
                self.entries@,
                i as int,
            );
            }
            let stored = slice_subrange(
                self.src.as_slice(),
                e.header + HEADER_LEN,
                e.header + HEADER_LEN + e.name_len,
            );
            if bytes_eq(stored, name) {
                return Some(i);
            }
            i += 1;
        }
        None
    }

    /// The content of the entry with index `i`.
    pub fn read(&self, i: usize) -> (outcome: Result<Vec<u8>, PatchError>)
        requires
            self.wf(),
            i < self.entries@.len(),
        ensures
            bytes_of(outcome) == content(self.src@, self.entries@[i as int]),
    {
        let e = self.entries[i];
        let n: usize = self.src.len();
        proof {
            lemma_entry_bounds(
                self.src@,
                self.tail as int,
                self.start as int,
                self.entries@,
                i as int,
            );
        }
        let data = slice_subrange(self.src.as_slice(), e.data, e.data + e.packed);
        if e.method == STORED {
            let bytes = copy_of(data);
            let sum = crc32(bytes.as_slice());
            accept(&e, bytes, sum)
        } else if e.method == DEFLATED {
            match inflate(data, e.size) {
                Some(bytes) => {
                    let sum = crc32(bytes.as_slice());
                    accept(&e, bytes, sum)
                },
                None => Err(PatchError::CorruptArchive),
            }
        } else {
            Err(PatchError::UnsupportedFeature)
        }
    }

    /// The content of the entry called `name`; `PartNotFound` if the
    /// archive has no such entry.
    pub fn entry(&self, name: &[u8]) -> (outcome: Result<Vec<u8>, PatchError>)
        requires
            self.wf(),
        ensures
            bytes_of(outcome) == part_content(self.src@, self.entries@, name@),
    {
        match self.find(name) {
            Some(i) => self.read(i),
            None => Err(PatchError::PartNotFound),
        }
    }
}

/// The content of the entry called `name`.
pub open spec fn part_content(src: Seq<u8>, entries: Seq<Entry>, name: Seq<u8>) -> Result<
    Seq<u8>,
    PatchError,
> {
    let at = entry_position(src, entries, name, 0);
    if at < entries.len() {
        content(src, entries[at])
    } else {
        Err(PatchError::PartNotFound)
    }
}

/// Every part of an entry that was read lies within the file.
pub proof fn lemma_entry_at(src: Seq<u8>, h: int, stop: int)
    ensures
        entry_at(src, h, stop) matches Some(e) ==> {
            &&& e.header == h
            &&& e.name_len <= 0xffff
            &&& e.local <= u32::MAX
            &&& 0 <= h
            &&& h + HEADER_LEN + e.name_len <= e.next <= stop <= src.len()
            &&& e.local + LOCAL_LEN <= e.data <= e.end() <= src.len()
        },
{
    reveal(entry_at);
}

/// Every part of a listed entry lies within the file.
pub proof fn lemma_entry_bounds(src: Seq<u8>, tail: int, start: int, entries: Seq<Entry>, i: int)
    requires
        lists(src, tail, start, entries),
        0 <= i < entries.len(),
    ensures
        entries[i].name_len <= 0xffff,
        entries[i].local <= u32::MAX,
        entries[i].header + HEADER_LEN + entries[i].name_len <= entries[i].next <= tail,
        tail + TAIL_LEN <= src.len(),
        entries[i].local + LOCAL_LEN <= entries[i].data <= entries[i].end() <= src.len(),
{
    assert(listed_entry(src, start, tail, i) == Some(entries[i]));
    lemma_entry_at(src, header_pos(src, start, tail, i), tail);
    lemma_tail_from(src, src.len() - TAIL_LEN);
}

/// Where an end record is found, one stands.
pub proof fn lemma_tail_from(src: Seq<u8>, p: int)
    ensures
        tail_from(src, p) matches Some(t) ==> is_tail(src, t) && t <= p,
    decreases p + 1,
{
    if p >= 0 && !is_tail(src, p) {
        lemma_tail_from(src, p - 1);
    }
}

/// A file has at most one reading as an archive.
pub proof fn lemma_lists_unique(
    src: Seq<u8>,
    tail: int,
    start: int,
    entries: Seq<Entry>,
    tail2: int,
    start2: int,
    entries2: Seq<Entry>,
)
    requires
        lists(src, tail, start, entries),
        lists(src, tail2, start2, entries2),
    ensures
        tail == tail2,
        start == start2,
        entries == entries2,
{
    assert forall|i: int| 0 <= i < entries.len() implies entries[i] == entries2[i] by {
        assert(listed_entry(src, start, tail, i) == Some(entries[i]));
        assert(listed_entry(src, start, tail, i) == Some(entries2[i]));
    }
    assert(entries =~= entries2);
}

/// Reads the entry whose directory header starts at `h`.
pub fn read_header(src: &[u8], h: usize, stop: usize) -> (entry: Option<Entry>)
    requires
        stop <= src@.len(),
    ensures
        entry == entry_at(src@, h as int, stop as int),
        entry matches Some(e) ==> e.next <= stop && e.data + e.packed <= src@.len(),
{
    reveal(entry_at);
    let n: usize = src.len();
    if h > stop || stop - h < HEADER_LEN {
        return None;
    }
    if read32(src, h) != HEADER_SIGNATURE {
        return None;
    }
    let flags = read16(src, h + 8);
    let method = read16(src, h + 10);
    let crc = read32(src, h + 16);
    let packed = read32(src, h + 20) as usize;
    let size = read32(src, h + 24) as usize;
    let name_len = read16(src, h + 28) as usize;
    let extra_len = read16(src, h + 30) as usize;
    let comment_len = read16(src, h + 32) as usize;
    let local = read32(src, h + 42) as usize;
    let rest: usize = stop - h - HEADER_LEN;
    if name_len > rest || extra_len > rest - name_len || comment_len > rest - name_len
        - extra_len {
        return None;
    }
    let next: usize = h + HEADER_LEN + name_len + extra_len + comment_len;
    if local > n || n - local < LOCAL_LEN {
        return None;
    }
    if read32(src, local) != LOCAL_SIGNATURE || flags % 2 != 0 {
        return None;
    }
    let local_name = read16(src, local + 26) as usize;
    let local_extra = read16(src, local + 28) as usize;
    let room: usize = n - local - LOCAL_LEN;
    if local_name > room || local_extra > room - local_name || packed > room - local_name
        - local_extra {
        return None;
    }
    let data: usize = local + LOCAL_LEN + local_name + local_extra;
    Some(Entry { header: h, name_len, next, flags, method, crc, packed, size, local, data })
}

/// Finds the end record of the file.
pub fn find_tail(src: &[u8]) -> (tail: Option<usize>)
    ensures
        match tail {
            Some(t) => tail_of(src@) == Some(t as int) && is_tail(src@, t as int),
            None => tail_of(src@) is None,
        },
{
    let n: usize = src.len();
    if n < TAIL_LEN {
        return None;
    }
    let mut p: usize = n - TAIL_LEN;
    loop
        invariant
            n == src@.len(),
            p + TAIL_LEN <= n,
            tail_of(src@) == tail_from(src@, p as int),
        decreases p,
    {
        if read32(src, p) == TAIL_SIGNATURE && read16(src, p + 20) as usize == n - TAIL_LEN - p {
            return Some(p);
        }
        if p == 0 {
            assert(tail_from(src@, -1) is None);
            return None;
        }
        p -= 1;
    }
}

/// Reads a file as an archive. `CorruptArchive` if it has no end record,
/// spans several files, or its directory cannot be read as the end record
/// describes it.
pub fn read_directory(bytes: &[u8]) -> (outcome: Result<Archive, PatchError>)
    ensures
        match outcome {
            Ok(archive) => archive.wf() && archive.src@ == bytes@,
            Err(e) => e == PatchError::CorruptArchive && !readable(bytes@),
        },
{
    let n: usize = bytes.len();
    let tail = match find_tail(bytes) {
        Some(t) => t,
        None => {
            return Err(PatchError::CorruptArchive);
        },
    };
    let count = read16(bytes, tail + 10) as usize;
    let size = read32(bytes, tail + 12) as usize;
    let start = read32(bytes, tail + 16) as usize;
    if read16(bytes, tail + 4) != 0 || read16(bytes, tail + 6) != 0 || read16(bytes, tail + 8)
        as usize != count || start > tail || tail - start != size {
        return Err(PatchError::CorruptArchive);
    }
    let mut entries: Vec<Entry> = Vec::new();
    let mut h: usize = start;
    let mut floor: usize = 0;
    while entries.len() < count
        invariant
            n == bytes@.len(),
            tail <= n,
            tail_of(bytes@) == Some(tail as int),
            le16(bytes@, tail + 10) == count,
            le32(bytes@, tail + 16) == start,
            entries@.len() <= count,
            h == header_pos(bytes@, start as int, tail as int, entries@.len() as int),
            forall|i: int|
                0 <= i < entries@.len() ==> listed_entry(bytes@, start as int, tail as int, i)
                    == Some(#[trigger] entries@[i]),
            forall|i: int, j: int|
                0 <= i && j == i + 1 && j < entries@.len() ==> (#[trigger] entries@[i]).end() <= (
                #[trigger] entries@[j]).local,
            entries@.len() > 0 ==> floor == entries@.last().end(),
            floor <= n,
            entries@.len() == 0 ==> floor == 0,
        decreases count - entries@.len(),
    {
        let ghost k = entries@.len() as int;
        let e = match read_header(bytes, h, tail) {
            Some(e) => e,
            None => {
                proof {
                    assert forall|l: Listing| lists_as(bytes@, l) implies false by {
                        assert(listed_entry(bytes@, l.start, l.tail, k) is Some);
                    }
                }
                return Err(PatchError::CorruptArchive);
            },
        };
        if e.local < floor {
            proof {
                assert forall|l: Listing| lists_as(bytes@, l) implies false by {
                    let es = l.entries;
                    assert(listed_entry(bytes@, l.start, l.tail, k) == Some(es[k]));
                    assert(listed_entry(bytes@, l.start, l.tail, k - 1) == Some(es[k - 1]));
                    assert(es[k - 1] == entries@[k - 1]);
                    assert(es[k - 1].end() <= es[k].local);
                }
            }
            return Err(PatchError::CorruptArchive);
        }
        entries.push(e);
        floor = e.data + e.packed;
        h = e.next;
    }
    if h != tail || floor > start {
        proof {
            assert forall|l: Listing| lists_as(bytes@, l) implies false by {
                let es = l.entries;
                if count > 0 {
                    assert(listed_entry(bytes@, l.start, l.tail, count - 1) == Some(
                        es[count - 1],
                    ));
                    assert(es[count - 1] == entries@[count - 1]);
                    assert(es.last().end() <= l.start);
                }
            }
        }
        return Err(PatchError::CorruptArchive);
    }
    let archive = Archive { src: copy_of(bytes), entries, start, tail };
    proof {
        assert(archive.src@ =~= bytes@);
        assert(laid_out(archive.entries@, start as int));
        assert forall|i: int| 0 <= i < count implies (#[trigger] listed_entry(
            bytes@,
            start as int,
            tail as int,
            i,
        )) is Some by {
            assert(listed_entry(bytes@, start as int, tail as int, i) == Some(entries@[i]));
        }
    }
    Ok(archive)
}

} // verus!
