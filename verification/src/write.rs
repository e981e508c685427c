//! Writing the zip container.
//!
//! The new archive is the old one with splices made: the local record of
//! each edited entry is replaced by a new one, and the directory is
//! touched only at the fields that have to follow, which are the flags,
//! checksum and sizes of an edited entry and the offset of every entry and
//! of the directory behind it. Entries that are not edited keep their
//! bytes, packed as they were. With no edit there is no splice, and the
//! archive is written as it was read.

use vstd::prelude::*;
use vstd::slice::slice_subrange;
use crate::archive::{
    checksum, crc32, entry_name, has_entry, header_pos, lemma_entry_at,
    lemma_entry_bounds, lemma_tail_from, listed_entry, lists, Archive, Entry, DEFLATED,
    HEADER_LEN, LOCAL_LEN, LOCAL_SIGNATURE, STORED,
};
use crate::bytes::{append, append_range, bytes_eq, copy_of};
use crate::error::PatchError;
use crate::splice::{
    bytes_of, lemma_within_concat, lemma_within_ordered, lemma_within_push, lemma_within_wider,
    made, make, ordered, splice_views, views_of, within, Splice, SpliceView,
};

verus! {

/// A part with its new content.
#[derive(Clone, Debug)]
pub struct Edited {
    /// The part's path in the archive.
    pub name: Vec<u8>,
    pub bytes: Vec<u8>,
}

/// What each edited part of a vector is: its name and its content.
pub open spec fn edited_views(edits: Seq<Edited>) -> Seq<(Seq<u8>, Seq<u8>)> {
    Seq::new(edits.len(), |i: int| (edits[i].name@, edits[i].bytes@))
}

/// What `miniz_oxide::deflate::compress_to_vec` returns for the data at
/// compression level 6: a raw deflate stream.
pub uninterp spec fn deflated(data: Seq<u8>) -> Seq<u8>;

/// Calls `miniz_oxide::deflate::compress_to_vec` at level 6, which packs
/// the data into a raw deflate stream.
#[verifier::external_body]
fn deflate(data: &[u8]) -> (out: Vec<u8>)
    ensures
        out@ == deflated(data@),
{
    miniz_oxide::deflate::compress_to_vec(data, 6)
}

/// The `width` low bytes of `v`, low byte first.
pub open spec fn le(v: int, width: nat) -> Seq<u8>
    decreases width,
{
    if width == 0 {
        Seq::<u8>::empty()
    } else {
        seq![(v % 256) as u8] + le(v / 256, (width - 1) as nat)
    }
}

/// Appends the `width` low bytes of `v`, low byte first.
pub fn push_le(out: &mut Vec<u8>, v: u32, width: u8)
    ensures
        final(out)@ == old(out)@ + le(v as int, width as nat),
    decreases width,
{
    if width > 0 {
        out.push((v % 256) as u8);
        push_le(out, v / 256, width - 1);
    }
    assert(out@ =~= old(out)@ + le(v as int, width as nat));
}

/// The first position at or after `i` whose edit is for `name`, or the
/// number of edits.
pub open spec fn edit_position(edits: Seq<(Seq<u8>, Seq<u8>)>, name: Seq<u8>, i: int) -> int
    decreases edits.len() - i,
{
    if 0 <= i < edits.len() && edits[i].0 != name {
        edit_position(edits, name, i + 1)
    } else {
        i
    }
}

/// The new content of an entry, if an edit names it. Of several edits for
/// one name the first counts.
pub open spec fn change_of(src: Seq<u8>, e: Entry, edits: Seq<(Seq<u8>, Seq<u8>)>) -> Option<
    Seq<u8>,
> {
    let at = edit_position(edits, entry_name(src, e), 0);
    if at < edits.len() {
        Some(edits[at].1)
    } else {
        None
    }
}

/// The first position at or after `j` whose edit names no entry, or the
/// number of edits.
pub open spec fn first_unknown(
    src: Seq<u8>,
    entries: Seq<Entry>,
    edits: Seq<(Seq<u8>, Seq<u8>)>,
    j: int,
) -> int
    decreases edits.len() - j,
{
    if 0 <= j < edits.len() && has_entry(src, entries, edits[j].0) {
        first_unknown(src, entries, edits, j + 1)
    } else {
        j
    }
}

/// Content as an entry's method stores it.
pub open spec fn packed_bytes(method: u16, bytes: Seq<u8>) -> Seq<u8> {
    if method == DEFLATED {
        deflated(bytes)
    } else {
        bytes
    }
}

/// The local record of an entry with new data: a header with the entry's
/// name, method and time, the new checksum and sizes, no extra field and
/// no trailing descriptor, and behind it the data.
pub open spec fn record(src: Seq<u8>, e: Entry, packed: Seq<u8>, size: int, sum: u32) -> Seq<u8> {
    le(LOCAL_SIGNATURE as int, 4) + le(20, 2) + le((e.flags & 0xfff7) as int, 2) + le(
        e.method as int,
        2,
    ) + src.subrange(e.local + 10, e.local + 14) + fields(packed.len() as int, size, sum) + le(
        e.name_len as int,
        2,
    ) + le(0, 2) + entry_name(src, e) + packed
}

/// The checksum and sizes of an entry, as headers hold them.
pub open spec fn fields(packed: int, size: int, sum: u32) -> Seq<u8> {
    le(sum as int, 4) + le(packed, 4) + le(size, 4)
}

/// How far the writing of the directory's first entries has come.
pub struct Written {
    /// The splices in local records.
    pub locals: Seq<SpliceView>,
    /// The splices in directory headers.
    pub headers: Seq<SpliceView>,
    /// By how much the entries seen so far move what follows them.
    pub drift: int,
}

/// The splice that writes the new offset of an entry's local record into
/// its header, if the record moves.
pub open spec fn offset_splice(e: Entry, drift: int) -> Seq<SpliceView> {
    if drift != 0 {
        seq![
            SpliceView {
                start: e.header + 42,
                end: e.header + 46,
                text: le(e.local + drift, 4),
            },
        ]
    } else {
        Seq::<SpliceView>::empty()
    }
}

/// The splices that bring the header of an edited entry up to date: the
/// flag for a trailing descriptor is cleared, and checksum and sizes are
/// the new ones.
pub open spec fn header_splices(e: Entry, packed: int, size: int, sum: u32) -> Seq<SpliceView> {
    seq![
        SpliceView {
            start: e.header + 8,
            end: e.header + 10,
            text: le((e.flags & 0xfff7) as int, 2),
        },
        SpliceView { start: e.header + 16, end: e.header + 28, text: fields(packed, size, sum) },
    ]
}

/// What one more entry adds. An entry that is not edited only has its
/// offset rewritten if it moves. An edited entry gets a new local record;
/// it is refused with `UnsupportedFeature` if its method is neither
/// storing nor deflating or a size no longer fits in four bytes, as is any
/// entry whose offset no longer does.
pub open spec fn entry_step(src: Seq<u8>, e: Entry, change: Option<Seq<u8>>, st: Written) -> Result<
    Written,
    PatchError,
> {
    let moved = e.local + st.drift;
    if !(0 <= moved <= u32::MAX) {
        Err(PatchError::UnsupportedFeature)
    } else {
        match change {
            None => Ok(
                Written {
                    locals: st.locals,
                    headers: st.headers + offset_splice(e, st.drift),
                    drift: st.drift,
                },
            ),
            Some(bytes) => {
                let packed = packed_bytes(e.method, bytes);
                let rec = record(src, e, packed, bytes.len() as int, checksum(bytes));
                if !(e.method == STORED || e.method == DEFLATED) || packed.len() > u32::MAX
                    || bytes.len() > u32::MAX {
                    Err(PatchError::UnsupportedFeature)
                } else {
                    Ok(
                        Written {
                            locals: st.locals.push(
                                SpliceView { start: e.local as int, end: e.end(), text: rec },
                            ),
                            headers: st.headers + header_splices(
                                e,
                                packed.len() as int,
                                bytes.len() as int,
                                checksum(bytes),
                            ) + offset_splice(e, st.drift),
                            drift: st.drift + rec.len() - (e.end() - e.local),
                        },
                    )
                }
            },
        }
    }
}

/// What the first `k` entries add.
pub open spec fn written(
    src: Seq<u8>,
    entries: Seq<Entry>,
    edits: Seq<(Seq<u8>, Seq<u8>)>,
    k: int,
) -> Result<Written, PatchError>
    decreases k,
{
    if k <= 0 {
        Ok(
            Written {
                locals: Seq::<SpliceView>::empty(),
                headers: Seq::<SpliceView>::empty(),
                drift: 0,
            },
        )
    } else {
        match written(src, entries, edits, k - 1) {
            Err(e) => Err(e),
            Ok(st) => entry_step(src, entries[k - 1], change_of(src, entries[k - 1], edits), st),
        }
    }
}

/// The splices that write the archive with the edited parts in place of
/// the old ones: `PartNotFound` if an edit names no entry.
pub open spec fn write_plan(
    src: Seq<u8>,
    tail: int,
    start: int,
    entries: Seq<Entry>,
    edits: Seq<(Seq<u8>, Seq<u8>)>,
) -> Result<Seq<SpliceView>, PatchError> {
    if first_unknown(src, entries, edits, 0) < edits.len() {
        Err(PatchError::PartNotFound)
    } else {
        match written(src, entries, edits, entries.len() as int) {
            Err(e) => Err(e),
            Ok(st) => if st.drift == 0 {
                Ok(st.locals + st.headers)
            } else if 0 <= start + st.drift <= u32::MAX {
                Ok(
                    st.locals + st.headers + seq![
                        SpliceView {
                            start: tail + 16,
                            end: tail + 20,
                            text: le(start + st.drift, 4),
                        },
                    ],
                )
            } else {
                Err(PatchError::UnsupportedFeature)
            },
        }
    }
}

/// Writes the local record of an entry with new data.
pub fn local_record(src: &[u8], e: &Entry, packed: &[u8], size: u32, sum: u32) -> (rec: Vec<u8>)
    requires
        e.local + 14 <= src@.len(),
        e.header + HEADER_LEN + e.name_len <= src@.len(),
        e.name_len <= u16::MAX,
        packed@.len() <= u32::MAX,
    ensures
        rec@ == record(src@, *e, packed@, size as int, sum),
{
    let n: usize = src.len();
    let mut out: Vec<u8> = Vec::new();
    push_le(&mut out, LOCAL_SIGNATURE, 4);
    push_le(&mut out, 20, 2);
    push_le(&mut out, (e.flags & 0xfff7) as u32, 2);
    push_le(&mut out, e.method as u32, 2);
    append_range(&mut out, src, e.local + 10, e.local + 14);
    push_fields(&mut out, packed.len() as u32, size, sum);
    push_le(&mut out, e.name_len as u32, 2);
    push_le(&mut out, 0, 2);
    append_range(&mut out, src, e.header + HEADER_LEN, e.header + HEADER_LEN + e.name_len);
    append(&mut out, packed);
    assert(out@ =~= record(src@, *e, packed@, size as int, sum));
    out
}

/// Appends the checksum and sizes of an entry.
pub fn push_fields(out: &mut Vec<u8>, packed: u32, size: u32, sum: u32)
    ensures
        final(out)@ == old(out)@ + fields(packed as int, size as int, sum),
{
    push_le(out, sum, 4);
    push_le(out, packed, 4);
    push_le(out, size, 4);
    assert(out@ =~= old(out)@ + fields(packed as int, size as int, sum));
}

/// The index of the first edit for `name`.
fn find_edit(edits: &Vec<Edited>, name: &[u8]) -> (at: usize)
    ensures
        at == edit_position(edited_views(edits@), name@, 0),
        at <= edits@.len(),
{
    let mut i: usize = 0;
    while i < edits.len()
        invariant
            i <= edits@.len(),
            edit_position(edited_views(edits@), name@, 0) == edit_position(
                edited_views(edits@),
                name@,
                i as int,
            ),
        decreases edits@.len() - i,
    {
        if bytes_eq(edits[i].name.as_slice(), name) {
            return i;
        }
        i += 1;
    }
    i
}

/// Whether every edit names an entry of the archive.
fn all_known(archive: &Archive, edits: &Vec<Edited>) -> (ok: bool)
    requires
        archive.wf(),
    ensures
        ok == (first_unknown(archive.src@, archive.entries@, edited_views(edits@), 0)
            >= edits@.len()),
{
    let mut j: usize = 0;
    while j < edits.len()
        invariant
            archive.wf(),
            j <= edits@.len(),
            first_unknown(archive.src@, archive.entries@, edited_views(edits@), 0)
                == first_unknown(archive.src@, archive.entries@, edited_views(edits@), j as int),
        decreases edits@.len() - j,
    {
        if archive.find(edits[j].name.as_slice()).is_none() {
            return false;
        }
        j += 1;
    }
    true
}

/// A list of splices with one more.
fn with_splice(list: &mut Vec<Splice>, start: usize, end: usize, text: Vec<u8>)
    ensures
        splice_views(final(list)@) == splice_views(old(list)@).push(
            SpliceView { start: start as int, end: end as int, text: text@ },
        ),
{
    let ghost before = splice_views(list@);
    let splice = Splice { start, end, text };
    list.push(splice);
    assert(splice_views(list@) =~= before.push(splice@));
}

/// The four low bytes of a number.
fn four(v: u32) -> (text: Vec<u8>)
    ensures
        text@ == le(v as int, 4),
{
    let mut text: Vec<u8> = Vec::new();
    push_le(&mut text, v, 4);
    assert(text@ =~= le(v as int, 4));
    text
}

/// What one more entry adds to the splices, and what it does to the
/// drift.
fn write_entry(
    src: &[u8],
    e: &Entry,
    change: Option<&[u8]>,
    locals: &mut Vec<Splice>,
    headers: &mut Vec<Splice>,
    drift: i128,
) -> (outcome: Result<i128, PatchError>)
    requires
        e.local + LOCAL_LEN <= e.data <= e.data + e.packed <= src@.len(),
        e.header + HEADER_LEN + e.name_len <= src@.len(),
        e.name_len <= 0xffff,
        -0x1_0000_0000_0000_0000_0000 <= drift <= 0x1_0000_0000_0000_0000_0000,
    ensures
        match entry_step(
            src@,
            *e,
            match change {
                Some(bytes) => Some(bytes@),
                None => None,
            },
            Written {
                locals: splice_views(old(locals)@),
                headers: splice_views(old(headers)@),
                drift: drift as int,
            },
        ) {
            Ok(st) => outcome matches Ok(d) && d == st.drift && splice_views(final(locals)@)
                == st.locals && splice_views(final(headers)@) == st.headers && drift
                - 0x1_0000_0000_0000_0000 <= d <= drift + 0x1_0000_0000_0000_0000,
            Err(err) => outcome == Err::<i128, PatchError>(err),
        },
{
    let n: usize = src.len();
    let moved: i128 = e.local as i128 + drift;
    if moved < 0 || moved > 0xffff_ffff {
        return Err(PatchError::UnsupportedFeature);
    }
    let ghost old_headers = splice_views(headers@);
    match change {
        None => {
            if drift != 0 {
                with_splice(headers, e.header + 42, e.header + 46, four(moved as u32));
            }
            assert(splice_views(headers@) =~= old_headers + offset_splice(*e, drift as int));
            Ok(drift)
        },
        Some(bytes) => {
            if e.method != STORED && e.method != DEFLATED {
                return Err(PatchError::UnsupportedFeature);
            }
            let packed = if e.method == DEFLATED {
                deflate(bytes)
            } else {
                copy_of(bytes)
            };
            if packed.len() > 0xffff_ffff || bytes.len() > 0xffff_ffff {
                return Err(PatchError::UnsupportedFeature);
            }
            let sum = crc32(bytes);
            let rec = local_record(src, e, packed.as_slice(), bytes.len() as u32, sum);
            let grown: i128 = rec.len() as i128 - (e.data + e.packed - e.local) as i128;
            with_splice(locals, e.local, e.data + e.packed, rec);
            let mut flags: Vec<u8> = Vec::new();
            push_le(&mut flags, (e.flags & 0xfff7) as u32, 2);
            assert(flags@ =~= le((e.flags & 0xfff7) as int, 2));
            with_splice(headers, e.header + 8, e.header + 10, flags);
            let mut sizes: Vec<u8> = Vec::new();
            push_fields(&mut sizes, packed.len() as u32, bytes.len() as u32, sum);
            assert(sizes@ =~= fields(packed@.len() as int, bytes@.len() as int, sum));
            with_splice(headers, e.header + 16, e.header + 28, sizes);
            assert(splice_views(headers@) =~= old_headers + header_splices(
                *e,
                packed@.len() as int,
                bytes@.len() as int,
                sum,
            ));
            let ghost mid = splice_views(headers@);
            if drift != 0 {
                with_splice(headers, e.header + 42, e.header + 46, four(moved as u32));
            }
            assert(splice_views(headers@) =~= mid + offset_splice(*e, drift as int));
            Ok(drift + grown)
        },
    }
}

/// Names the splices that write the archive with the edited parts.
pub fn plan_write(archive: &Archive, edits: &Vec<Edited>) -> (outcome: Result<
    Vec<Splice>,
    PatchError,
>)
    requires
        archive.wf(),
    ensures
        views_of(outcome) == write_plan(
            archive.src@,
            archive.tail as int,
            archive.start as int,
            archive.entries@,
            edited_views(edits@),
        ),
{
    if !all_known(archive, edits) {
        return Err(PatchError::PartNotFound);
    }
    let src = archive.src.as_slice();
    let n: usize = archive.src.len();
    let ghost views = edited_views(edits@);
    let mut locals: Vec<Splice> = Vec::new();
    let mut headers: Vec<Splice> = Vec::new();
    let mut drift: i128 = 0;
    let mut failed: Option<PatchError> = None;
    let mut k: usize = 0;
    assert(splice_views(locals@) =~= Seq::<SpliceView>::empty());
    assert(splice_views(headers@) =~= Seq::<SpliceView>::empty());
    while k < archive.entries.len()
        invariant
            archive.wf(),
            src@ == archive.src@,
            n == src@.len(),
            views == edited_views(edits@),
            k <= archive.entries@.len() <= 0xffff,
            -(k * 0x1_0000_0000_0000_0000) <= drift <= k * 0x1_0000_0000_0000_0000,
            written(archive.src@, archive.entries@, views, k as int) == match failed {
                Some(e) => Err::<Written, PatchError>(e),
                None => Ok::<Written, PatchError>(
                    Written {
                        locals: splice_views(locals@),
                        headers: splice_views(headers@),
                        drift: drift as int,
                    },
                ),
            },
        decreases archive.entries@.len() - k,
    {
        let e = archive.entries[k];
        proof {
            lemma_entry_bounds(
                archive.src@,
                archive.tail as int,
                archive.start as int,
                archive.entries@,
                k as int,
            );
        }
        k += 1;
        if failed.is_none() {
            let name = slice_subrange(
                src,
                e.header + HEADER_LEN,
                e.header + HEADER_LEN + e.name_len,
            );
            let at = find_edit(edits, name);
            let change: Option<&[u8]> = if at < edits.len() {
                assert(views[at as int].1 == edits@[at as int].bytes@);
                Some(edits[at].bytes.as_slice())
            } else {
                None
            };
            match write_entry(src, &e, change, &mut locals, &mut headers, drift) {
                Ok(d) => {
                    drift = d;
                },
                Err(err) => {
                    failed = Some(err);
                },
            }
        }
    }
    match failed {
        Some(e) => {
            return Err(e);
        },
        None => {},
    }
    let ghost local_views = splice_views(locals@);
    let ghost header_views = splice_views(headers@);
    locals.append(&mut headers);
    assert(splice_views(locals@) =~= local_views + header_views);
    if drift != 0 {
        let moved: i128 = archive.start as i128 + drift;
        if moved < 0 || moved > 0xffff_ffff {
            return Err(PatchError::UnsupportedFeature);
        }
        proof {
            lemma_tail_from(archive.src@, archive.src@.len() - 22);
        }
        with_splice(&mut locals, archive.tail + 16, archive.tail + 20, four(moved as u32));
        assert(splice_views(locals@) =~= local_views + header_views + seq![
            SpliceView {
                start: archive.tail + 16,
                end: archive.tail + 20,
                text: le(archive.start + drift, 4),
            },
        ]);
    }
    Ok(locals)
}

/// Where the local records of the first `k` entries end.
pub open spec fn records_end(entries: Seq<Entry>, k: int) -> int {
    if k <= 0 {
        0
    } else {
        entries[k - 1].end()
    }
}

/// The splices of the first `k` entries are in order: those in local
/// records before the end of the last of these records, those in headers
/// between the start of the directory and the end of the last of these
/// headers.
pub proof fn lemma_written_within(
    src: Seq<u8>,
    tail: int,
    start: int,
    entries: Seq<Entry>,
    edits: Seq<(Seq<u8>, Seq<u8>)>,
    k: int,
)
    requires
        lists(src, tail, start, entries),
        0 <= k <= entries.len(),
    ensures
        0 <= records_end(entries, k) <= start <= header_pos(src, start, tail, k) <= tail,
        written(src, entries, edits, k) matches Ok(st) ==> within(
            st.locals,
            0,
            records_end(entries, k),
        ) && within(st.headers, start, header_pos(src, start, tail, k)),
    decreases k,
{
    if k == 0 {
        if entries.len() > 0 {
            lemma_entry_bounds(src, tail, start, entries, entries.len() - 1);
        }
    } else {
        lemma_written_within(src, tail, start, entries, edits, k - 1);
        lemma_entry_bounds(src, tail, start, entries, k - 1);
        lemma_entry_bounds(src, tail, start, entries, entries.len() - 1);
        let e = entries[k - 1];
        assert(listed_entry(src, start, tail, k - 1) == Some(e));
        lemma_entry_at(src, header_pos(src, start, tail, k - 1), tail);
        let h = header_pos(src, start, tail, k - 1);
        assert(e.header == h);
        assert(header_pos(src, start, tail, k) == e.next);
        if k >= 2 {
            assert(entries[k - 2].end() <= entries[k - 1].local);
        }
        lemma_laid_out(src, tail, start, entries, k - 1);
        match written(src, entries, edits, k - 1) {
            Err(_) => {},
            Ok(before) => {
                match written(src, entries, edits, k) {
                    Err(_) => {},
                    Ok(st) => {
                        let low = records_end(entries, k - 1);
                        let off = offset_splice(e, before.drift);
                        assert(within(off, h + 28, h + 46));
                        match change_of(src, e, edits) {
                            None => {
                                lemma_within_wider(before.locals, 0, low, 0, e.end());
                                lemma_within_wider(before.headers, start, h, start, h + 28);
                                lemma_within_concat(before.headers, off, start, h + 28, h + 46);
                                lemma_within_wider(st.headers, start, h + 46, start, e.next as int);
                            },
                            Some(bytes) => {
                                let packed = packed_bytes(e.method, bytes);
                                let size = bytes.len() as int;
                                let rec = record(src, e, packed, size, checksum(bytes));
                                let x = SpliceView {
                                    start: e.local as int,
                                    end: e.end(),
                                    text: rec,
                                };
                                lemma_within_push(before.locals, 0, low, x, e.end());
                                let hs = header_splices(
                                    e,
                                    packed.len() as int,
                                    bytes.len() as int,
                                    checksum(bytes),
                                );
                                assert(within(hs, h, h + 28));
                                lemma_within_concat(before.headers, hs, start, h, h + 28);
                                lemma_within_concat(
                                    before.headers + hs,
                                    off,
                                    start,
                                    h + 28,
                                    h + 46,
                                );
                                lemma_within_wider(st.headers, start, h + 46, start, e.next as int);
                            },
                        }
                    },
                }
            },
        }
    }
}

/// Each entry ends before the next one and before the directory starts.
pub proof fn lemma_laid_out(src: Seq<u8>, tail: int, start: int, entries: Seq<Entry>, i: int)
    requires
        lists(src, tail, start, entries),
        0 <= i < entries.len(),
    ensures
        entries[i].end() <= start,
        i + 1 < entries.len() ==> entries[i].end() <= entries[i + 1].local,
    decreases entries.len() - i,
{
    if i + 1 < entries.len() {
        lemma_laid_out(src, tail, start, entries, i + 1);
        lemma_entry_bounds(src, tail, start, entries, i + 1);
        assert(entries[i].end() <= entries[i + 1].local);
    }
}

/// The splices of a write are in order: they can always be made.
pub proof fn lemma_write_in_order(
    src: Seq<u8>,
    tail: int,
    start: int,
    entries: Seq<Entry>,
    edits: Seq<(Seq<u8>, Seq<u8>)>,
)
    requires
        lists(src, tail, start, entries),
    ensures
        write_plan(src, tail, start, entries, edits) matches Ok(s) ==> ordered(
            s,
            src.len() as int,
        ),
{
    let n = entries.len() as int;
    lemma_written_within(src, tail, start, entries, edits, n);
    lemma_tail_from(src, src.len() - 22);
    match write_plan(src, tail, start, entries, edits) {
        Err(_) => {},
        Ok(s) => {
            let st = written(src, entries, edits, n).unwrap();
            lemma_within_wider(st.locals, 0, records_end(entries, n), 0, start);
            lemma_within_wider(st.headers, start, header_pos(src, start, tail, n), start, tail);
            lemma_within_concat(st.locals, st.headers, 0, start, tail);
            if st.drift != 0 {
                let x = SpliceView {
                    start: tail + 16,
                    end: tail + 20,
                    text: le(start + st.drift, 4),
                };
                lemma_within_push(st.locals + st.headers, 0, tail, x, tail + 20);
                assert(s =~= (st.locals + st.headers).push(x));
                lemma_within_ordered(s, 0, tail + 20, src.len() as int);
            } else {
                lemma_within_ordered(s, 0, tail, src.len() as int);
            }
        },
    }
}

/// Writes the archive with the edited parts in place of the old ones.
/// Every byte outside the local records of the edited entries and the
/// directory fields that follow them is the source's.
pub fn write(archive: &Archive, edits: &Vec<Edited>) -> (outcome: Result<Vec<u8>, PatchError>)
    requires
        archive.wf(),
    ensures
        bytes_of(outcome) == made(
            archive.src@,
            write_plan(
                archive.src@,
                archive.tail as int,
                archive.start as int,
                archive.entries@,
                edited_views(edits@),
            ),
        ),
{
    proof {
        lemma_write_in_order(
            archive.src@,
            archive.tail as int,
            archive.start as int,
            archive.entries@,
            edited_views(edits@),
        );
    }
    make(archive.src.as_slice(), plan_write(archive, edits))
}

} // verus!
