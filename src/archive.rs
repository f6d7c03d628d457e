//! The archive file: its layout, how a stage is written into it, and how an
//! entry is found and decoded again.
use vstd::prelude::*;
use vstd::utf8::*;
use core::cmp::Ordering;
use crate::compression::{decompress, xz_decoded, xz_decodes};
use crate::index_serialization::{
    IndexDeserializer, IndexEntry, IndexSerializer, be_u64, encodable, entries_bytes, index_bytes,
    index_vec_from_bytes, lemma_be_u64_round_trip, lemma_index_round_trip, parse_index, u64_be,
};
use crate::path::{
    compare_paths, lemma_path_lt_irreflexive, lemma_path_lt_total, lemma_path_lt_transitive,
    path_is_valid, path_lt, valid_path,
};
use crate::resource_library::{ResourceError, StagedEntry, is_stage, stage_get, stages_at};

verus! {

/// The ten bytes that open every archive.
pub open spec fn fingerprint() -> Seq<u8> {
    seq![0x67u8, 0xD7u8, 0x70u8, 0x3Au8, 0x54u8, 0x3Du8, 0xDBu8, 0xF5u8, 0x17u8, 0x95u8]
}

/// Fingerprint, index length and data length: the fixed-size header.
pub open spec fn header_len() -> int {
    26
}

/// The payloads one after the other: the data block.
pub open spec fn concat(ps: Seq<Seq<u8>>) -> Seq<u8>
    decreases ps.len(),
{
    if ps.len() == 0 {
        Seq::empty()
    } else {
        concat(ps.drop_last()) + ps.last()
    }
}

/// The index written before the payloads are known: every offset and
/// length is `u64::MAX`.
pub open spec fn placeholder_index(paths: Seq<Seq<char>>) -> Seq<IndexEntry> {
    Seq::new(paths.len(), |i: int| (paths[i], u64::MAX, u64::MAX))
}

/// The index of payloads laid out in order: each starts where the ones
/// before it end.
pub open spec fn final_index(paths: Seq<Seq<char>>, ps: Seq<Seq<u8>>) -> Seq<IndexEntry> {
    Seq::new(paths.len(), |i: int| (paths[i], concat(ps.take(i)).len() as u64, ps[i].len() as u64))
}

/// An archive file holding `index` and the data block `data`.
pub open spec fn archive_bytes(index: Seq<IndexEntry>, data: Seq<u8>) -> Seq<u8> {
    fingerprint() + u64_be(index_bytes(index).len() as u64) + u64_be(data.len() as u64)
        + index_bytes(index) + data
}

pub open spec fn strs_view(s: Seq<&str>) -> Seq<Seq<char>> {
    s.map_values(|x: &str| x@)
}

pub open spec fn vecs_view(v: Seq<Vec<u8>>) -> Seq<Seq<u8>> {
    v.map_values(|x: Vec<u8>| x@)
}

/// The paths of a stage, in its order.
pub open spec fn stage_paths(s: Seq<StagedEntry>) -> Seq<Seq<char>> {
    s.map_values(|e: StagedEntry| e.0)
}

/// `ps` holds one payload per staged resource, in stage order, and each
/// payload is accepted by the decoder and decodes to the bytes of its
/// resource.
pub open spec fn payloads_for(s: Seq<StagedEntry>, ps: Seq<Seq<u8>>) -> bool {
    &&& ps.len() == s.len()
    &&& forall|i: int|
        0 <= i < s.len() ==> xz_decodes(#[trigger] ps[i]) && xz_decoded(ps[i]) == s[i].1
}

/// Two indexes with the same paths encode to the same number of bytes.
pub proof fn lemma_index_len_by_paths(a: Seq<IndexEntry>, b: Seq<IndexEntry>)
    requires
        a.len() == b.len(),
        forall|i: int| 0 <= i < a.len() ==> (#[trigger] a[i]).0 == b[i].0,
    ensures
        entries_bytes(a).len() == entries_bytes(b).len(),
        index_bytes(a).len() == index_bytes(b).len(),
    decreases a.len(),
{
    if a.len() > 0 {
        let (a0, b0) = (a.drop_last(), b.drop_last());
        assert forall|i: int| 0 <= i < a0.len() implies (#[trigger] a0[i]).0 == b0[i].0 by {
            assert(a0[i] == a[i]);
        }
        lemma_index_len_by_paths(a0, b0);
        assert(a[a.len() - 1].0 == b[b.len() - 1].0);
    }
}

/// Overwrites the eight bytes at `at` with the big-endian bytes of `v`.
fn write_u64_at(out: &mut Vec<u8>, at: usize, v: u64)
    requires
        at + 8 <= old(out).len(),
    ensures
        final(out)@ == old(out)@.take(at as int) + u64_be(v) + old(out)@.skip(at + 8),
{
    out[at] = #[verifier::truncate] ((v >> 56u64) as u8);
    out[at + 1] = #[verifier::truncate] ((v >> 48u64) as u8);
    out[at + 2] = #[verifier::truncate] ((v >> 40u64) as u8);
    out[at + 3] = #[verifier::truncate] ((v >> 32u64) as u8);
    out[at + 4] = #[verifier::truncate] ((v >> 24u64) as u8);
    out[at + 5] = #[verifier::truncate] ((v >> 16u64) as u8);
    out[at + 6] = #[verifier::truncate] ((v >> 8u64) as u8);
    out[at + 7] = #[verifier::truncate] (v as u8);
    assert(out@ =~= old(out)@.take(at as int) + u64_be(v) + old(out)@.skip(at + 8));
}

/// Overwrites the bytes at `at` with those of `b`.
fn write_bytes_at(out: &mut Vec<u8>, at: usize, b: &[u8])
    requires
        at + b@.len() <= old(out).len(),
    ensures
        final(out)@ == old(out)@.take(at as int) + b@ + old(out)@.skip(at + b@.len()),
{
    let mut i: usize = 0;
    while i < b.len()
        invariant
            i <= b@.len(),
            at + b@.len() <= out.len(),
            out@.len() == old(out)@.len(),
            out@ == old(out)@.take(at as int) + b@.take(i as int) + old(out)@.skip(at + i),
        decreases b@.len() - i,
    {
        out[at + i] = b[i];
        i = i + 1;
        assert(out@ =~= old(out)@.take(at as int) + b@.take(i as int) + old(out)@.skip(at + i));
    }
    assert(b@.take(i as int) =~= b@);
}

/// The fingerprint as bytes.
fn fingerprint_bytes() -> (r: Vec<u8>)
    ensures
        r@ == fingerprint(),
{
    let r: Vec<u8> = vec![0x67u8, 0xD7u8, 0x70u8, 0x3Au8, 0x54u8, 0x3Du8, 0xDBu8, 0xF5u8, 0x17u8,
        0x95u8];
    assert(r@ =~= fingerprint());
    r
}

/// The big-endian bytes of `v`.
fn u64_bytes(v: u64) -> (r: Vec<u8>)
    ensures
        r@ == u64_be(v),
{
    let mut s = IndexSerializer::new();
    s.serialize_u64(v);
    let b = s.take();
    let mut r: Vec<u8> = Vec::new();
    r.extend_from_slice(&b);
    r
}

/// Writes an archive of `payloads`, stored under `paths` in that order.
///
/// First a placeholder index is encoded and written after the header, with
/// a zero data length; then the payloads follow one after the other, each
/// entry taking the offset reached so far and the payload's length; last,
/// the data length and the finished index are written over their
/// placeholders. The finished index must encode to as many bytes as the
/// placeholder did, and this is checked before it is written.
pub fn assemble_archive(paths: &[&str], payloads: &[Vec<u8>]) -> (r: Result<Vec<u8>, ResourceError>)
    requires
        paths@.len() == payloads@.len(),
    ensures
        r is Ok,
        r->Ok_0@ == archive_bytes(
            final_index(strs_view(paths@), vecs_view(payloads@)),
            concat(vecs_view(payloads@)),
        ),
{
    let ghost names = strs_view(paths@);
    let ghost ps = vecs_view(payloads@);
    let n = paths.len();
    let mut index: Vec<(String, u64, u64)> = Vec::new();
    let mut i: usize = 0;
    while i < n
        invariant
            i <= n,
            n == paths@.len(),
            names == strs_view(paths@),
            index.deep_view() =~= placeholder_index(names).take(i as int),
        decreases n - i,
    {
        let ghost prev = index.deep_view();
        let entry = (paths[i].to_owned(), u64::MAX, u64::MAX);
        assert(entry.deep_view() == placeholder_index(names)[i as int]);
        index.push(entry);
        assert(index.deep_view() =~= prev.push(entry.deep_view()));
        i = i + 1;
    }
    assert(index.deep_view() =~= placeholder_index(names));
    let ghost placeholder = placeholder_index(names);
    let ghost finished = final_index(names, ps);
    let mut ser = IndexSerializer::new();
    ser.serialize_index(index.as_slice());
    let index_data = ser.take();
    let index_len = index_data.len();
    assert(index_data@ == index_bytes(placeholder));
    let mut out = fingerprint_bytes();
    out.extend_from_slice(&u64_bytes(index_len as u64));
    let data_len_offset = out.len();
    out.extend_from_slice(&u64_bytes(0));
    out.extend_from_slice(&index_data);
    let index_offset = data_len_offset + 8;
    let ghost head = out@;
    assert(head.len() == header_len() + index_len);
    let mut data_len: u64 = 0;
    let mut i: usize = 0;
    while i < n
        invariant
            i <= n,
            index@.len() == n,
            n == paths@.len(),
            n == payloads@.len(),
            ps == vecs_view(payloads@),
            index.deep_view() == Seq::new(
                n as nat,
                |j: int|
                    if j < i {
                        finished[j]
                    } else {
                        placeholder[j]
                    },
            ),
            out@ == head + concat(ps.take(i as int)),
            data_len == concat(ps.take(i as int)).len(),
            head.len() == header_len() + index_len,
            finished == final_index(names, ps),
            placeholder == placeholder_index(names),
            names.len() == n,
        decreases n - i,
    {
        let len = payloads[i].len();
        out.extend_from_slice(payloads[i].as_slice());
        let written = out.len();
        proof {
            assert(data_len + len == written - head.len());
            assert(ps.take(i + 1).drop_last() =~= ps.take(i as int));
            assert(ps[i as int] == payloads@[i as int]@);
        }
        let ghost before = index.deep_view();
        let ghost before_v = index@;
        index[i].1 = data_len;
        index[i].2 = len as u64;
        proof {
            assert(index@ =~= before_v.update(i as int, (before_v[i as int].0, data_len, len as u64)));
            assert(before[i as int] == before_v[i as int].deep_view());
            assert(finished[i as int] == (names[i as int], data_len, len as u64));
            assert(index.deep_view() =~= before.update(i as int, finished[i as int]));
        }
        data_len = data_len + len as u64;
        i = i + 1;
        proof {
            assert(out@ =~= head + concat(ps.take(i as int)));
        }
    }
    assert(ps.take(n as int) =~= ps);
    assert(index.deep_view() =~= finished);
    proof {
        lemma_index_len_by_paths(finished, placeholder);
    }
    write_u64_at(&mut out, data_len_offset, data_len);
    let mut ser = IndexSerializer::new();
    ser.serialize_index(index.as_slice());
    let finished_data = ser.take();
    if finished_data.len() != index_len {
        return Err(ResourceError::FormatError("index length changed".to_owned()));
    }
    write_bytes_at(&mut out, index_offset, &finished_data);
    Ok(out)
}

/// The index and data lengths that the header at the front of `b` gives,
/// if `b` opens with a whole header that carries the fingerprint.
pub open spec fn header_of(b: Seq<u8>) -> Option<(u64, u64)> {
    if b.len() >= header_len() && b.take(10) == fingerprint() {
        Some((be_u64(b.skip(10)), be_u64(b.skip(18))))
    } else {
        None
    }
}

proof fn lemma_be_u64_prefix(x: Seq<u8>, y: Seq<u8>)
    requires
        x.len() >= 8,
        y.len() >= 8,
        forall|k: int| 0 <= k < 8 ==> x[k] == y[k],
    ensures
        be_u64(x) == be_u64(y),
{
    assert(x[0] == y[0] && x[1] == y[1] && x[2] == y[2] && x[3] == y[3]);
    assert(x[4] == y[4] && x[5] == y[5] && x[6] == y[6] && x[7] == y[7]);
}

/// The lengths that an archive's header declares.
#[derive(Debug)]
pub struct ArchiveHeader {
    pub index_len: u64,
    pub data_len: u64,
}

/// Reads the header at the front of `bytes`.
pub fn parse_header(bytes: &[u8]) -> (r: Result<ArchiveHeader, ResourceError>)
    ensures
        match header_of(bytes@) {
            Some((l, d)) => r is Ok && r->Ok_0.index_len == l && r->Ok_0.data_len == d,
            None => r is Err && r->Err_0 is FormatError,
        },
{
    if bytes.len() < 26 {
        return Err(ResourceError::FormatError("truncated header".to_owned()));
    }
    let expected = fingerprint_bytes();
    let mut i: usize = 0;
    while i < 10
        invariant
            i <= 10,
            bytes@.len() >= 26,
            expected@ == fingerprint(),
            bytes@.take(i as int) == fingerprint().take(i as int),
        decreases 10 - i,
    {
        if bytes[i] != expected[i] {
            assert(bytes@.take(10)[i as int] != fingerprint()[i as int]);
            return Err(ResourceError::FormatError("fingerprint does not match".to_owned()));
        }
        assert(bytes@.take(i + 1) =~= fingerprint().take(i + 1));
        i = i + 1;
    }
    assert(fingerprint().take(10) =~= fingerprint());
    let lengths = vstd::slice::slice_subrange(bytes, 10, 26);
    let mut de = IndexDeserializer::new(lengths);
    let index_len = match de.next_u64() {
        Ok(v) => v,
        Err(_) => return Err(ResourceError::FormatError("truncated header".to_owned())),
    };
    let data_len = match de.next_u64() {
        Ok(v) => v,
        Err(_) => return Err(ResourceError::FormatError("truncated header".to_owned())),
    };
    proof {
        lemma_be_u64_prefix(lengths@, bytes@.skip(10));
        lemma_be_u64_prefix(lengths@.skip(8), bytes@.skip(18));
    }
    Ok(ArchiveHeader { index_len, data_len })
}

impl ArchiveHeader {
    /// Accepts a file of `file_len` bytes only if it holds the whole header,
    /// index block and data block that the header declares.
    pub fn check_length(&self, file_len: u64) -> (r: Result<(), ResourceError>)
        ensures
            r is Ok <==> header_len() + self.index_len + self.data_len <= file_len,
            r is Err ==> r->Err_0 is FormatError,
    {
        if file_len < 26 || self.index_len > file_len - 26 || self.data_len > file_len - 26
            - self.index_len {
            Err(ResourceError::FormatError("file is shorter than its header declares".to_owned()))
        } else {
            Ok(())
        }
    }
}

/// An index lists each path once, in strictly ascending path order.
pub open spec fn index_sorted(es: Seq<IndexEntry>) -> bool {
    forall|i: int, j: int| 0 <= i < j < es.len() ==> path_lt(#[trigger] es[i].0, #[trigger] es[j].0)
}

/// Whether the record at `i` of `es` is stored under `p`.
pub open spec fn indexes_at(es: Seq<IndexEntry>, p: Seq<char>, i: int) -> bool {
    0 <= i < es.len() && es[i].0 == p
}

/// The offset and length recorded for `p`, if `es` has a record for it.
pub open spec fn entry_for(es: Seq<IndexEntry>, p: Seq<char>) -> Option<(u64, u64)> {
    if exists|i: int| indexes_at(es, p, i) {
        let i = choose|i: int| indexes_at(es, p, i);
        Some((es[i].1, es[i].2))
    } else {
        None
    }
}

/// In a sorted index, the record at `i` is the one found under its path.
pub proof fn lemma_entry_for_at(es: Seq<IndexEntry>, i: int)
    requires
        index_sorted(es),
        0 <= i < es.len(),
    ensures
        entry_for(es, es[i].0) == Some((es[i].1, es[i].2)),
{
    let p = es[i].0;
    assert(indexes_at(es, p, i));
    let j = choose|j: int| indexes_at(es, p, j);
    if j != i {
        lemma_path_lt_irreflexive(p);
        if j < i {
            assert(path_lt(es[j].0, es[i].0));
        } else {
            assert(path_lt(es[i].0, es[j].0));
        }
    }
}

/// The parsed index of an open archive, and where its data block starts.
#[derive(Debug)]
pub struct ArchiveIndex {
    index: Vec<(String, u64, u64)>,
    data_pointer: u64,
}

impl View for ArchiveIndex {
    type V = (Seq<IndexEntry>, u64);

    /// The records, and the file offset of the data block.
    closed spec fn view(&self) -> (Seq<IndexEntry>, u64) {
        (self.index.deep_view(), self.data_pointer)
    }
}

impl ArchiveIndex {
    pub open spec fn wf(&self) -> bool {
        index_sorted(self@.0)
    }

    /// Decodes the index block that follows `header`. The block must be
    /// exactly as long as the header says, decode as an index, and list its
    /// paths in strictly ascending order.
    pub fn parse(header: &ArchiveHeader, index_bytes: &[u8]) -> (r: Result<
        ArchiveIndex,
        ResourceError,
    >)
        ensures
            r is Ok ==> r->Ok_0.wf(),
            index_bytes@.len() != header.index_len ==> r is Err && r->Err_0 is FormatError,
            index_bytes@.len() == header.index_len ==> match parse_index(index_bytes@) {
                None => r is Err && r->Err_0 is FormatError,
                Some(es) => if index_sorted(es) && header_len() + header.index_len <= u64::MAX {
                    r is Ok && r->Ok_0@ == (es, (header_len() + header.index_len) as u64)
                } else {
                    r is Err && r->Err_0 is FormatError
                },
            },
    {
        if index_bytes.len() as u64 != header.index_len {
            return Err(ResourceError::FormatError("truncated index".to_owned()));
        }
        let index = match index_vec_from_bytes(index_bytes) {
            Ok(v) => v,
            Err(_) => return Err(ResourceError::FormatError("malformed index".to_owned())),
        };
        let ghost es = index.deep_view();
        let n = index.len();
        let mut i: usize = 1;
        while i < n
            invariant
                1 <= i,
                n == index@.len(),
                parse_index(index_bytes@) == Some(es),
                index_bytes@.len() == header.index_len,
                es == index.deep_view(),
                forall|a: int, b: int|
                    0 <= a < b < i && b < n ==> path_lt(#[trigger] es[a].0, #[trigger] es[b].0),
            decreases n - i,
        {
            assert(es[i - 1].0 == index@[i - 1].0@ && es[i as int].0 == index@[i as int].0@);
            let c = compare_paths(index[i - 1].0.as_str(), index[i].0.as_str());
            match c {
                Ordering::Less => {},
                _ => {
                    assert(!index_sorted(es)) by {
                        lemma_path_lt_irreflexive(es[i - 1].0);
                        lemma_path_lt_total(es[i - 1].0, es[i as int].0);
                        assert(!path_lt(es[i - 1].0, es[i as int].0));
                    }
                    return Err(ResourceError::FormatError("index is not sorted".to_owned()));
                },
            }
            assert forall|a: int, b: int|
                0 <= a < b < i + 1 && b < n implies path_lt(
                #[trigger] es[a].0,
                #[trigger] es[b].0,
            ) by {
                if b == i && a < i - 1 {
                    lemma_path_lt_transitive(es[a].0, es[i - 1].0, es[b].0);
                }
            }
            i = i + 1;
        }
        assert(index_sorted(es));
        if header.index_len > u64::MAX - 26 {
            return Err(ResourceError::FormatError("index is too long".to_owned()));
        }
        Ok(ArchiveIndex { index, data_pointer: 26 + header.index_len })
    }

    /// Finds `path` by binary search and returns the file offset and length
    /// of its payload.
    pub fn locate(&self, path: &str) -> (r: Result<(u64, u64), ResourceError>)
        requires
            self.wf(),
        ensures
            !valid_path(path@) ==> r is Err && r->Err_0 is InvalidPath && r->Err_0->InvalidPath_0@
                == path@,
            valid_path(path@) ==> match entry_for(self@.0, path@) {
                None => r is Err && r->Err_0 is NotFound && r->Err_0->NotFound_0@ == path@,
                Some((offset, length)) => if self@.1 + offset <= u64::MAX {
                    r is Ok && r->Ok_0 == ((self@.1 + offset) as u64, length)
                } else {
                    r is Err && r->Err_0 is FormatError
                },
            },
    {
        if !path_is_valid(path) {
            return Err(ResourceError::InvalidPath(path.to_owned()));
        }
        let ghost es = self@.0;
        let ghost p = path@;
        let mut lo: usize = 0;
        let mut hi: usize = self.index.len();
        while lo < hi
            invariant
                0 <= lo <= hi <= es.len(),
                p == path@,
                valid_path(p),
                es.len() == self.index@.len(),
                es == self.index.deep_view(),
                index_sorted(es),
                forall|j: int| 0 <= j < lo ==> path_lt(#[trigger] es[j].0, p),
                forall|j: int| hi <= j < es.len() ==> path_lt(p, #[trigger] es[j].0),
            decreases hi - lo,
        {
            let mid = lo + (hi - lo) / 2;
            assert(es[mid as int].0 == self.index@[mid as int].0@);
            let c = compare_paths(self.index[mid].0.as_str(), path);
            match c {
                Ordering::Less => {
                    assert(path_lt(es[mid as int].0, p));
                    assert forall|j: int| 0 <= j < mid + 1 implies path_lt(#[trigger] es[j].0, p) by {
                        if j < mid {
                            lemma_path_lt_transitive(es[j].0, es[mid as int].0, p);
                        }
                    }
                    lo = mid + 1;
                },
                Ordering::Greater => {
                    assert(path_lt(p, es[mid as int].0));
                    assert forall|j: int| mid <= j < es.len() implies path_lt(p, #[trigger] es[j].0) by {
                        if j > mid {
                            lemma_path_lt_transitive(p, es[mid as int].0, es[j].0);
                        }
                    }
                    hi = mid;
                },
                Ordering::Equal => {
                    proof {
                        lemma_entry_for_at(es, mid as int);
                    }
                    let offset = self.index[mid].1;
                    let length = self.index[mid].2;
                    if offset > u64::MAX - self.data_pointer {
                        return Err(ResourceError::FormatError("offset out of range".to_owned()));
                    }
                    return Ok((self.data_pointer + offset, length));
                },
            }
        }
        assert forall|j: int| 0 <= j < es.len() implies !indexes_at(es, p, j) by {
            lemma_path_lt_irreflexive(p);
        }
        Err(ResourceError::NotFound(path.to_owned()))
    }

    /// The archived paths, in ascending path order.
    pub fn get_all_files(&self) -> (r: Box<[&str]>)
        ensures
            r@.len() == self@.0.len(),
            forall|i: int| 0 <= i < r@.len() ==> (#[trigger] r@[i])@ == self@.0[i].0,
    {
        let mut out: Vec<&str> = Vec::new();
        let mut i: usize = 0;
        while i < self.index.len()
            invariant
                i <= self.index@.len(),
                self@.0.len() == self.index@.len(),
                out@.len() == i,
                forall|j: int| 0 <= j < i ==> (#[trigger] out@[j])@ == self@.0[j].0,
            decreases self.index@.len() - i,
        {
            out.push(self.index[i].0.as_str());
            i = i + 1;
        }
        crate::index_serialization::into_boxed(out)
    }
}

/// Decompresses one entry's payload.
pub fn decode_entry(payload: &[u8]) -> (r: Result<Box<[u8]>, ResourceError>)
    ensures
        r is Ok <==> xz_decodes(payload@),
        r is Ok ==> r->Ok_0@ == xz_decoded(payload@),
        r is Err ==> r->Err_0 is CodecError,
{
    match decompress(payload) {
        Ok(bytes) => Ok(crate::index_serialization::into_boxed(bytes)),
        Err(_) => Err(ResourceError::CodecError),
    }
}

/// Opens an archive of `file_len` bytes from its first bytes `head` (the
/// first 26, or all of a shorter file): the fingerprint must be there, and
/// the file must hold the whole index and data block that the header
/// declares.
pub fn open_header(head: &[u8], file_len: u64) -> (r: Result<ArchiveHeader, ResourceError>)
    ensures
        head@.len() < header_len() || head@.take(10) != fingerprint() ==> r is Err
            && r->Err_0 is FormatError,
        match header_of(head@) {
            None => r is Err && r->Err_0 is FormatError,
            Some((l, d)) => if header_len() + l + d <= file_len {
                r is Ok && r->Ok_0.index_len == l && r->Ok_0.data_len == d
            } else {
                r is Err && r->Err_0 is FormatError
            },
        },
{
    let header = match parse_header(head) {
        Ok(h) => h,
        Err(e) => return Err(e),
    };
    match header.check_length(file_len) {
        Ok(()) => Ok(header),
        Err(e) => Err(e),
    }
}

/// Decodes an entry of `length` bytes from what could be read of it: fewer
/// bytes than that means the archive is cut short.
pub fn read_entry(bytes_read: &[u8], length: u64) -> (r: Result<Box<[u8]>, ResourceError>)
    ensures
        bytes_read@.len() < length ==> r is Err && r->Err_0 is FormatError,
        bytes_read@.len() >= length ==> {
            let payload = bytes_read@.take(length as int);
            &&& r is Ok <==> xz_decodes(payload)
            &&& r is Ok ==> r->Ok_0@ == xz_decoded(payload)
            &&& r is Err ==> r->Err_0 is CodecError
        },
{
    if (bytes_read.len() as u64) < length {
        return Err(ResourceError::FormatError("truncated entry".to_owned()));
    }
    let payload = vstd::slice::slice_subrange(bytes_read, 0, length as usize);
    assert(payload@ =~= bytes_read@.take(length as int));
    decode_entry(payload)
}

/// The payloads before `k` form the start of the data block.
proof fn lemma_concat_prefix(ps: Seq<Seq<u8>>, k: int)
    requires
        0 <= k <= ps.len(),
    ensures
        concat(ps.take(k)).len() <= concat(ps).len(),
        concat(ps).take(concat(ps.take(k)).len() as int) == concat(ps.take(k)),
    decreases ps.len() - k,
{
    if k == ps.len() {
        assert(ps.take(k) =~= ps);
    } else {
        lemma_concat_prefix(ps, k + 1);
        let a = concat(ps.take(k));
        let b = concat(ps.take(k + 1));
        assert(ps.take(k + 1).drop_last() =~= ps.take(k));
        assert(b == a + ps[k]);
        assert(concat(ps).take(a.len() as int) =~= b.take(a.len() as int));
        assert(b.take(a.len() as int) =~= a);
    }
}

/// Where payload `i` lies in the data block.
proof fn lemma_payload_in_data(ps: Seq<Seq<u8>>, i: int)
    requires
        0 <= i < ps.len(),
    ensures
        concat(ps.take(i)).len() + ps[i].len() <= concat(ps).len(),
        concat(ps).subrange(
            concat(ps.take(i)).len() as int,
            (concat(ps.take(i)).len() + ps[i].len()) as int,
        ) == ps[i],
{
    lemma_concat_prefix(ps, i + 1);
    let a = concat(ps.take(i));
    let b = concat(ps.take(i + 1));
    assert(ps.take(i + 1).drop_last() =~= ps.take(i));
    assert(b == a + ps[i]);
    assert(concat(ps).subrange(a.len() as int, (a.len() + ps[i].len()) as int) =~= b.subrange(
        a.len() as int,
        b.len() as int,
    ));
    assert(b.subrange(a.len() as int, b.len() as int) =~= ps[i]);
}

/// The header of a written archive carries the fingerprint and the true
/// index and data lengths.
proof fn lemma_written_header(index: Seq<IndexEntry>, data: Seq<u8>)
    requires
        header_len() + index_bytes(index).len() + data.len() <= u64::MAX,
    ensures
        archive_bytes(index, data).len() == header_len() + index_bytes(index).len() + data.len(),
        header_of(archive_bytes(index, data)) == Some(
            (index_bytes(index).len() as u64, data.len() as u64),
        ),
        archive_bytes(index, data).subrange(
            header_len(),
            header_len() + index_bytes(index).len(),
        ) == index_bytes(index) + Seq::<u8>::empty(),
        archive_bytes(index, data).skip(header_len() + index_bytes(index).len()) == data,
{
    let l = index_bytes(index).len();
    let img = archive_bytes(index, data);
    lemma_be_u64_round_trip(l as u64);
    lemma_be_u64_round_trip(data.len() as u64);
    assert(img.take(10) =~= fingerprint());
    assert forall|k: int| 0 <= k < 8 implies img.skip(10)[k] == u64_be(l as u64)[k] by {}
    lemma_be_u64_prefix(img.skip(10), u64_be(l as u64));
    assert forall|k: int| 0 <= k < 8 implies img.skip(18)[k] == u64_be(data.len() as u64)[k] by {}
    lemma_be_u64_prefix(img.skip(18), u64_be(data.len() as u64));
    assert(img.subrange(header_len(), header_len() + l) =~= index_bytes(index) + Seq::<u8>::empty());
    assert(img.skip(header_len() + l) =~= data);
}

/// The index written for a stage is sorted, and holds a record for a path
/// exactly when the path was staged.
proof fn lemma_written_index(s: Seq<StagedEntry>, ps: Seq<Seq<u8>>)
    requires
        is_stage(s),
        ps.len() == s.len(),
    ensures
        index_sorted(final_index(stage_paths(s), ps)),
        forall|q: Seq<char>| #[trigger]
            entry_for(final_index(stage_paths(s), ps), q) is Some <==> stage_get(s, q) is Some,
{
    let index = final_index(stage_paths(s), ps);
    assert forall|i: int, j: int| 0 <= i < j < index.len() implies path_lt(
        #[trigger] index[i].0,
        #[trigger] index[j].0,
    ) by {
        assert(path_lt(s[i].0, s[j].0));
    }
    assert forall|q: Seq<char>| #[trigger]
        entry_for(index, q) is Some <==> stage_get(s, q) is Some by {
        if exists|i: int| indexes_at(index, q, i) {
            let i = choose|i: int| indexes_at(index, q, i);
            assert(stages_at(s, q, i));
        }
        if exists|i: int| stages_at(s, q, i) {
            let i = choose|i: int| stages_at(s, q, i);
            assert(indexes_at(index, q, i));
        }
    }
}

/// Reading back a written stage. Take a stage and payloads that decode to
/// its resources, small enough for the archive's 64-bit fields, and the
/// archive that is written from them: its header carries the fingerprint
/// and the true index and data lengths; its index block decodes to an index
/// in strictly ascending path order; a path has a record exactly when it
/// was staged; and the record of a staged path points, inside the data
/// block, at exactly that resource's payload, which the decoder accepts
/// and decodes to the staged bytes.
pub proof fn lemma_archive_round_trip(s: Seq<StagedEntry>, ps: Seq<Seq<u8>>)
    requires
        is_stage(s),
        payloads_for(s, ps),
        s.len() <= u64::MAX,
        forall|i: int| 0 <= i < s.len() ==> encode_utf8(#[trigger] s[i].0).len() <= u64::MAX,
        header_len() + index_bytes(final_index(stage_paths(s), ps)).len() + concat(ps).len()
            <= u64::MAX,
    ensures
        ({
            let index = final_index(stage_paths(s), ps);
            let data = concat(ps);
            let img = archive_bytes(index, data);
            let l = index_bytes(index).len();
            &&& img.len() == header_len() + l + data.len()
            &&& header_of(img) == Some((l as u64, data.len() as u64))
            &&& parse_index(img.subrange(header_len(), header_len() + l)) == Some(index)
            &&& index_sorted(index)
            &&& forall|q: Seq<char>| #[trigger]
                entry_for(index, q) is Some <==> stage_get(s, q) is Some
            &&& forall|i: int|
                0 <= i < s.len() ==> {
                    let off = concat(ps.take(i)).len();
                    &&& entry_for(index, s[i].0) == Some((off as u64, ps[i].len() as u64))
                    &&& img.subrange(header_len() + l + off, header_len() + l + off + ps[i].len())
                        == ps[i]
                    &&& #[trigger] xz_decodes(ps[i])
                    &&& xz_decoded(ps[i]) == s[i].1
                }
        }),
{
    let index = final_index(stage_paths(s), ps);
    let data = concat(ps);
    let l = index_bytes(index).len();
    let img = archive_bytes(index, data);
    lemma_written_header(index, data);
    assert(encodable(index)) by {
        assert forall|i: int| 0 <= i < index.len() implies encode_utf8(#[trigger] index[i].0).len()
            <= u64::MAX by {
            assert(index[i].0 == s[i].0);
        }
    }
    lemma_index_round_trip(index, Seq::empty());
    lemma_written_index(s, ps);
    assert forall|i: int| 0 <= i < s.len() implies {
        let off = concat(ps.take(i)).len();
        &&& entry_for(index, s[i].0) == Some((off as u64, ps[i].len() as u64))
        &&& img.subrange(header_len() + l + off, header_len() + l + off + ps[i].len()) == ps[i]
        &&& #[trigger] xz_decodes(ps[i])
        &&& xz_decoded(ps[i]) == s[i].1
    } by {
        let off = concat(ps.take(i)).len();
        lemma_entry_for_at(index, i);
        lemma_payload_in_data(ps, i);
        assert(img.subrange(header_len() + l + off, header_len() + l + off + ps[i].len())
            =~= data.subrange(off as int, (off + ps[i].len()) as int));
    }
}

/// Refusing a damaged file. Take the first bytes of a file, up to the 26
/// that `open_header` is given: if the file is shorter than a header, or its
/// first ten bytes are not the fingerprint, no header is found; otherwise
/// the header gives the index and data lengths written at bytes 10 and 18
/// of the file, which `open_header` holds against the file's length.
pub proof fn lemma_damaged_file_refused(file: Seq<u8>)
    ensures
        ({
            let head = file.take(vstd::math::min(header_len(), file.len() as int));
            match header_of(head) {
                None => file.len() < header_len() || file.take(10) != fingerprint(),
                Some((l, d)) => {
                    &&& file.len() >= header_len()
                    &&& file.take(10) == fingerprint()
                    &&& l == be_u64(file.skip(10))
                    &&& d == be_u64(file.skip(18))
                },
            }
        }),
{
    let head = file.take(vstd::math::min(header_len(), file.len() as int));
    if file.len() >= header_len() {
        assert(head.take(10) =~= file.take(10));
        lemma_be_u64_prefix(head.skip(10), file.skip(10));
        lemma_be_u64_prefix(head.skip(18), file.skip(18));
    }
}

} // verus!
