//! The index codec: a fixed binary encoding for sequences of
//! `(string, u64, u64)` triples.
use vstd::prelude::*;
use vstd::utf8::*;
use vstd::string::StringSliceAdditionalSpecFns;

verus! {

/// The eight big-endian bytes of `v`.
pub open spec fn u64_be(v: u64) -> Seq<u8> {
    seq![
        (v >> 56u64) as u8,
        (v >> 48u64) as u8,
        (v >> 40u64) as u8,
        (v >> 32u64) as u8,
        (v >> 24u64) as u8,
        (v >> 16u64) as u8,
        (v >> 8u64) as u8,
        v as u8,
    ]
}

/// The value whose big-endian bytes open `b`.
pub open spec fn be_u64(b: Seq<u8>) -> u64
    recommends
        b.len() >= 8,
{
    ((b[0] as u64) << 56u64) | ((b[1] as u64) << 48u64) | ((b[2] as u64) << 40u64) | ((
    b[3] as u64) << 32u64) | ((b[4] as u64) << 24u64) | ((b[5] as u64) << 16u64) | ((
    b[6] as u64) << 8u64) | (b[7] as u64)
}

pub proof fn lemma_be_u64_round_trip(v: u64)
    ensures
        u64_be(v).len() == 8,
        be_u64(u64_be(v)) == v,
{
    let b = u64_be(v);
    let (b0, b1, b2, b3, b4, b5, b6, b7) = (b[0], b[1], b[2], b[3], b[4], b[5], b[6], b[7]);
    assert(((b0 as u64) << 56u64) | ((b1 as u64) << 48u64) | ((b2 as u64) << 40u64) | ((
    b3 as u64) << 32u64) | ((b4 as u64) << 24u64) | ((b5 as u64) << 16u64) | ((b6 as u64)
        << 8u64) | (b7 as u64) == v) by (bit_vector)
        requires
            b0 == (v >> 56u64) as u8,
            b1 == (v >> 48u64) as u8,
            b2 == (v >> 40u64) as u8,
            b3 == (v >> 32u64) as u8,
            b4 == (v >> 24u64) as u8,
            b5 == (v >> 16u64) as u8,
            b6 == (v >> 8u64) as u8,
            b7 == v as u8,
    ;
}


/// One index record in mathematical form: a path and two integers.
pub type IndexEntry = (Seq<char>, u64, u64);

/// A string on the wire: its UTF-8 byte count, then its UTF-8 bytes.
pub open spec fn str_bytes(s: Seq<char>) -> Seq<u8> {
    u64_be(encode_utf8(s).len() as u64) + encode_utf8(s)
}

/// A record on the wire: the three fields concatenated, with no prefix.
pub open spec fn entry_bytes(e: IndexEntry) -> Seq<u8> {
    str_bytes(e.0) + u64_be(e.1) + u64_be(e.2)
}

/// The records of `es`, one after the other.
pub open spec fn entries_bytes(es: Seq<IndexEntry>) -> Seq<u8>
    decreases es.len(),
{
    if es.len() == 0 {
        Seq::empty()
    } else {
        entries_bytes(es.drop_last()) + entry_bytes(es.last())
    }
}

/// A whole index on the wire: the record count, then the records in order.
pub open spec fn index_bytes(es: Seq<IndexEntry>) -> Seq<u8> {
    u64_be(es.len() as u64) + entries_bytes(es)
}

/// Whether every length that the encoding of `es` writes fits in a `u64`.
pub open spec fn encodable(es: Seq<IndexEntry>) -> bool {
    &&& es.len() <= u64::MAX
    &&& forall|i: int| 0 <= i < es.len() ==> encode_utf8(#[trigger] es[i].0).len() <= u64::MAX
}

/// Reads a `u64` off the front of `b`, if eight bytes are there.
pub open spec fn take_u64(b: Seq<u8>) -> Option<(u64, Seq<u8>)> {
    if b.len() < 8 {
        None
    } else {
        Some((be_u64(b), b.skip(8)))
    }
}

/// Reads a string off the front of `b`: its length, then that many bytes,
/// which must be valid UTF-8.
pub open spec fn take_str(b: Seq<u8>) -> Option<(Seq<char>, Seq<u8>)> {
    match take_u64(b) {
        None => None,
        Some((n, rest)) => {
            if rest.len() < n || !valid_utf8(rest.take(n as int)) {
                None
            } else {
                Some((decode_utf8(rest.take(n as int)), rest.skip(n as int)))
            }
        },
    }
}

/// Reads one record off the front of `b`.
pub open spec fn take_entry(b: Seq<u8>) -> Option<(IndexEntry, Seq<u8>)> {
    match take_str(b) {
        None => None,
        Some((s, r1)) => match take_u64(r1) {
            None => None,
            Some((o, r2)) => match take_u64(r2) {
                None => None,
                Some((l, r3)) => Some(((s, o, l), r3)),
            },
        },
    }
}

/// Reads `n` records off the front of `b`.
pub open spec fn take_entries(b: Seq<u8>, n: nat) -> Option<(Seq<IndexEntry>, Seq<u8>)>
    decreases n,
{
    if n == 0 {
        Some((Seq::empty(), b))
    } else {
        match take_entries(b, (n - 1) as nat) {
            None => None,
            Some((es, r)) => match take_entry(r) {
                None => None,
                Some((e, r2)) => Some((es.push(e), r2)),
            },
        }
    }
}

/// The index that opens `b`: a record count, then that many records.
/// Bytes after the last record are not looked at.
pub open spec fn parse_index(b: Seq<u8>) -> Option<Seq<IndexEntry>> {
    match take_u64(b) {
        None => None,
        Some((n, rest)) => match take_entries(rest, n as nat) {
            None => None,
            Some((es, _)) => Some(es),
        },
    }
}

proof fn lemma_take_u64(v: u64, rest: Seq<u8>)
    ensures
        take_u64(u64_be(v) + rest) == Some((v, rest)),
{
    let b = u64_be(v) + rest;
    lemma_be_u64_round_trip(v);
    assert(be_u64(b) == be_u64(u64_be(v)));
    assert(b.skip(8) =~= rest);
}

proof fn lemma_take_str(s: Seq<char>, rest: Seq<u8>)
    requires
        encode_utf8(s).len() <= u64::MAX,
    ensures
        take_str(str_bytes(s) + rest) == Some((s, rest)),
{
    let bytes = encode_utf8(s);
    let n = bytes.len() as u64;
    let r = bytes + rest;
    assert(str_bytes(s) + rest =~= u64_be(n) + r);
    lemma_take_u64(n, r);
    assert(r.take(n as int) =~= bytes);
    assert(r.skip(n as int) =~= rest);
    assert(valid_utf8(bytes)) by {
        encode_utf8_valid_utf8(s);
    }
    assert(decode_utf8(bytes) == s) by {
        encode_utf8_decode_utf8(s);
    }
}

proof fn lemma_take_entry(e: IndexEntry, rest: Seq<u8>)
    requires
        encode_utf8(e.0).len() <= u64::MAX,
    ensures
        take_entry(entry_bytes(e) + rest) == Some((e, rest)),
{
    let r2 = u64_be(e.2) + rest;
    let r1 = u64_be(e.1) + r2;
    assert(entry_bytes(e) + rest =~= str_bytes(e.0) + r1);
    lemma_take_str(e.0, r1);
    lemma_take_u64(e.1, r2);
    lemma_take_u64(e.2, rest);
}

proof fn lemma_take_entries(es: Seq<IndexEntry>, rest: Seq<u8>)
    requires
        forall|i: int| 0 <= i < es.len() ==> encode_utf8(#[trigger] es[i].0).len() <= u64::MAX,
    ensures
        take_entries(entries_bytes(es) + rest, es.len()) == Some((es, rest)),
    decreases es.len(),
{
    if es.len() > 0 {
        let init = es.drop_last();
        let last = es.last();
        let tail = entry_bytes(last) + rest;
        assert forall|i: int| 0 <= i < init.len() implies encode_utf8(
            #[trigger] init[i].0,
        ).len() <= u64::MAX by {
            assert(init[i] == es[i]);
        }
        lemma_take_entries(init, tail);
        assert(entries_bytes(es) + rest =~= entries_bytes(init) + tail);
        assert(encode_utf8(es[es.len() - 1].0).len() <= u64::MAX);
        lemma_take_entry(last, rest);
        assert(init.push(last) =~= es);
    } else {
        assert(entries_bytes(es) + rest =~= rest);
    }
}

/// Decoding the encoding of an index gives that index back, for every index
/// whose lengths fit the encoding and whatever bytes follow it.
pub proof fn lemma_index_round_trip(es: Seq<IndexEntry>, rest: Seq<u8>)
    requires
        encodable(es),
    ensures
        parse_index(index_bytes(es) + rest) == Some(es),
{
    let n = es.len() as u64;
    assert(index_bytes(es) + rest =~= u64_be(n) + (entries_bytes(es) + rest));
    lemma_take_u64(n, entries_bytes(es) + rest);
    lemma_take_entries(es, rest);
}

/// What went wrong while encoding or decoding an index.
#[derive(Debug)]
pub enum SerializationError {
    SerializeError(String),
    DeserializeError(String),
}

/// Appends index encodings to a growing byte buffer.
pub struct IndexSerializer {
    buffer: Vec<u8>,
}

impl View for IndexSerializer {
    type V = Seq<u8>;

    closed spec fn view(&self) -> Seq<u8> {
        self.buffer@
    }
}

/// Relies on `Vec::into_boxed_slice`: the same elements, in the same order.
#[verifier::external_body]
pub(crate) fn into_boxed<T>(v: Vec<T>) -> (r: Box<[T]>)
    ensures
        r@ == v@,
{
    v.into_boxed_slice()
}

impl IndexSerializer {
    pub fn new() -> (r: IndexSerializer)
        ensures
            r@ == Seq::<u8>::empty(),
    {
        IndexSerializer { buffer: Vec::new() }
    }

    /// Hands out everything written so far.
    pub fn take(self) -> (r: Box<[u8]>)
        ensures
            r@ == self@,
    {
        into_boxed(self.buffer)
    }

    pub fn serialize_u64(&mut self, v: u64)
        ensures
            final(self)@ == old(self)@ + u64_be(v),
    {
        self.buffer.push(#[verifier::truncate] ((v >> 56u64) as u8));
        self.buffer.push(#[verifier::truncate] ((v >> 48u64) as u8));
        self.buffer.push(#[verifier::truncate] ((v >> 40u64) as u8));
        self.buffer.push(#[verifier::truncate] ((v >> 32u64) as u8));
        self.buffer.push(#[verifier::truncate] ((v >> 24u64) as u8));
        self.buffer.push(#[verifier::truncate] ((v >> 16u64) as u8));
        self.buffer.push(#[verifier::truncate] ((v >> 8u64) as u8));
        self.buffer.push(#[verifier::truncate] (v as u8));
        assert(self@ =~= old(self)@ + u64_be(v));
    }

    pub fn serialize_str(&mut self, v: &str)
        ensures
            final(self)@ == old(self)@ + str_bytes(v@),
    {
        let bytes = v.as_bytes();
        self.serialize_u64(bytes.len() as u64);
        let ghost start = self@;
        let mut i: usize = 0;
        while i < bytes.len()
            invariant
                0 <= i <= bytes@.len(),
                bytes@ == encode_utf8(v@),
                self@ == start + bytes@.take(i as int),
            decreases bytes@.len() - i,
        {
            self.buffer.push(bytes[i]);
            i = i + 1;
            assert(self@ =~= start + bytes@.take(i as int));
        }
        assert(bytes@.take(i as int) =~= bytes@);
    }

    /// Opens a sequence: writes its element count. A sequence of unknown
    /// length cannot be encoded.
    pub fn serialize_seq(&mut self, len: Option<usize>) -> (r: Result<(), SerializationError>)
        ensures
            len is None ==> r is Err && r->Err_0 is SerializeError && final(self)@ == old(self)@,
            len is Some ==> r is Ok && final(self)@ == old(self)@ + u64_be(len->0 as u64),
    {
        match len {
            None => Err(SerializationError::SerializeError("unsupported serialization".to_owned())),
            Some(n) => {
                self.serialize_u64(n as u64);
                Ok(())
            },
        }
    }

    /// Writes one record: its path, offset and length.
    pub fn serialize_entry(&mut self, e: &(String, u64, u64))
        ensures
            final(self)@ == old(self)@ + entry_bytes(e.deep_view()),
    {
        self.serialize_str(e.0.as_str());
        self.serialize_u64(e.1);
        self.serialize_u64(e.2);
        assert(self@ =~= old(self)@ + entry_bytes(e.deep_view()));
    }

    /// Writes a whole index: the record count, then each record in order.
    pub fn serialize_index(&mut self, index: &[(String, u64, u64)]) -> (r: Result<
        (),
        SerializationError,
    >)
        ensures
            r is Ok,
            final(self)@ == old(self)@ + index_bytes(index.deep_view()),
    {
        let ghost es = index.deep_view();
        let ghost start = old(self)@;
        let r = self.serialize_seq(Some(index.len()));
        if r.is_err() {
            return r;
        }
        let mut i: usize = 0;
        while i < index.len()
            invariant
                0 <= i <= index@.len(),
                es == index.deep_view(),
                self@ == start + u64_be(es.len() as u64) + entries_bytes(es.take(i as int)),
            decreases index@.len() - i,
        {
            assert(es[i as int] == index[i as int].deep_view());
            self.serialize_entry(&index[i]);
            let ghost t = es.take(i as int + 1);
            assert(t.drop_last() =~= es.take(i as int));
            i = i + 1;
            assert(self@ =~= start + u64_be(es.len() as u64) + entries_bytes(es.take(i as int)));
        }
        assert(es.take(i as int) =~= es);
        Ok(())
    }
}


/// Relies on `std::str::from_utf8`: it succeeds exactly on valid UTF-8, and
/// the string it returns is made of the given bytes.
#[verifier::external_body]
fn str_from_utf8<'a>(b: &'a [u8]) -> (r: Option<&'a str>)
    ensures
        r is Some <==> valid_utf8(b@),
        r is Some ==> r->0.spec_bytes() == b@,
{
    std::str::from_utf8(b).ok()
}

/// Reads index encodings off the front of a byte slice.
pub struct IndexDeserializer<'de> {
    buffer: &'de [u8],
}

impl<'de> View for IndexDeserializer<'de> {
    type V = Seq<u8>;

    /// The bytes not read yet.
    closed spec fn view(&self) -> Seq<u8> {
        self.buffer@
    }
}

impl<'de> IndexDeserializer<'de> {
    pub fn new(data: &'de [u8]) -> (r: IndexDeserializer<'de>)
        ensures
            r@ == data@,
    {
        IndexDeserializer { buffer: data }
    }

    pub fn next_u64(&mut self) -> (r: Result<u64, SerializationError>)
        ensures
            match take_u64(old(self)@) {
                Some((v, rest)) => r is Ok && r->Ok_0 == v && final(self)@ == rest,
                None => {
                    &&& r is Err
                    &&& r->Err_0 is DeserializeError
                    &&& r->Err_0->DeserializeError_0@ == "EOF"@
                    &&& final(self)@ == old(self)@
                },
            },
    {
        if self.buffer.len() < 8 {
            return Err(SerializationError::DeserializeError("EOF".to_owned()));
        }
        let b = self.buffer;
        let value: u64 = ((b[0] as u64) << 56u64) | ((b[1] as u64) << 48u64) | ((b[2] as u64)
            << 40u64) | ((b[3] as u64) << 32u64) | ((b[4] as u64) << 24u64) | ((b[5] as u64)
            << 16u64) | ((b[6] as u64) << 8u64) | (b[7] as u64);
        self.buffer = vstd::slice::slice_subrange(b, 8, b.len());
        assert(self@ =~= old(self)@.skip(8));
        Ok(value)
    }

    pub fn next_str(&mut self) -> (r: Result<&'de str, SerializationError>)
        ensures
            match take_str(old(self)@) {
                Some((text, rest)) => r is Ok && r->Ok_0@ == text && final(self)@ == rest,
                None => {
                    &&& r is Err
                    &&& r->Err_0 is DeserializeError
                    &&& r->Err_0->DeserializeError_0@ == (if old(self)@.len() >= 8 && old(
                        self,
                    )@.skip(8).len() >= be_u64(old(self)@) {
                        "UTF-8 Error"@
                    } else {
                        "EOF"@
                    })
                    &&& final(self)@ == (if old(self)@.len() < 8 {
                        old(self)@
                    } else {
                        old(self)@.skip(8)
                    })
                },
            },
    {
        let len = match self.next_u64() {
            Ok(n) => n,
            Err(e) => return Err(e),
        };
        if (self.buffer.len() as u64) < len {
            return Err(SerializationError::DeserializeError("EOF".to_owned()));
        }
        let b = self.buffer;
        let n = len as usize;
        let bytes = vstd::slice::slice_subrange(b, 0, n);
        assert(bytes@ =~= b@.take(n as int));
        match str_from_utf8(bytes) {
            None => Err(SerializationError::DeserializeError("UTF-8 Error".to_owned())),
            Some(text) => {
                proof {
                    encode_utf8_decode_utf8(text@);
                }
                self.buffer = vstd::slice::slice_subrange(b, n, b.len());
                assert(self@ =~= b@.skip(n as int));
                Ok(text)
            },
        }
    }

    /// Reads one record: a path, an offset and a length.
    pub fn next_entry(&mut self) -> (r: Result<(String, u64, u64), SerializationError>)
        ensures
            match take_entry(old(self)@) {
                Some((e, rest)) => r is Ok && r->Ok_0.deep_view() == e && final(self)@ == rest,
                None => r is Err && r->Err_0 is DeserializeError,
            },
    {
        let path = match self.next_str() {
            Ok(s) => s.to_owned(),
            Err(e) => return Err(e),
        };
        let offset = match self.next_u64() {
            Ok(v) => v,
            Err(e) => return Err(e),
        };
        let length = match self.next_u64() {
            Ok(v) => v,
            Err(e) => return Err(e),
        };
        Ok((path, offset, length))
    }
}

/// Hands out the records of a sequence whose count has been read.
pub struct SeqAccess<'de> {
    de: IndexDeserializer<'de>,
    len: u64,
    pos: u64,
}

impl<'de> View for SeqAccess<'de> {
    type V = (Seq<u8>, nat);

    /// The bytes not read yet, and the number of records still to come.
    closed spec fn view(&self) -> (Seq<u8>, nat) {
        (self.de@, (self.len - self.pos) as nat)
    }
}

impl<'de> SeqAccess<'de> {
    pub closed spec fn wf(&self) -> bool {
        self.pos <= self.len
    }

    pub fn new(de: IndexDeserializer<'de>, len: u64) -> (r: SeqAccess<'de>)
        ensures
            r.wf(),
            r@ == (de@, len as nat),
    {
        SeqAccess { de, len, pos: 0 }
    }

    /// The next record, or `None` once all of them have been handed out.
    pub fn next_element(&mut self) -> (r: Result<Option<(String, u64, u64)>, SerializationError>)
        requires
            old(self).wf(),
        ensures
            final(self).wf(),
            old(self)@.1 == 0 ==> r is Ok && r->Ok_0 is None && final(self)@ == old(self)@,
            old(self)@.1 > 0 ==> match take_entry(old(self)@.0) {
                Some((e, rest)) => {
                    &&& r is Ok
                    &&& r->Ok_0 is Some
                    &&& r->Ok_0.unwrap().deep_view() == e
                    &&& final(self)@ == (rest, (old(self)@.1 - 1) as nat)
                },
                None => r is Err && r->Err_0 is DeserializeError,
            },
    {
        if self.len == self.pos {
            return Ok(None);
        }
        self.pos = self.pos + 1;
        match self.de.next_entry() {
            Ok(e) => Ok(Some(e)),
            Err(e) => Err(e),
        }
    }
}

proof fn lemma_take_entries_stays_failed(b: Seq<u8>, m: nat, n: nat)
    requires
        m <= n,
        take_entries(b, m) is None,
    ensures
        take_entries(b, n) is None,
    decreases n - m,
{
    if m < n {
        lemma_take_entries_stays_failed(b, m, (n - 1) as nat);
    }
}

/// Decodes an index: a record count, then that many records.
pub fn index_from_bytes(bytes: &[u8]) -> (r: Result<Box<[(String, u64, u64)]>, SerializationError>)
    ensures
        r is Ok <==> parse_index(bytes@) is Some,
        r is Ok ==> r->Ok_0.deep_view() == parse_index(bytes@)->0,
        r is Err ==> r->Err_0 is DeserializeError,
{
    match index_vec_from_bytes(bytes) {
        Ok(v) => {
            let ghost vv = v.deep_view();
            let boxed = into_boxed(v);
            assert(boxed.deep_view() =~= vv);
            Ok(boxed)
        },
        Err(e) => Err(e),
    }
}

/// Decodes an index into a vector of records.
pub fn index_vec_from_bytes(bytes: &[u8]) -> (r: Result<Vec<(String, u64, u64)>, SerializationError>)
    ensures
        r is Ok <==> parse_index(bytes@) is Some,
        r is Ok ==> r->Ok_0.deep_view() == parse_index(bytes@)->0,
        r is Err ==> r->Err_0 is DeserializeError,
{
    let mut de = IndexDeserializer::new(bytes);
    let len = match de.next_u64() {
        Ok(n) => n,
        Err(e) => return Err(e),
    };
    let ghost rest0 = de@;
    let mut access = SeqAccess::new(de, len);
    let mut out: Vec<(String, u64, u64)> = Vec::new();
    loop
        invariant
            access.wf(),
            access@.1 <= len,
            take_u64(bytes@) == Some((len, rest0)),
            take_entries(rest0, (len - access@.1) as nat) == Some((out.deep_view(), access@.0)),
        ensures
            take_entries(rest0, len as nat) == Some((out.deep_view(), access@.0)),
        decreases access@.1,
    {
        let ghost before = access@;
        match access.next_element() {
            Ok(Some(e)) => {
                let ghost prev = out.deep_view();
                let ghost ev = e.deep_view();
                out.push(e);
                assert(out.deep_view() =~= prev.push(ev));
            },
            Ok(None) => {
                break;
            },
            Err(e) => {
                proof {
                    lemma_take_entries_stays_failed(
                        rest0,
                        (len - before.1 + 1) as nat,
                        len as nat,
                    );
                }
                return Err(e);
            },
        }
    }
    Ok(out)
}

} // verus!
