//! Staging resources for an archive: in-memory byte streams, path checks,
//! and the ordered stage that an archive is written from.
use vstd::prelude::*;
use core::cmp::Ordering;
use crate::archive::{
    archive_bytes, assemble_archive, concat, final_index, payloads_for, stage_paths,
};
use crate::compression::{compress, xz_decoded, xz_decodes};
use crate::path::{
    compare_paths, lemma_path_lt_irreflexive, lemma_path_lt_transitive, path_is_valid, path_lt,
    valid_path,
};

verus! {

/// What can go wrong when staging, writing or reading resources.
#[derive(Debug)]
pub enum ResourceError {
    /// The path holds a forbidden character.
    InvalidPath(String),
    /// No resource is stored under the path.
    NotFound(String),
    /// The archive bytes do not have the expected layout.
    FormatError(String),
    /// The compression codec failed.
    CodecError,
}

/// How hard the codec works on each resource, from fastest to smallest.
#[derive(Clone, Copy, Debug)]
pub enum CompressionLevel {
    Fastest,
    Fast,
    Normal,
    Maximum,
    Ultra,
}

/// The codec preset that each level stands for.
pub open spec fn preset_of(level: CompressionLevel) -> u32 {
    match level {
        CompressionLevel::Fastest => 1,
        CompressionLevel::Fast => 3,
        CompressionLevel::Normal => 5,
        CompressionLevel::Maximum => 7,
        CompressionLevel::Ultra => 9,
    }
}

impl CompressionLevel {
    pub fn preset(self) -> (r: u32)
        ensures
            r == preset_of(self),
            r <= 9,
    {
        match self {
            CompressionLevel::Fastest => 1,
            CompressionLevel::Fast => 3,
            CompressionLevel::Normal => 5,
            CompressionLevel::Maximum => 7,
            CompressionLevel::Ultra => 9,
        }
    }
}

/// A place to move a stream's cursor to.
#[derive(Debug)]
pub enum SeekFrom {
    Start(u64),
    End(i64),
    Current(i64),
}

/// The position that a seek aims at, before it is clamped to the stream.
pub open spec fn seek_target(pos: SeekFrom, len: nat, cur: nat) -> int {
    match pos {
        SeekFrom::Start(o) => o as int,
        SeekFrom::End(o) => len + o,
        SeekFrom::Current(o) => cur + o,
    }
}

/// A seekable stream over a fixed buffer of bytes held in memory.
#[derive(Debug)]
pub struct ByteStream {
    bytes: Vec<u8>,
    position: usize,
}

impl View for ByteStream {
    type V = (Seq<u8>, nat);

    /// The bytes, and the cursor's position in them.
    closed spec fn view(&self) -> (Seq<u8>, nat) {
        (self.bytes@, self.position as nat)
    }
}

impl ByteStream {
    /// The cursor never passes the end of the bytes.
    pub closed spec fn wf(&self) -> bool {
        self.position <= self.bytes.len()
    }

    pub fn new(bytes: Vec<u8>) -> (r: ByteStream)
        ensures
            r.wf(),
            r@ == (bytes@, 0nat),
    {
        ByteStream { bytes, position: 0 }
    }

    /// Copies bytes from the cursor into `buf`, as many as fit or remain,
    /// and moves the cursor past them.
    pub fn read(&mut self, buf: &mut [u8]) -> (n: usize)
        requires
            old(self).wf(),
        ensures
            final(self).wf(),
            n == vstd::math::min(old(buf)@.len() as int, old(self)@.0.len() - old(self)@.1),
            final(self)@ == (old(self)@.0, (old(self)@.1 + n) as nat),
            final(buf)@ == old(self)@.0.subrange(old(self)@.1 as int, old(self)@.1 + n) + old(
                buf,
            )@.skip(n as int),
    {
        let avail = self.bytes.len() - self.position;
        let n = if buf.len() < avail {
            buf.len()
        } else {
            avail
        };
        let mut i: usize = 0;
        while i < n
            invariant
                self.wf(),
                i <= n,
                n <= buf@.len(),
                self.position + n <= self.bytes@.len(),
                self@ == old(self)@,
                buf@.len() == old(buf)@.len(),
                buf@ == self.bytes@.subrange(self.position as int, self.position + i) + old(
                    buf,
                )@.skip(i as int),
            decreases n - i,
        {
            buf[i] = self.bytes[self.position + i];
            i = i + 1;
            assert(buf@ =~= self.bytes@.subrange(self.position as int, self.position + i) + old(
                buf,
            )@.skip(i as int));
        }
        self.position = self.position + n;
        n
    }

    /// Overwrites bytes from the cursor with those of `buf`, as many as fit
    /// before the end, and moves the cursor past them. The stream never grows.
    pub fn write(&mut self, buf: &[u8]) -> (n: usize)
        requires
            old(self).wf(),
        ensures
            final(self).wf(),
            n == vstd::math::min(buf@.len() as int, old(self)@.0.len() - old(self)@.1),
            final(self)@.1 == old(self)@.1 + n,
            final(self)@.0 == old(self)@.0.subrange(0, old(self)@.1 as int) + buf@.take(n as int)
                + old(self)@.0.skip(old(self)@.1 + n),
    {
        let avail = self.bytes.len() - self.position;
        let n = if buf.len() < avail {
            buf.len()
        } else {
            avail
        };
        let ghost start = self.position as int;
        let mut i: usize = 0;
        while i < n
            invariant
                i <= n,
                n <= buf@.len(),
                self.position == start,
                start + n <= self.bytes.len(),
                self.bytes@.len() == old(self)@.0.len(),
                self.bytes@ == old(self)@.0.subrange(0, start) + buf@.take(i as int) + old(
                    self,
                )@.0.skip(start + i),
            decreases n - i,
        {
            self.bytes[self.position + i] = buf[i];
            i = i + 1;
            assert(self.bytes@ =~= old(self)@.0.subrange(0, start) + buf@.take(i as int) + old(
                self,
            )@.0.skip(start + i));
        }
        self.position = self.position + n;
        n
    }

    /// Moves the cursor; a target before the start or past the end leaves
    /// it at the end.
    pub fn seek(&mut self, pos: SeekFrom) -> (r: u64)
        requires
            old(self).wf(),
        ensures
            final(self).wf(),
            final(self)@.0 == old(self)@.0,
            final(self)@.1 == (if seek_target(pos, old(self)@.0.len(), old(self)@.1) < 0
                || seek_target(pos, old(self)@.0.len(), old(self)@.1) > old(self)@.0.len() {
                old(self)@.0.len() as int
            } else {
                seek_target(pos, old(self)@.0.len(), old(self)@.1)
            }),
            r == final(self)@.1,
    {
        let len = self.bytes.len();
        let target: i128 = match pos {
            SeekFrom::Start(o) => o as i128,
            SeekFrom::End(o) => len as i128 + o as i128,
            SeekFrom::Current(o) => self.position as i128 + o as i128,
        };
        if target < 0 || target > len as i128 {
            self.position = len;
        } else {
            self.position = target as usize;
        }
        self.position as u64
    }

    /// Moves the cursor back to the start.
    pub fn rewind(&mut self)
        ensures
            final(self).wf(),
            final(self)@ == (old(self)@.0, 0nat),
    {
        self.position = 0;
    }

    /// Appends everything from the cursor on to `out`, and leaves the cursor
    /// at the end.
    pub fn read_to_end(&mut self, out: &mut Vec<u8>) -> (n: usize)
        requires
            old(self).wf(),
        ensures
            final(self).wf(),
            final(self)@ == (old(self)@.0, old(self)@.0.len()),
            final(out)@ == old(out)@ + old(self)@.0.skip(old(self)@.1 as int),
            n == old(self)@.0.len() - old(self)@.1,
    {
        let start = self.position;
        let mut i: usize = start;
        while i < self.bytes.len()
            invariant
                start <= i <= self.bytes@.len(),
                self@ == old(self)@,
                out@ == old(out)@ + self.bytes@.subrange(start as int, i as int),
            decreases self.bytes@.len() - i,
        {
            out.push(self.bytes[i]);
            i = i + 1;
            assert(out@ =~= old(out)@ + self.bytes@.subrange(start as int, i as int));
        }
        assert(self.bytes@.subrange(start as int, i as int) =~= self.bytes@.skip(start as int));
        self.position = self.bytes.len();
        self.bytes.len() - start
    }
}

impl From<Vec<u8>> for ByteStream {
    fn from(value: Vec<u8>) -> ByteStream {
        ByteStream { bytes: value, position: 0 }
    }
}

impl vstd::std_specs::convert::FromSpecImpl<Vec<u8>> for ByteStream {
    open spec fn obeys_from_spec() -> bool {
        true
    }

    closed spec fn from_spec(v: Vec<u8>) -> ByteStream {
        ByteStream { bytes: v, position: 0 }
    }
}

/// What `ByteStream::from` builds: a stream over the given bytes, with its
/// cursor at the start.
pub proof fn lemma_byte_stream_from(v: Vec<u8>)
    ensures
        <ByteStream as vstd::std_specs::convert::FromSpec<Vec<u8>>>::from_spec(v).wf(),
        <ByteStream as vstd::std_specs::convert::FromSpec<Vec<u8>>>::from_spec(v)@ == (
            v@,
            0nat,
        ),
{
}

/// Accepts a path with no forbidden character.
pub fn verify_str(path: &str) -> (r: Result<&str, ResourceError>)
    ensures
        valid_path(path@) ==> r is Ok && r->Ok_0 == path,
        !valid_path(path@) ==> r is Err && r->Err_0 is InvalidPath && r->Err_0->InvalidPath_0@
            == path@,
{
    if path_is_valid(path) {
        Ok(path)
    } else {
        Err(ResourceError::InvalidPath(path.to_owned()))
    }
}

/// Accepts an owned path with no forbidden character.
pub fn verify_string(path: String) -> (r: Result<String, ResourceError>)
    ensures
        valid_path(path@) ==> r is Ok && r->Ok_0@ == path@,
        !valid_path(path@) ==> r is Err && r->Err_0 is InvalidPath && r->Err_0->InvalidPath_0@
            == path@,
{
    if path_is_valid(path.as_str()) {
        Ok(path)
    } else {
        Err(ResourceError::InvalidPath(path))
    }
}

/// A staged resource in mathematical form: its path and its bytes.
pub type StagedEntry = (Seq<char>, Seq<u8>);

/// A stage lists valid paths once each, in strictly ascending path order.
pub open spec fn is_stage(s: Seq<StagedEntry>) -> bool {
    &&& forall|i: int, j: int|
        0 <= i < j < s.len() ==> path_lt(#[trigger] s[i].0, #[trigger] s[j].0)
    &&& forall|i: int| 0 <= i < s.len() ==> valid_path(#[trigger] s[i].0)
}

/// The bytes staged under `p`, if any.
pub open spec fn stage_get(s: Seq<StagedEntry>, p: Seq<char>) -> Option<Seq<u8>> {
    if exists|i: int| stages_at(s, p, i) {
        Some(s[choose|i: int| stages_at(s, p, i)].1)
    } else {
        None
    }
}

/// Whether the entry at `i` of `s` is staged under `p`.
pub open spec fn stages_at(s: Seq<StagedEntry>, p: Seq<char>, i: int) -> bool {
    0 <= i < s.len() && s[i].0 == p
}

/// In a stage, the entry at `i` is the one found under its path.
pub proof fn lemma_stage_get_at(s: Seq<StagedEntry>, i: int)
    requires
        is_stage(s),
        0 <= i < s.len(),
    ensures
        stage_get(s, s[i].0) == Some(s[i].1),
{
    let p = s[i].0;
    assert(stages_at(s, p, i));
    let j = choose|j: int| stages_at(s, p, j);
    if j != i {
        lemma_path_lt_irreflexive(p);
        if j < i {
            assert(path_lt(s[j].0, s[i].0));
        } else {
            assert(path_lt(s[i].0, s[j].0));
        }
    }
}

/// Holds the resources to be written to an archive, ordered by path.
#[derive(Debug)]
pub struct ResourceLibraryWriter {
    map: Vec<(String, ByteStream)>,
}

impl View for ResourceLibraryWriter {
    type V = Seq<StagedEntry>;

    /// Each staged path with the bytes of its stream, in path order.
    closed spec fn view(&self) -> Seq<StagedEntry> {
        self.map@.map_values(|e: (String, ByteStream)| (e.0@, e.1@.0))
    }
}

impl ResourceLibraryWriter {
    pub open spec fn wf(&self) -> bool {
        is_stage(self@) && self.streams_wf()
    }

    pub closed spec fn streams_wf(&self) -> bool {
        forall|i: int| 0 <= i < self.map@.len() ==> (#[trigger] self.map@[i]).1.wf()
    }

    pub fn new() -> (r: ResourceLibraryWriter)
        ensures
            r.wf(),
            r@ == Seq::<StagedEntry>::empty(),
    {
        let r = ResourceLibraryWriter { map: Vec::new() };
        assert(r@ =~= Seq::<StagedEntry>::empty());
        r
    }

    /// Where `path` stands or would stand: every path before the slot is
    /// smaller, and the one at the slot, if any, is `path` or larger.
    fn find_slot(&self, path: &str) -> (r: (bool, usize))
        requires
            self.wf(),
        ensures
            r.1 <= self@.len(),
            forall|j: int| 0 <= j < r.1 ==> path_lt(#[trigger] self@[j].0, path@),
            r.0 ==> r.1 < self@.len() && self@[r.1 as int].0 == path@,
            !r.0 ==> r.1 == self@.len() || path_lt(path@, self@[r.1 as int].0),
    {
        let mut i: usize = 0;
        while i < self.map.len()
            invariant
                i <= self@.len(),
                self@.len() == self.map@.len(),
                forall|j: int| 0 <= j < i ==> path_lt(#[trigger] self@[j].0, path@),
            decreases self.map@.len() - i,
        {
            let c = compare_paths(self.map[i].0.as_str(), path);
            assert(self@[i as int].0 == self.map@[i as int].0@);
            match c {
                Ordering::Less => {},
                Ordering::Equal => {
                    return (true, i);
                },
                Ordering::Greater => {
                    return (false, i);
                },
            }
            i = i + 1;
        }
        (false, i)
    }

    /// What `stage_get` gives for a path, read off a slot.
    proof fn lemma_slot(&self, p: Seq<char>, found: bool, k: int)
        requires
            self.wf(),
            0 <= k <= self@.len(),
            forall|j: int| 0 <= j < k ==> path_lt(#[trigger] self@[j].0, p),
            found ==> k < self@.len() && self@[k].0 == p,
            !found ==> k == self@.len() || path_lt(p, self@[k].0),
        ensures
            found ==> stage_get(self@, p) == Some(self@[k].1),
            !found ==> stage_get(self@, p) is None,
    {
        let s = self@;
        if found {
            lemma_stage_get_at(s, k);
        } else {
            assert forall|j: int| 0 <= j < s.len() implies s[j].0 != p by {
                lemma_path_lt_irreflexive(p);
                if j > k {
                    lemma_path_lt_transitive(p, s[k].0, s[j].0);
                }
            }
        }
    }

    /// Stages `stream` under `path`, replacing what was staged there.
    pub fn write_stream(&mut self, path: String, stream: ByteStream) -> (r: Result<
        (),
        ResourceError,
    >)
        requires
            old(self).wf(),
            stream.wf(),
        ensures
            final(self).wf(),
            valid_path(path@) ==> r is Ok && forall|q: Seq<char>|
                #[trigger] stage_get(final(self)@, q) == (if q == path@ {
                    Some(stream@.0)
                } else {
                    stage_get(old(self)@, q)
                }),
            !valid_path(path@) ==> r is Err && r->Err_0 is InvalidPath && r->Err_0->InvalidPath_0@
                == path@ && final(self)@ == old(
                self,
            )@,
    {
        let path = match verify_string(path) {
            Ok(p) => p,
            Err(e) => return Err(e),
        };
        let (found, k) = self.find_slot(path.as_str());
        let ghost s0 = self@;
        let ghost p = path@;
        let ghost c = stream@.0;
        proof {
            self.lemma_slot(p, found, k as int);
        }
        if found {
            self.map.set(k, (path, stream));
            proof {
                let s1 = self@;
                assert(s1 =~= s0.update(k as int, (p, c)));
                assert(is_stage(s1)) by {
                    assert forall|i: int, j: int| 0 <= i < j < s1.len() implies path_lt(
                        #[trigger] s1[i].0,
                        #[trigger] s1[j].0,
                    ) by {
                        assert(path_lt(s0[i].0, s0[j].0));
                    }
                }
                assert forall|q: Seq<char>| #[trigger]
                    stage_get(s1, q) == (if q == p {
                        Some(c)
                    } else {
                        stage_get(s0, q)
                    }) by {
                    if q == p {
                        lemma_stage_get_at(s1, k as int);
                    } else {
                        if exists|i: int| stages_at(s0, q, i) {
                            let i = choose|i: int| stages_at(s0, q, i);
                            lemma_stage_get_at(s0, i);
                            lemma_stage_get_at(s1, i);
                        } else {
                            assert forall|i: int| 0 <= i < s1.len() implies !stages_at(
                                s1,
                                q,
                                i,
                            ) by {
                                if i != k {
                                    assert(s1[i] == s0[i]);
                                    assert(!stages_at(s0, q, i));
                                }
                            }
                        }
                    }
                }
            }
        } else {
            self.map.insert(k, (path, stream));
            proof {
                let s1 = self@;
                assert(s1 =~= s0.insert(k as int, (p, c)));
                assert(is_stage(s1)) by {
                    assert forall|i: int, j: int| 0 <= i < j < s1.len() implies path_lt(
                        #[trigger] s1[i].0,
                        #[trigger] s1[j].0,
                    ) by {
                        if j < k {
                            assert(path_lt(s0[i].0, s0[j].0));
                        } else if j == k {
                        } else if i < k {
                            assert(path_lt(s0[i].0, p));
                            if j == k + 1 {
                                lemma_path_lt_transitive(s0[i].0, p, s0[k as int].0);
                            } else {
                                assert(path_lt(s0[i].0, s0[j - 1].0));
                            }
                        } else if i == k {
                            if j - 1 > k {
                                assert(path_lt(s0[k as int].0, s0[j - 1].0));
                                lemma_path_lt_transitive(p, s0[k as int].0, s0[j - 1].0);
                            }
                        } else {
                            assert(path_lt(s0[i - 1].0, s0[j - 1].0));
                        }
                    }
                    assert forall|i: int| 0 <= i < s1.len() implies valid_path(
                        #[trigger] s1[i].0,
                    ) by {
                        if i < k {
                            assert(s1[i] == s0[i]);
                        } else if i > k {
                            assert(s1[i] == s0[i - 1]);
                        }
                    }
                }
                assert forall|q: Seq<char>| #[trigger]
                    stage_get(s1, q) == (if q == p {
                        Some(c)
                    } else {
                        stage_get(s0, q)
                    }) by {
                    if q == p {
                        lemma_stage_get_at(s1, k as int);
                    } else {
                        if exists|i: int| stages_at(s0, q, i) {
                            let i = choose|i: int| stages_at(s0, q, i);
                            lemma_stage_get_at(s0, i);
                            if i < k {
                                lemma_stage_get_at(s1, i);
                            } else {
                                assert(s1[i + 1] == s0[i]);
                                lemma_stage_get_at(s1, i + 1);
                            }
                        } else {
                            assert forall|i: int| 0 <= i < s1.len() implies !stages_at(
                                s1,
                                q,
                                i,
                            ) by {
                                if i < k {
                                    assert(s1[i] == s0[i]);
                                    assert(!stages_at(s0, q, i));
                                } else if i > k {
                                    assert(s1[i] == s0[i - 1]);
                                    assert(!stages_at(s0, q, i - 1));
                                }
                            }
                        }
                    }
                }
            }
        }
        Ok(())
    }

    /// The bytes staged under `path`, read from the start of its stream.
    /// The stage keeps the resource.
    pub fn read_data(&mut self, path: &str) -> (r: Result<Box<[u8]>, ResourceError>)
        requires
            old(self).wf(),
        ensures
            final(self).wf(),
            final(self)@ == old(self)@,
            !valid_path(path@) ==> r is Err && r->Err_0 is InvalidPath && r->Err_0->InvalidPath_0@
            == path@,
            valid_path(path@) ==> match stage_get(old(self)@, path@) {
                Some(c) => r is Ok && r->Ok_0@ == c,
                None => r is Err && r->Err_0 is NotFound && r->Err_0->NotFound_0@ == path@,
            },
    {
        let path = match verify_str(path) {
            Ok(p) => p,
            Err(e) => return Err(e),
        };
        let (found, k) = self.find_slot(path);
        proof {
            self.lemma_slot(path@, found, k as int);
        }
        if !found {
            return Err(ResourceError::NotFound(path.to_owned()));
        }
        let ghost s0 = self@;
        let mut bytes: Vec<u8> = Vec::new();
        let (p, mut stream) = self.map.remove(k);
        assert(stream.wf());
        stream.rewind();
        stream.read_to_end(&mut bytes);
        self.map.insert(k, (p, stream));
        assert(self@ =~= s0);
        Ok(crate::index_serialization::into_boxed(bytes))
    }

    /// The bytes staged under `path`, read from the start of its stream;
    /// the resource leaves the stage.
    pub fn take_data(&mut self, path: &str) -> (r: Result<Box<[u8]>, ResourceError>)
        requires
            old(self).wf(),
        ensures
            final(self).wf(),
            !valid_path(path@) ==> r is Err && r->Err_0 is InvalidPath && r->Err_0->InvalidPath_0@
                == path@ && final(self)@ == old(
                self,
            )@,
            valid_path(path@) ==> match stage_get(old(self)@, path@) {
                Some(c) => {
                    &&& r is Ok
                    &&& r->Ok_0@ == c
                    &&& forall|q: Seq<char>| #[trigger]
                        stage_get(final(self)@, q) == (if q == path@ {
                            None
                        } else {
                            stage_get(old(self)@, q)
                        })
                },
                None => {
                    &&& r is Err
                    &&& r->Err_0 is NotFound
                    &&& r->Err_0->NotFound_0@ == path@
                    &&& final(self)@ == old(self)@
                },
            },
    {
        let path = match verify_str(path) {
            Ok(p) => p,
            Err(e) => return Err(e),
        };
        let (found, k) = self.find_slot(path);
        proof {
            self.lemma_slot(path@, found, k as int);
        }
        if !found {
            return Err(ResourceError::NotFound(path.to_owned()));
        }
        let ghost s0 = self@;
        let ghost p = path@;
        let mut bytes: Vec<u8> = Vec::new();
        let (_, mut stream) = self.map.remove(k);
        stream.rewind();
        stream.read_to_end(&mut bytes);
        proof {
            let s1 = self@;
            assert(s1 =~= s0.remove(k as int));
            assert(is_stage(s1)) by {
                assert forall|i: int, j: int| 0 <= i < j < s1.len() implies path_lt(
                    #[trigger] s1[i].0,
                    #[trigger] s1[j].0,
                ) by {
                    if j < k {
                        assert(path_lt(s0[i].0, s0[j].0));
                    } else if i < k {
                        assert(path_lt(s0[i].0, s0[j + 1].0));
                    } else {
                        assert(path_lt(s0[i + 1].0, s0[j + 1].0));
                    }
                }
                assert forall|i: int| 0 <= i < s1.len() implies valid_path(#[trigger] s1[i].0) by {
                    if i < k {
                        assert(s1[i] == s0[i]);
                    } else {
                        assert(s1[i] == s0[i + 1]);
                    }
                }
            }
            assert forall|q: Seq<char>| #[trigger]
                stage_get(s1, q) == (if q == p {
                    None
                } else {
                    stage_get(s0, q)
                }) by {
                if exists|i: int| stages_at(s1, q, i) {
                    let i = choose|i: int| stages_at(s1, q, i);
                    lemma_stage_get_at(s1, i);
                    if i < k {
                        assert(s1[i] == s0[i]);
                        lemma_stage_get_at(s0, i);
                        if q == p {
                            lemma_path_lt_irreflexive(p);
                            assert(path_lt(s0[i].0, s0[k as int].0));
                        }
                    } else {
                        assert(s1[i] == s0[i + 1]);
                        lemma_stage_get_at(s0, i + 1);
                        if q == p {
                            lemma_path_lt_irreflexive(p);
                            assert(path_lt(s0[k as int].0, s0[i + 1].0));
                        }
                    }
                } else if q != p {
                    assert forall|i: int| 0 <= i < s0.len() implies !stages_at(s0, q, i) by {
                        if i < k {
                            assert(s1[i] == s0[i]);
                            assert(!stages_at(s1, q, i));
                        } else if i > k {
                            assert(s1[i - 1] == s0[i]);
                            assert(!stages_at(s1, q, i - 1));
                        }
                    }
                }
            }
        }
        Ok(crate::index_serialization::into_boxed(bytes))
    }

    /// The staged paths, in ascending path order.
    pub fn get_all_files(&self) -> (r: Box<[&str]>)
        ensures
            r@.len() == self@.len(),
            forall|i: int| 0 <= i < r@.len() ==> (#[trigger] r@[i])@ == self@[i].0,
    {
        crate::index_serialization::into_boxed(self.path_list())
    }

    fn path_list(&self) -> (r: Vec<&str>)
        ensures
            r@.len() == self@.len(),
            forall|i: int| 0 <= i < r@.len() ==> (#[trigger] r@[i])@ == self@[i].0,
    {
        let mut out: Vec<&str> = Vec::new();
        let mut i: usize = 0;
        while i < self.map.len()
            invariant
                i <= self.map@.len(),
                self@.len() == self.map@.len(),
                out@.len() == i,
                forall|j: int| 0 <= j < i ==> (#[trigger] out@[j])@ == self@[j].0,
            decreases self.map@.len() - i,
        {
            out.push(self.map[i].0.as_str());
            i = i + 1;
        }
        out
    }

    /// Writes the whole stage as an archive file and returns its bytes:
    /// every resource is read from the start of its stream and compressed
    /// at `compression_level`, in path order. The stage keeps its resources.
    ///
    /// The contract says each payload decodes to its resource, but not which
    /// level produced it: the encoder's exact output depends on the linked
    /// codec library, so it is given no name here.
    pub fn write_to_bytes(&mut self, compression_level: CompressionLevel) -> (r: Result<
        Vec<u8>,
        ResourceError,
    >)
        requires
            old(self).wf(),
        ensures
            final(self).wf(),
            final(self)@ == old(self)@,
            r is Ok,
            r is Ok ==> exists|ps: Seq<Seq<u8>>|
                #[trigger] payloads_for(old(self)@, ps) && r->Ok_0@ == archive_bytes(
                    final_index(stage_paths(old(self)@), ps),
                    concat(ps),
                ),
    {
        let ghost s0 = self@;
        let preset = compression_level.preset();
        let mut payloads: Vec<Vec<u8>> = Vec::new();
        let n = self.map.len();
        let mut i: usize = 0;
        while i < n
            invariant
                self.wf(),
                self@ == s0,
                s0 == old(self)@,
                n == self.map@.len(),
                i <= n,
                preset <= 9,
                payloads@.len() == i,
                forall|j: int|
                    0 <= j < i ==> xz_decodes(#[trigger] payloads@[j]@) && xz_decoded(payloads@[j]@)
                        == s0[j].1,
            decreases n - i,
        {
            let mut data: Vec<u8> = Vec::new();
            let ghost m0 = self.map@;
            assert(self.map@[i as int].1.wf());
            self.map[i].1.rewind();
            self.map[i].1.read_to_end(&mut data);
            proof {
                assert(self.map@.len() == m0.len());
                assert forall|j: int| 0 <= j < self.map@.len() implies (#[trigger] self.map@[j]).1.wf()
                    && self@[j] == s0[j] by {
                    if j != i {
                        assert(self.map@[j] == m0[j]);
                    }
                }
                assert(self@ =~= s0);
            }
            match compress(data.as_slice(), preset) {
                Ok(payload) => {
                    payloads.push(payload);
                },
                Err(_) => {
                    return Err(ResourceError::CodecError);
                },
            }
            i = i + 1;
        }
        let paths = self.path_list();
        let r = assemble_archive(paths.as_slice(), payloads.as_slice());
        proof {
            let ps = crate::archive::vecs_view(payloads@);
            assert(crate::archive::strs_view(paths@) =~= stage_paths(s0));
            assert(payloads_for(s0, ps));
        }
        r
    }

}

} // verus!
