use crate::chunk::{taken, Chunk, ChunkFile, CHUNK_MODULUS};
use crate::index::{keys_unique, lemma_to_map_absent, lemma_to_map_at, lemma_to_map_update, to_map};
use crate::rolling_hash::fp;
use vstd::prelude::*;

verus! {

/// The name of the BLAKE3 digest of `b`, in lowercase hexadecimal.
pub uninterp spec fn blake3_hex_of(b: Seq<u8>) -> Seq<char>;

/// Relies on blake3::hash and Hash::to_hex: the digest of the bytes, as 64
/// lowercase hexadecimal characters.
#[verifier::external_body]
fn blake3_hex(bytes: &Vec<u8>) -> (r: String)
    ensures
        r@ == blake3_hex_of(bytes@),
        r@.len() == 64,
{
    blake3::hash(bytes.as_slice()).to_hex().to_ascii_lowercase()
}

/// A path with each backslash turned into a forward slash.
pub open spec fn normalized(p: Seq<char>) -> Seq<char> {
    p.map_values(|c: char| if c == '\\' { '/' } else { c })
}

/// Relies on str::replace: every backslash replaced by a slash, nothing else changed.
#[verifier::external_body]
pub(crate) fn normalize_path(p: &str) -> (r: String)
    ensures
        r@ == normalized(p@),
{
    p.replace('\\', "/")
}

/// A chunk ready to be stored: its id and its bytes.
#[derive(Debug)]
pub struct Blob {
    pub chunk_id: u64,
    pub bytes: Vec<u8>,
}

/// Bytes `[start, end)` of the chunk `chunk_id` belong to `path`.
#[derive(Debug, Clone)]
pub struct ChunkSegment {
    pub path: String,
    pub chunk_id: u64,
    pub start: u64,
    pub end: u64,
}

impl View for ChunkSegment {
    type V = (Seq<char>, int, int, int);

    open spec fn view(&self) -> (Seq<char>, int, int, int) {
        (self.path@, self.chunk_id as int, self.start as int, self.end as int)
    }
}

/// Where a run of appends and seals stands: the harvested segments, the file
/// ranges and bytes of the open chunk, and the bytes of the chunks sealed so far.
#[verifier::ext_equal]
pub struct FeedState {
    pub log: Seq<(Seq<char>, int, int, int)>,
    pub segs: Seq<(Seq<char>, int, int)>,
    pub buf: Seq<u8>,
    pub sealed: Seq<Seq<u8>>,
}

/// File ranges stamped with the id of the chunk they lie in.
pub open spec fn stamped(segs: Seq<(Seq<char>, int, int)>, id: int) -> Seq<(Seq<char>, int, int, int)> {
    segs.map_values(|s: (Seq<char>, int, int)| (s.0, id, s.1, s.2))
}

/// Sealing the open chunk: its ranges move to the log under its fingerprint,
/// its bytes join the sealed chunks, and a fresh chunk opens.
pub open spec fn seal_state(st: FeedState) -> FeedState {
    FeedState {
        log: st.log + stamped(st.segs, fp(st.buf)),
        segs: Seq::empty(),
        buf: Seq::empty(),
        sealed: st.sealed.push(st.buf),
    }
}

/// Streaming the bytes of one file through the open chunk: append until a
/// boundary, seal at each boundary, and go on with the bytes left.
pub open spec fn feed(st: FeedState, path: Seq<char>, bytes: Seq<u8>, m: int) -> FeedState
    decreases bytes.len(),
{
    let k = taken(st.buf, bytes, m);
    let grown = FeedState {
        log: st.log,
        segs: st.segs.push((path, st.buf.len() as int, (st.buf.len() + k) as int)),
        buf: st.buf + bytes.take(k as int),
        sealed: st.sealed,
    };
    if bytes.len() > 0 && fp(grown.buf) % m == 0 {
        if k < bytes.len() {
            feed(seal_state(grown), path, bytes.skip(k as int), m)
        } else {
            seal_state(grown)
        }
    } else {
        grown
    }
}

/// The whole state of a run: path to hash, hash to paths, and streaming.
#[verifier::ext_equal]
pub struct RunState {
    pub hashes: Map<Seq<char>, Seq<char>>,
    pub groups: Map<Seq<char>, Seq<Seq<char>>>,
    pub feed: FeedState,
}

/// Taking in one file `p` with hash `h`: record the hash, and stream the
/// bytes only where no earlier file had that hash.
pub open spec fn add_step(rs: RunState, p: Seq<char>, h: Seq<char>, bytes: Seq<u8>, m: int) -> RunState {
    if rs.groups.contains_key(h) {
        RunState {
            hashes: rs.hashes.insert(p, h),
            groups: rs.groups.insert(h, rs.groups[h].push(p)),
            feed: rs.feed,
        }
    } else {
        RunState {
            hashes: rs.hashes.insert(p, h),
            groups: rs.groups.insert(h, seq![p]),
            feed: feed(rs.feed, p, bytes, m),
        }
    }
}

/// Drives chunks over a sequence of files and keeps the dedup indices.
pub struct Chunker {
    pub chunk: Chunk,
    pub segments: Vec<ChunkSegment>,
    pub hash_to_path_map: Vec<(String, Vec<String>)>,
    pub path_to_hash_map: Vec<(String, String)>,
}

impl Chunker {
    /// The harvested segments, in the order they were sealed.
    pub open spec fn log(&self) -> Seq<(Seq<char>, int, int, int)> {
        self.segments@.map_values(|s: ChunkSegment| s@)
    }

    pub open spec fn hash_pairs(&self) -> Seq<(Seq<char>, Seq<char>)> {
        self.path_to_hash_map@.map_values(|e: (String, String)| (e.0@, e.1@))
    }

    pub open spec fn group_pairs(&self) -> Seq<(Seq<char>, Seq<Seq<char>>)> {
        self.hash_to_path_map@.map_values(
            |e: (String, Vec<String>)| (e.0@, e.1@.map_values(|p: String| p@)),
        )
    }

    /// Path to whole-file hash.
    pub open spec fn hashes(&self) -> Map<Seq<char>, Seq<char>> {
        to_map(self.hash_pairs())
    }

    /// Whole-file hash to the paths that have it, in the order they came.
    pub open spec fn groups(&self) -> Map<Seq<char>, Seq<Seq<char>>> {
        to_map(self.group_pairs())
    }

    /// The run state, with the chunks in `blobs` as the ones sealed.
    pub open spec fn model(&self, blobs: Seq<Blob>) -> RunState {
        RunState {
            hashes: self.hashes(),
            groups: self.groups(),
            feed: FeedState { sealed: Self::payloads(blobs), ..self.state() },
        }
    }

    /// The state that `feed` starts from.
    pub open spec fn state(&self) -> FeedState {
        FeedState {
            log: self.log(),
            segs: self.chunk.segs(),
            buf: self.chunk.buffer@,
            sealed: Seq::empty(),
        }
    }

    pub open spec fn wf(&self) -> bool {
        &&& self.chunk.wf()
        &&& self.chunk.buffer@.len() > 0 ==> fp(self.chunk.buffer@) % (self.chunk.modulus as int)
            != 0
        &&& keys_unique(self.hash_pairs())
        &&& keys_unique(self.group_pairs())
    }

    pub fn new() -> (r: Chunker)
        ensures
            r.wf(),
            r.chunk.modulus == CHUNK_MODULUS,
            r.state() == (FeedState {
                log: Seq::empty(),
                segs: Seq::empty(),
                buf: Seq::empty(),
                sealed: Seq::empty(),
            }),
            r.hashes() == Map::<Seq<char>, Seq<char>>::empty(),
            r.groups() == Map::<Seq<char>, Seq<Seq<char>>>::empty(),
    {
        Chunker::with_modulus(CHUNK_MODULUS)
    }

    /// A chunker whose boundaries fall at multiples of `modulus`.
    pub fn with_modulus(modulus: u64) -> (r: Chunker)
        requires
            modulus > 0,
        ensures
            r.wf(),
            r.chunk.modulus == modulus,
            r.state() == (FeedState {
                log: Seq::empty(),
                segs: Seq::empty(),
                buf: Seq::empty(),
                sealed: Seq::empty(),
            }),
            r.hashes() == Map::<Seq<char>, Seq<char>>::empty(),
            r.groups() == Map::<Seq<char>, Seq<Seq<char>>>::empty(),
    {
        let r = Chunker {
            chunk: Chunk::with_modulus(modulus),
            segments: Vec::new(),
            hash_to_path_map: Vec::new(),
            path_to_hash_map: Vec::new(),
        };
        assert(r.state() =~= (FeedState {
            log: Seq::empty(),
            segs: Seq::empty(),
            buf: Seq::empty(),
            sealed: Seq::empty(),
        }));
        assert(r.hash_pairs() =~= Seq::empty());
        assert(r.group_pairs() =~= Seq::empty());
        r
    }

    /// Seals the open chunk: stamps its ranges with its id, moves them to the
    /// log, and hands out its bytes; a fresh chunk takes its place.
    fn seal(&mut self) -> (blob: Blob)
        requires
            old(self).chunk.wf(),
        ensures
            final(self).chunk.wf(),
            final(self).chunk.modulus == old(self).chunk.modulus,
            final(self).state() == (FeedState { sealed: Seq::empty(), ..seal_state(old(self).state()) }),
            blob.bytes@ == old(self).chunk.buffer@,
            blob.chunk_id as int == fp(old(self).chunk.buffer@),
            final(self).hash_to_path_map == old(self).hash_to_path_map,
            final(self).path_to_hash_map == old(self).path_to_hash_map,
    {
        self.chunk.repair();
        let id = self.chunk.fingerprint.value();
        let n = self.chunk.files.len();
        let ghost log0 = self.log();
        let ghost segs = self.chunk.segs();
        let ghost c1 = self.chunk;
        let mut i: usize = 0;
        while i < n
            invariant
                0 <= i <= n,
                n == self.chunk.files@.len(),
                segs == self.chunk.segs(),
                self.chunk == c1,
                forall|j: int|
                    0 <= j < n ==> #[trigger] self.chunk.files@[j].name as int == id as int,
                id as int == fp(self.chunk.buffer@),
                self.log() == log0 + stamped(segs.take(i as int), id as int),
                self.hash_to_path_map == old(self).hash_to_path_map,
                self.path_to_hash_map == old(self).path_to_hash_map,
            decreases n - i,
        {
            let f: &ChunkFile = &self.chunk.files[i];
            let s = ChunkSegment {
                path: f.filename.clone(),
                chunk_id: f.name,
                start: f.start,
                end: f.end,
            };
            let ghost prev = self.segments@;
            assert(segs[i as int] == self.chunk.files@[i as int]@);
            self.segments.push(s);
            proof {
                assert(self.segments@ == prev.push(s));
                assert(self.log() =~= log0 + stamped(segs.take(i as int), id as int) + seq![s@]);
                assert(segs.take(i + 1) =~= segs.take(i as int).push(segs[i as int]));
                assert(stamped(segs.take(i + 1), id as int) =~= stamped(segs.take(i as int), id as int).push(
                    (segs[i as int].0, id as int, segs[i as int].1, segs[i as int].2)));
                assert(self.log() =~= log0 + stamped(segs.take(i + 1), id as int));
            }
            i = i + 1;
        }
        proof {
            assert(segs.take(n as int) =~= segs);
        }
        let mut fresh = Chunk::with_modulus(self.chunk.modulus);
        core::mem::swap(&mut self.chunk, &mut fresh);
        let r = Blob { chunk_id: id, bytes: fresh.buffer };
        assert(self.state() =~= (FeedState { sealed: Seq::empty(), ..seal_state(old(self).state()) }));
        r
    }

    /// The bytes of the sealed chunks, in order.
    pub open spec fn payloads(blobs: Seq<Blob>) -> Seq<Seq<u8>> {
        blobs.map_values(|b: Blob| b.bytes@)
    }

    /// Every blob is named by the fingerprint of its bytes.
    pub open spec fn named_by_fingerprint(blobs: Seq<Blob>) -> bool {
        forall|i: int| 0 <= i < blobs.len() ==> #[trigger] blobs[i].chunk_id as int == fp(blobs[i].bytes@)
    }

    /// Streams `bytes` of `path` through the open chunk, sealing at each boundary.
    fn stream(&mut self, path: &String, bytes: Vec<u8>) -> (blobs: Vec<Blob>)
        requires
            old(self).wf(),
            old(self).chunk.buffer@.len() + bytes@.len() <= u64::MAX,
        ensures
            final(self).wf(),
            final(self).chunk.modulus == old(self).chunk.modulus,
            (FeedState { sealed: Self::payloads(blobs@), ..final(self).state() }) == feed(
                old(self).state(),
                path@,
                bytes@,
                old(self).chunk.modulus as int,
            ),
            Self::named_by_fingerprint(blobs@),
            final(self).hash_to_path_map == old(self).hash_to_path_map,
            final(self).path_to_hash_map == old(self).path_to_hash_map,
    {
        let ghost m = self.chunk.modulus as int;
        let ghost target = feed(self.state(), path@, bytes@, m);
        let mut blobs: Vec<Blob> = Vec::new();
        let mut rest = bytes;
        let mut first = true;
        assert(Self::payloads(blobs@) =~= Seq::empty());
        assert((FeedState { sealed: Self::payloads(blobs@), ..self.state() }) =~= self.state());
        while first || rest.len() > 0
            invariant
                self.wf(),
                m == self.chunk.modulus as int,
                self.chunk.buffer@.len() + rest@.len() <= u64::MAX,
                Self::named_by_fingerprint(blobs@),
                self.hash_to_path_map == old(self).hash_to_path_map,
                self.path_to_hash_map == old(self).path_to_hash_map,
                first || rest@.len() > 0 ==> feed(
                    FeedState { sealed: Self::payloads(blobs@), ..self.state() },
                    path@,
                    rest@,
                    m,
                ) == target,
                !(first || rest@.len() > 0) ==> (FeedState {
                    sealed: Self::payloads(blobs@),
                    ..self.state()
                }) == target,
            decreases rest@.len() + if first { 1int } else { 0int },
        {
            let ghost st = FeedState { sealed: Self::payloads(blobs@), ..self.state() };
            let ghost r0 = rest@;
            let had = rest.len() > 0;
            rest = self.chunk.add_file(path, &rest);
            let ghost k = taken(st.buf, r0, m);
            let ghost grown = FeedState {
                log: st.log,
                segs: st.segs.push((path@, st.buf.len() as int, (st.buf.len() + k) as int)),
                buf: st.buf + r0.take(k as int),
                sealed: st.sealed,
            };
            assert((FeedState { sealed: Self::payloads(blobs@), ..self.state() }) =~= grown);
            if had && self.chunk.fingerprint.value() % self.chunk.modulus == 0 {
                let b = self.seal();
                let ghost pb = Self::payloads(blobs@);
                blobs.push(b);
                proof {
                    assert(Self::payloads(blobs@) =~= pb.push(b.bytes@));
                    assert((FeedState { sealed: Self::payloads(blobs@), ..self.state() }) =~= seal_state(grown));
                }
            } else {
                proof {
                    if had {
                        assert(k == r0.len());
                    }
                }
            }
            first = false;
        }
        blobs
    }

    /// Records `hash` as the whole-file hash of `path`.
    fn set_hash(&mut self, path: String, hash: String)
        requires
            old(self).wf(),
        ensures
            final(self).wf(),
            final(self).hashes() == old(self).hashes().insert(path@, hash@),
            final(self).hash_to_path_map == old(self).hash_to_path_map,
            final(self).chunk == old(self).chunk,
            final(self).segments == old(self).segments,
    {
        let n = self.path_to_hash_map.len();
        let mut i: usize = 0;
        while i < n
            invariant
                0 <= i <= n,
                n == self.path_to_hash_map@.len(),
                self == old(self),
                self.wf(),
                forall|j: int| 0 <= j < i ==> #[trigger] self.hash_pairs()[j].0 != path@,
            decreases n - i,
        {
            if self.path_to_hash_map[i].0 == path {
                let ghost before = self.hash_pairs();
                proof {
                    lemma_to_map_update(before, i as int, hash@);
                }
                self.path_to_hash_map.set(i, (path, hash));
                assert(self.hash_pairs() =~= before.update(i as int, (before[i as int].0, hash@)));
                return;
            }
            i = i + 1;
        }
        let ghost before = self.hash_pairs();
        proof {
            lemma_to_map_absent(before, path@);
        }
        self.path_to_hash_map.push((path, hash));
        assert(self.hash_pairs() =~= before.push((path@, hash@)));
        assert(self.hash_pairs().drop_last() =~= before);
    }

    /// Adds `path` to the paths that have `hash`; tells whether `hash` was
    /// already known.
    fn add_to_group(&mut self, hash: String, path: String) -> (known: bool)
        requires
            old(self).wf(),
        ensures
            final(self).wf(),
            known == old(self).groups().contains_key(hash@),
            known ==> final(self).groups() == old(self).groups().insert(
                hash@,
                old(self).groups()[hash@].push(path@),
            ),
            !known ==> final(self).groups() == old(self).groups().insert(hash@, seq![path@]),
            final(self).path_to_hash_map == old(self).path_to_hash_map,
            final(self).chunk == old(self).chunk,
            final(self).segments == old(self).segments,
    {
        let n = self.hash_to_path_map.len();
        let mut i: usize = 0;
        while i < n
            invariant
                0 <= i <= n,
                n == self.hash_to_path_map@.len(),
                self == old(self),
                self.wf(),
                forall|j: int| 0 <= j < i ==> #[trigger] self.group_pairs()[j].0 != hash@,
            decreases n - i,
        {
            if self.hash_to_path_map[i].0 == hash {
                let ghost before = self.group_pairs();
                let mut entry = self.hash_to_path_map.remove(i);
                let ghost paths0 = entry.1@;
                entry.1.push(path);
                let ghost np = entry.1@.map_values(|p: String| p@);
                proof {
                    lemma_to_map_at(before, i as int);
                    lemma_to_map_update(before, i as int, np);
                    assert(np =~= paths0.map_values(|p: String| p@).push(path@));
                }
                self.hash_to_path_map.insert(i, entry);
                assert(self.group_pairs() =~= before.update(i as int, (before[i as int].0, np)));
                return true;
            }
            i = i + 1;
        }
        let ghost before = self.group_pairs();
        proof {
            lemma_to_map_absent(before, hash@);
        }
        let mut paths: Vec<String> = Vec::new();
        paths.push(path);
        let ghost pv = paths@;
        self.hash_to_path_map.push((hash, paths));
        assert(pv.map_values(|p: String| p@) =~= seq![path@]);
        assert(self.group_pairs() =~= before.push((hash@, seq![path@])));
        assert(self.group_pairs().drop_last() =~= before);
        false
    }

    /// Takes in one file whose whole-file hash is `hash`: records the hash and,
    /// unless a file with the same hash came before, streams its bytes into
    /// chunks. Returns the chunks sealed on the way.
    pub fn add_hashed_file(&mut self, path: &str, hash: String, bytes: Vec<u8>) -> (blobs: Vec<Blob>)
        requires
            old(self).wf(),
            old(self).chunk.buffer@.len() + bytes@.len() <= u64::MAX,
        ensures
            final(self).wf(),
            final(self).chunk.modulus == old(self).chunk.modulus,
            Self::named_by_fingerprint(blobs@),
            final(self).model(blobs@) == add_step(
                old(self).model(Seq::empty()),
                normalized(path@),
                hash@,
                bytes@,
                old(self).chunk.modulus as int,
            ),
            ({
                let p = normalized(path@);
                let h = hash@;
                &&& final(self).hashes() == old(self).hashes().insert(p, h)
                &&& old(self).groups().contains_key(h) ==> {
                    &&& final(self).groups() == old(self).groups().insert(h, old(self).groups()[h].push(p))
                    &&& blobs@.len() == 0
                    &&& final(self).state() == old(self).state()
                }
                &&& !old(self).groups().contains_key(h) ==> {
                    &&& final(self).groups() == old(self).groups().insert(h, seq![p])
                    &&& (FeedState { sealed: Self::payloads(blobs@), ..final(self).state() }) == feed(
                        old(self).state(),
                        p,
                        bytes@,
                        old(self).chunk.modulus as int,
                    )
                }
            }),
    {
        let p = normalize_path(path);
        let ghost m = self.chunk.modulus as int;
        proof {
            assert(self.model(Seq::empty()).feed =~= self.state());
        }
        self.set_hash(p.clone(), hash.clone());
        let known = self.add_to_group(hash, p.clone());
        if known {
            let blobs: Vec<Blob> = Vec::new();
            proof {
                assert(Self::payloads(blobs@) =~= Seq::empty());
                assert(self.model(blobs@) =~= add_step(old(self).model(Seq::empty()), p@, hash@, bytes@, m));
            }
            return blobs;
        }
        let blobs = self.stream(&p, bytes);
        assert(self.model(blobs@) =~= add_step(old(self).model(Seq::empty()), p@, hash@, bytes@, m));
        blobs
    }

    /// Takes in one file: hashes its contents with BLAKE3 and goes on as
    /// `add_hashed_file`.
    pub fn add_file(&mut self, path: &str, bytes: Vec<u8>) -> (blobs: Vec<Blob>)
        requires
            old(self).wf(),
            old(self).chunk.buffer@.len() + bytes@.len() <= u64::MAX,
        ensures
            final(self).wf(),
            final(self).chunk.modulus == old(self).chunk.modulus,
            Self::named_by_fingerprint(blobs@),
            final(self).model(blobs@) == add_step(
                old(self).model(Seq::empty()),
                normalized(path@),
                blake3_hex_of(bytes@),
                bytes@,
                old(self).chunk.modulus as int,
            ),
            ({
                let p = normalized(path@);
                let h = blake3_hex_of(bytes@);
                &&& final(self).hashes() == old(self).hashes().insert(p, h)
                &&& old(self).groups().contains_key(h) ==> {
                    &&& final(self).groups() == old(self).groups().insert(h, old(self).groups()[h].push(p))
                    &&& blobs@.len() == 0
                    &&& final(self).state() == old(self).state()
                }
                &&& !old(self).groups().contains_key(h) ==> {
                    &&& final(self).groups() == old(self).groups().insert(h, seq![p])
                    &&& (FeedState { sealed: Self::payloads(blobs@), ..final(self).state() }) == feed(
                        old(self).state(),
                        p,
                        bytes@,
                        old(self).chunk.modulus as int,
                    )
                }
            }),
    {
        let h = blake3_hex(&bytes);
        self.add_hashed_file(path, h, bytes)
    }

    /// Seals the last chunk, if it holds bytes or file ranges.
    pub fn finish(&mut self) -> (blob: Option<Blob>)
        requires
            old(self).wf(),
        ensures
            final(self).wf(),
            final(self).chunk.modulus == old(self).chunk.modulus,
            final(self).hashes() == old(self).hashes(),
            final(self).groups() == old(self).groups(),
            old(self).chunk.buffer@.len() == 0 && old(self).chunk.files@.len() == 0 ==> {
                &&& blob.is_none()
                &&& final(self).state() == old(self).state()
            },
            !(old(self).chunk.buffer@.len() == 0 && old(self).chunk.files@.len() == 0) ==> {
                &&& blob.is_some()
                &&& blob.unwrap().bytes@ == old(self).chunk.buffer@
                &&& blob.unwrap().chunk_id as int == fp(old(self).chunk.buffer@)
                &&& final(self).state() == (FeedState {
                    sealed: Seq::empty(),
                    ..seal_state(old(self).state())
                })
            },
    {
        if self.chunk.is_empty() && self.chunk.files.len() == 0 {
            return None;
        }
        let b = self.seal();
        Some(b)
    }
}

} // verus!
