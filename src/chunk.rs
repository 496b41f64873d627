use crate::rolling_hash::{fp, lemma_fp_push, RabinFingerprint};
use vstd::prelude::*;

verus! {

/// Default chunk modulus: a boundary falls where the fingerprint is a multiple of it.
pub const CHUNK_MODULUS: u64 = 10485760;

/// How many leading bytes of `bytes` a chunk holding `buf` takes in: up to and
/// including the first byte after which the fingerprint is a multiple of `m`,
/// or all of them when no such byte comes.
pub open spec fn taken(buf: Seq<u8>, bytes: Seq<u8>, m: int) -> nat
    decreases bytes.len(),
{
    if bytes.len() == 0 {
        0
    } else if fp(buf.push(bytes[0])) % m == 0 {
        1
    } else {
        1 + taken(buf.push(bytes[0]), bytes.drop_first(), m)
    }
}

/// A range `[start, end)` of one source file's bytes inside a chunk.
#[derive(Debug, Clone)]
pub struct ChunkFile {
    pub name: u64,
    pub start: u64,
    pub end: u64,
    pub filename: String,
}

impl View for ChunkFile {
    type V = (Seq<char>, int, int);

    open spec fn view(&self) -> (Seq<char>, int, int) {
        (self.filename@, self.start as int, self.end as int)
    }
}

/// Segments laid end to end from offset 0 up to `offset`.
pub open spec fn segments_cover(segs: Seq<(Seq<char>, int, int)>, offset: int) -> bool {
    &&& forall|i: int| 0 <= i < segs.len() ==> #[trigger] segs[i].1 <= segs[i].2
    &&& forall|i: int| 0 <= i < segs.len() - 1 ==> #[trigger] segs[i].2 == segs[i + 1].1
    &&& segs.len() == 0 ==> offset == 0
    &&& segs.len() > 0 ==> segs[0].1 == 0 && segs.last().2 == offset
}

/// The chunk being filled: its bytes, the file ranges in it, and the running
/// fingerprint of its bytes.
#[derive(Debug, Clone)]
pub struct Chunk {
    pub current_offset: u64,
    pub buffer: Vec<u8>,
    pub files: Vec<ChunkFile>,
    pub fingerprint: RabinFingerprint,
    pub modulus: u64,
}

impl Chunk {
    pub open spec fn segs(&self) -> Seq<(Seq<char>, int, int)> {
        self.files@.map_values(|f: ChunkFile| f@)
    }

    pub open spec fn wf(&self) -> bool {
        &&& self.fingerprint.wf()
        &&& self.fingerprint@ == fp(self.buffer@)
        &&& self.current_offset == self.buffer.len()
        &&& self.modulus > 0
        &&& segments_cover(self.segs(), self.current_offset as int)
    }

    pub fn new() -> (r: Chunk)
        ensures
            r.wf(),
            r.buffer@ == Seq::<u8>::empty(),
            r.files@ == Seq::<ChunkFile>::empty(),
            r.modulus == CHUNK_MODULUS,
    {
        Chunk::with_modulus(CHUNK_MODULUS)
    }

    /// An empty chunk whose boundaries fall at multiples of `modulus`.
    pub fn with_modulus(modulus: u64) -> (r: Chunk)
        requires
            modulus > 0,
        ensures
            r.wf(),
            r.buffer@ == Seq::<u8>::empty(),
            r.files@ == Seq::<ChunkFile>::empty(),
            r.modulus == modulus,
    {
        let r = Chunk {
            current_offset: 0,
            buffer: Vec::new(),
            files: Vec::new(),
            fingerprint: RabinFingerprint::new(),
            modulus,
        };
        assert(r.segs() =~= Seq::<(Seq<char>, int, int)>::empty());
        r
    }

    pub fn is_empty(&self) -> (r: bool)
        ensures
            r == (self.buffer@.len() == 0),
    {
        self.buffer.len() == 0
    }

    /// Takes bytes of `file` in until a boundary or the end of `bytes`,
    /// records the range they fill, and returns the bytes not taken.
    pub fn add_file(&mut self, file: &String, bytes: &Vec<u8>) -> (rest: Vec<u8>)
        requires
            old(self).wf(),
            old(self).buffer@.len() + bytes@.len() <= u64::MAX,
        ensures
            final(self).wf(),
            final(self).modulus == old(self).modulus,
            ({
                let k = taken(old(self).buffer@, bytes@, old(self).modulus as int);
                &&& k <= bytes@.len()
                &&& final(self).buffer@ == old(self).buffer@ + bytes@.take(k as int)
                &&& rest@ == bytes@.skip(k as int)
                &&& final(self).segs() == old(self).segs().push(
                    (file@, old(self).buffer@.len() as int, final(self).buffer@.len() as int),
                )
                &&& k < bytes@.len() ==> fp(final(self).buffer@) % (old(self).modulus as int)
                    == 0
            }),
    {
        let ghost b0 = self.buffer@;
        let ghost m = self.modulus as int;
        let ghost segs0 = self.segs();
        let start = self.current_offset;
        let n = bytes.len();
        let mut i: usize = 0;
        let mut hit = false;
        proof {
            assert(bytes@.skip(0) =~= bytes@);
            assert(b0 + bytes@.take(0) =~= b0);
        }
        while i < n && !hit
            invariant
                0 <= i <= n,
                n == bytes@.len(),
                b0.len() + n <= u64::MAX,
                m == self.modulus as int,
                m > 0,
                self.fingerprint.wf(),
                self.buffer@ == b0 + bytes@.take(i as int),
                self.fingerprint@ == fp(self.buffer@),
                self.files@ == old(self).files@,
                start == b0.len(),
                hit ==> taken(b0, bytes@, m) == i,
                hit ==> fp(self.buffer@) % m == 0,
                !hit ==> taken(b0, bytes@, m) == i + taken(self.buffer@, bytes@.skip(i as int), m),
            decreases n - i,
        {
            let byte = bytes[i];
            proof {
                lemma_fp_push(self.buffer@, byte);
                let sk = bytes@.skip(i as int);
                assert(sk[0] == byte);
                assert(sk.drop_first() =~= bytes@.skip(i + 1));
                assert(b0 + bytes@.take(i + 1) =~= self.buffer@.push(byte));
            }
            self.buffer.push(byte);
            self.fingerprint.push_byte(byte);
            i = i + 1;
            if self.fingerprint.value() % self.modulus == 0 {
                hit = true;
            }
        }
        proof {
            if !hit {
                assert(bytes@.skip(i as int).len() == 0);
            }
        }
        let written = i as u64;
        self.current_offset = start + written;
        let seg = ChunkFile {
            name: self.fingerprint.value(),
            start,
            end: self.current_offset,
            filename: file.clone(),
        };
        self.files.push(seg);
        proof {
            assert(self.segs() =~= segs0.push((file@, b0.len() as int, self.buffer@.len() as int)));
        }
        let mut rest: Vec<u8> = Vec::new();
        let mut j: usize = i;
        while j < n
            invariant
                i <= j <= n,
                n == bytes@.len(),
                rest@ == bytes@.subrange(i as int, j as int),
            decreases n - j,
        {
            rest.push(bytes[j]);
            j = j + 1;
            proof {
                assert(rest@ =~= bytes@.subrange(i as int, j as int));
            }
        }
        assert(rest@ =~= bytes@.skip(i as int));
        rest
    }

    /// Stamps every file range with the chunk's final fingerprint, its id.
    pub fn repair(&mut self)
        requires
            old(self).wf(),
        ensures
            final(self).wf(),
            final(self).buffer@ == old(self).buffer@,
            final(self).modulus == old(self).modulus,
            final(self).segs() == old(self).segs(),
            forall|i: int|
                0 <= i < final(self).files@.len() ==> #[trigger] final(self).files@[i].name as int
                    == fp(final(self).buffer@),
    {
        let id = self.fingerprint.value();
        let n = self.files.len();
        let ghost segs0 = self.segs();
        let mut i: usize = 0;
        while i < n
            invariant
                0 <= i <= n,
                n == self.files@.len(),
                id as int == fp(self.buffer@),
                self.buffer@ == old(self).buffer@,
                self.current_offset == old(self).current_offset,
                self.fingerprint == old(self).fingerprint,
                self.modulus == old(self).modulus,
                self.segs() == segs0,
                forall|j: int| 0 <= j < i ==> #[trigger] self.files@[j].name == id,
            decreases n - i,
        {
            let f = ChunkFile {
                name: id,
                start: self.files[i].start,
                end: self.files[i].end,
                filename: self.files[i].filename.clone(),
            };
            self.files.set(i, f);
            proof {
                assert(self.segs() =~= segs0);
            }
            i = i + 1;
        }
    }
}

} // verus!
