use crate::chunk::taken;
use crate::chunker::{add_step, feed, seal_state, stamped, Blob, Chunker, FeedState, RunState};
use crate::index::{keys_unique, lemma_to_map_absent, lemma_to_map_at, to_map};
use crate::manifest::{
    decoded_all, files_of, first_stored, in_log, lemma_lookup_skip, lookup, multi, ranges_of,
    resolution, snappy_unframe_of, RestoreInformation,
};
use crate::rolling_hash::fp;
use vstd::prelude::*;

verus! {

/// The bytes of a sequence of chunks, one after another.
pub open spec fn joined(s: Seq<Seq<u8>>) -> Seq<u8>
    decreases s.len(),
{
    if s.len() == 0 {
        Seq::empty()
    } else {
        joined(s.drop_last()) + s.last()
    }
}

/// Total length of a list of ranges.
pub open spec fn range_total(rs: Seq<(int, int, int)>) -> int
    decreases rs.len(),
{
    if rs.len() == 0 {
        0
    } else {
        range_total(rs.drop_last()) + (rs.last().2 - rs.last().1)
    }
}

/// Total length of the ranges of `p` among the open chunk's file ranges.
pub open spec fn seg_total(segs: Seq<(Seq<char>, int, int)>, p: Seq<char>) -> int
    decreases segs.len(),
{
    if segs.len() == 0 {
        0
    } else {
        seg_total(segs.drop_last(), p) + if segs.last().0 == p {
            segs.last().2 - segs.last().1
        } else {
            0
        }
    }
}

/// Bytes of `p` accounted for so far: in harvested segments and in the open chunk.
pub open spec fn covered(st: FeedState, p: Seq<char>) -> int {
    range_total(ranges_of(st.log, p)) + seg_total(st.segs, p)
}

pub proof fn lemma_taken_bound(buf: Seq<u8>, bytes: Seq<u8>, m: int)
    ensures
        taken(buf, bytes, m) <= bytes.len(),
        bytes.len() > 0 ==> taken(buf, bytes, m) >= 1,
    decreases bytes.len(),
{
    if bytes.len() > 0 {
        lemma_taken_bound(buf.push(bytes[0]), bytes.drop_first(), m);
    }
}

/// Fewer bytes than offered are taken only where a boundary falls.
pub proof fn lemma_taken_boundary(buf: Seq<u8>, bytes: Seq<u8>, m: int)
    ensures
        taken(buf, bytes, m) < bytes.len() ==> fp(buf + bytes.take(taken(buf, bytes, m) as int)) % m
            == 0,
        bytes.len() > 0 && fp(buf + bytes.take(taken(buf, bytes, m) as int)) % m != 0 ==> taken(
            buf,
            bytes,
            m,
        ) == bytes.len(),
    decreases bytes.len(),
{
    lemma_taken_bound(buf, bytes, m);
    if bytes.len() > 0 {
        let b1 = buf.push(bytes[0]);
        let rest = bytes.drop_first();
        lemma_taken_boundary(b1, rest, m);
        lemma_taken_bound(b1, rest, m);
        if fp(b1) % m == 0 {
            assert(buf + bytes.take(1) =~= b1);
        } else {
            let j = taken(b1, rest, m);
            assert(buf + bytes.take((j + 1) as int) =~= b1 + rest.take(j as int));
        }
    }
}

proof fn lemma_range_total_concat(a: Seq<(int, int, int)>, b: Seq<(int, int, int)>)
    ensures
        range_total(a + b) == range_total(a) + range_total(b),
    decreases b.len(),
{
    if b.len() > 0 {
        assert((a + b).drop_last() =~= a + b.drop_last());
        lemma_range_total_concat(a, b.drop_last());
    } else {
        assert(a + b =~= a);
    }
}

proof fn lemma_ranges_concat(
    a: Seq<(Seq<char>, int, int, int)>,
    b: Seq<(Seq<char>, int, int, int)>,
    p: Seq<char>,
)
    ensures
        ranges_of(a + b, p) == ranges_of(a, p) + ranges_of(b, p),
    decreases b.len(),
{
    if b.len() > 0 {
        assert((a + b).drop_last() =~= a + b.drop_last());
        lemma_ranges_concat(a, b.drop_last(), p);
        if b.last().0 == p {
            assert(ranges_of(a + b, p) =~= ranges_of(a, p) + ranges_of(b, p));
        }
    } else {
        assert(a + b =~= a);
        assert(ranges_of(b, p) =~= Seq::<(int, int, int)>::empty());
        assert(ranges_of(a, p) + ranges_of(b, p) =~= ranges_of(a, p));
    }
}

proof fn lemma_stamped_total(segs: Seq<(Seq<char>, int, int)>, id: int, p: Seq<char>)
    ensures
        range_total(ranges_of(stamped(segs, id), p)) == seg_total(segs, p),
    decreases segs.len(),
{
    if segs.len() > 0 {
        let t = stamped(segs, id);
        assert(t.drop_last() =~= stamped(segs.drop_last(), id));
        lemma_stamped_total(segs.drop_last(), id, p);
        let s = segs.last();
        assert(t.last() == (s.0, id, s.1, s.2));
        let r0 = ranges_of(t.drop_last(), p);
        if s.0 == p {
            assert(ranges_of(t, p) == r0.push((id, s.1, s.2)));
            assert(r0.push((id, s.1, s.2)).drop_last() =~= r0);
        }
    }
}

/// Sealing moves the open chunk's ranges into the log and loses none.
pub proof fn lemma_seal_coverage(st: FeedState, p: Seq<char>)
    ensures
        covered(seal_state(st), p) == covered(st, p),
        seal_state(st).segs.len() == 0,
{
    let id = fp(st.buf);
    lemma_ranges_concat(st.log, stamped(st.segs, id), p);
    lemma_range_total_concat(ranges_of(st.log, p), ranges_of(stamped(st.segs, id), p));
    lemma_stamped_total(st.segs, id, p);
}

/// Segment coverage: streaming a file's bytes adds exactly its length to the
/// bytes accounted for under its path, and nothing under any other path.
pub proof fn lemma_segment_coverage(st: FeedState, path: Seq<char>, bytes: Seq<u8>, m: int, q: Seq<char>)
    ensures
        covered(feed(st, path, bytes, m), q) == covered(st, q) + if q == path {
            bytes.len() as int
        } else {
            0
        },
    decreases bytes.len(),
{
    let k = taken(st.buf, bytes, m);
    lemma_taken_bound(st.buf, bytes, m);
    lemma_taken_boundary(st.buf, bytes, m);
    let grown = FeedState {
        log: st.log,
        segs: st.segs.push((path, st.buf.len() as int, (st.buf.len() + k) as int)),
        buf: st.buf + bytes.take(k as int),
        sealed: st.sealed,
    };
    assert(grown.segs.drop_last() =~= st.segs);
    assert(covered(grown, q) == covered(st, q) + if q == path { k as int } else { 0 });
    if bytes.len() > 0 && fp(grown.buf) % m == 0 {
        lemma_seal_coverage(grown, q);
        if k < bytes.len() {
            lemma_segment_coverage(seal_state(grown), path, bytes.skip(k as int), m, q);
        }
    }
}

/// Streaming loses no byte and adds none: the sealed chunks followed by the
/// open chunk hold what they held before, followed by the new bytes.
pub proof fn lemma_feed_lossless(st: FeedState, path: Seq<char>, bytes: Seq<u8>, m: int)
    ensures
        joined(feed(st, path, bytes, m).sealed) + feed(st, path, bytes, m).buf == joined(st.sealed)
            + st.buf + bytes,
    decreases bytes.len(),
{
    let k = taken(st.buf, bytes, m);
    lemma_taken_bound(st.buf, bytes, m);
    lemma_taken_boundary(st.buf, bytes, m);
    let grown = FeedState {
        log: st.log,
        segs: st.segs.push((path, st.buf.len() as int, (st.buf.len() + k) as int)),
        buf: st.buf + bytes.take(k as int),
        sealed: st.sealed,
    };
    let f = feed(st, path, bytes, m);
    if bytes.len() > 0 && fp(grown.buf) % m == 0 {
        let s2 = seal_state(grown);
        assert(s2.sealed.drop_last() =~= st.sealed);
        assert(joined(s2.sealed) == joined(st.sealed) + grown.buf);
        if k < bytes.len() {
            lemma_feed_lossless(s2, path, bytes.skip(k as int), m);
            assert(bytes.take(k as int) + bytes.skip(k as int) =~= bytes);
            assert(s2.buf =~= Seq::<u8>::empty());
            assert(joined(f.sealed) + f.buf =~= joined(st.sealed) + st.buf + bytes);
        } else {
            assert(bytes.take(k as int) =~= bytes);
            assert(joined(f.sealed) + f.buf =~= joined(st.sealed) + st.buf + bytes);
        }
    } else {
        assert(bytes.take(k as int) =~= bytes);
        assert(joined(f.sealed) + f.buf =~= joined(st.sealed) + st.buf + bytes);
    }
}

/// Each chunk that streaming seals ends on a boundary: its fingerprint is a
/// multiple of the modulus.
pub proof fn lemma_sealed_on_boundary(st: FeedState, path: Seq<char>, bytes: Seq<u8>, m: int)
    requires
        forall|i: int| 0 <= i < st.sealed.len() ==> #[trigger] fp(st.sealed[i]) % m == 0,
    ensures
        forall|i: int|
            0 <= i < feed(st, path, bytes, m).sealed.len() ==> #[trigger] fp(
                feed(st, path, bytes, m).sealed[i],
            ) % m == 0,
    decreases bytes.len(),
{
    let k = taken(st.buf, bytes, m);
    lemma_taken_bound(st.buf, bytes, m);
    lemma_taken_boundary(st.buf, bytes, m);
    let grown = FeedState {
        log: st.log,
        segs: st.segs.push((path, st.buf.len() as int, (st.buf.len() + k) as int)),
        buf: st.buf + bytes.take(k as int),
        sealed: st.sealed,
    };
    if bytes.len() > 0 && fp(grown.buf) % m == 0 {
        let s2 = seal_state(grown);
        assert forall|i: int| 0 <= i < s2.sealed.len() implies #[trigger] fp(s2.sealed[i]) % m == 0 by {
            if i < st.sealed.len() {
                assert(s2.sealed[i] == st.sealed[i]);
            }
        }
        if k < bytes.len() {
            assert(feed(st, path, bytes, m) == feed(s2, path, bytes.skip(k as int), m));
            lemma_sealed_on_boundary(s2, path, bytes.skip(k as int), m);
        } else {
            assert(feed(st, path, bytes, m) == s2);
        }
    } else {
        assert(feed(st, path, bytes, m) == grown);
    }
}

/// Boundaries are defined by content alone: two runs whose open chunks hold
/// the same bytes seal the same chunks from the same input, whatever the
/// file names and the segments harvested before.
pub proof fn lemma_boundaries_content_defined(
    st1: FeedState,
    st2: FeedState,
    p1: Seq<char>,
    p2: Seq<char>,
    bytes: Seq<u8>,
    m: int,
)
    requires
        st1.buf == st2.buf,
        st1.sealed == st2.sealed,
    ensures
        feed(st1, p1, bytes, m).sealed == feed(st2, p2, bytes, m).sealed,
        feed(st1, p1, bytes, m).buf == feed(st2, p2, bytes, m).buf,
    decreases bytes.len(),
{
    let k = taken(st1.buf, bytes, m);
    lemma_taken_bound(st1.buf, bytes, m);
    let g1 = FeedState {
        log: st1.log,
        segs: st1.segs.push((p1, st1.buf.len() as int, (st1.buf.len() + k) as int)),
        buf: st1.buf + bytes.take(k as int),
        sealed: st1.sealed,
    };
    let g2 = FeedState {
        log: st2.log,
        segs: st2.segs.push((p2, st2.buf.len() as int, (st2.buf.len() + k) as int)),
        buf: st2.buf + bytes.take(k as int),
        sealed: st2.sealed,
    };
    if bytes.len() > 0 && fp(g1.buf) % m == 0 {
        if k < bytes.len() {
            lemma_boundaries_content_defined(seal_state(g1), seal_state(g2), p1, p2, bytes.skip(k as int), m);
        }
    }
}

/// Chunks are named by content: two blobs handed out with equal bytes carry
/// the same id, so no content is stored under two names.
pub proof fn lemma_equal_bytes_equal_name(blobs: Seq<Blob>, i: int, j: int)
    requires
        Chunker::named_by_fingerprint(blobs),
        0 <= i < blobs.len(),
        0 <= j < blobs.len(),
        blobs[i].bytes@ == blobs[j].bytes@,
    ensures
        blobs[i].chunk_id == blobs[j].chunk_id,
{
}

/// The first sealed chunk whose fingerprint is `id`: the one a store that
/// ignores second writes under a name keeps.
pub open spec fn chunk_of(sealed: Seq<Seq<u8>>, id: int) -> Option<Seq<u8>>
    decreases sealed.len(),
{
    if sealed.len() == 0 {
        None
    } else {
        let r = chunk_of(sealed.drop_last(), id);
        if r is Some {
            r
        } else if fp(sealed.last()) == id {
            Some(sealed.last())
        } else {
            None
        }
    }
}

/// Bytes `[s, e)` of the chunk named `id`.
pub open spec fn piece(sealed: Seq<Seq<u8>>, id: int, s: int, e: int) -> Seq<u8> {
    match chunk_of(sealed, id) {
        Some(c) => c.subrange(s, e),
        None => Seq::empty(),
    }
}

/// What the log reassembles for `q`: its ranges, in order, cut from the chunks they name.
pub open spec fn restored_log(log: Seq<(Seq<char>, int, int, int)>, sealed: Seq<Seq<u8>>, q: Seq<char>) -> Seq<u8>
    decreases log.len(),
{
    if log.len() == 0 {
        Seq::empty()
    } else {
        let e = log.last();
        let prev = restored_log(log.drop_last(), sealed, q);
        if e.0 == q {
            prev + piece(sealed, e.1, e.2, e.3)
        } else {
            prev
        }
    }
}

/// What the open chunk's ranges of `q` hold.
pub open spec fn restored_segs(segs: Seq<(Seq<char>, int, int)>, buf: Seq<u8>, q: Seq<char>) -> Seq<u8>
    decreases segs.len(),
{
    if segs.len() == 0 {
        Seq::empty()
    } else {
        let g = segs.last();
        let prev = restored_segs(segs.drop_last(), buf, q);
        if g.0 == q {
            prev + buf.subrange(g.1, g.2)
        } else {
            prev
        }
    }
}

/// Everything reassembled for `q` so far.
pub open spec fn restored(st: FeedState, q: Seq<char>) -> Seq<u8> {
    restored_log(st.log, st.sealed, q) + restored_segs(st.segs, st.buf, q)
}

/// No two different sealed chunks share a fingerprint.
pub open spec fn no_collision(sealed: Seq<Seq<u8>>) -> bool {
    forall|i: int, j: int|
        0 <= i < sealed.len() && 0 <= j < sealed.len() && #[trigger] fp(sealed[i]) == #[trigger] fp(sealed[j])
            ==> sealed[i] == sealed[j]
}

/// Each harvested range names a sealed chunk and lies inside it; each open
/// range lies inside the open chunk.
pub open spec fn refs_ok(st: FeedState) -> bool {
    &&& forall|i: int| 0 <= i < st.log.len() ==> {
        let e = #[trigger] st.log[i];
        &&& chunk_of(st.sealed, e.1) is Some
        &&& 0 <= e.2 <= e.3 <= chunk_of(st.sealed, e.1)->Some_0.len()
    }
    &&& forall|i: int| 0 <= i < st.segs.len() ==> {
        let g = #[trigger] st.segs[i];
        0 <= g.1 <= g.2 <= st.buf.len()
    }
}

proof fn lemma_chunk_of_found(sealed: Seq<Seq<u8>>, id: int)
    requires
        chunk_of(sealed, id) is Some,
    ensures
        exists|i: int| 0 <= i < sealed.len() && sealed[i] == chunk_of(sealed, id)->Some_0,
        fp(chunk_of(sealed, id)->Some_0) == id,
    decreases sealed.len(),
{
    let d = sealed.drop_last();
    if chunk_of(d, id) is Some {
        lemma_chunk_of_found(d, id);
        let i = choose|i: int| 0 <= i < d.len() && d[i] == chunk_of(d, id)->Some_0;
        assert(sealed[i] == d[i]);
    } else {
        assert(sealed[sealed.len() - 1] == sealed.last());
    }
}

/// With no collision, the chunk named by the fingerprint of the last sealed
/// chunk is that chunk.
proof fn lemma_chunk_of_last(sealed: Seq<Seq<u8>>)
    requires
        sealed.len() > 0,
        no_collision(sealed),
    ensures
        chunk_of(sealed, fp(sealed.last())) == Some(sealed.last()),
{
    let d = sealed.drop_last();
    let id = fp(sealed.last());
    if chunk_of(d, id) is Some {
        lemma_chunk_of_found(d, id);
        let i = choose|i: int| 0 <= i < d.len() && d[i] == chunk_of(d, id)->Some_0;
        assert(sealed[i] == d[i]);
        assert(fp(sealed[i]) == fp(sealed[sealed.len() - 1]));
    }
}

proof fn lemma_restored_log_push_sealed(log: Seq<(Seq<char>, int, int, int)>, sealed: Seq<Seq<u8>>, x: Seq<u8>, q: Seq<char>)
    requires
        forall|i: int| 0 <= i < log.len() ==> chunk_of(sealed, #[trigger] log[i].1) is Some,
    ensures
        restored_log(log, sealed.push(x), q) == restored_log(log, sealed, q),
    decreases log.len(),
{
    if log.len() > 0 {
        let d = log.drop_last();
        assert forall|i: int| 0 <= i < d.len() implies chunk_of(sealed, #[trigger] d[i].1) is Some by {
            assert(d[i] == log[i]);
        }
        lemma_restored_log_push_sealed(d, sealed, x, q);
        assert(sealed.push(x).drop_last() =~= sealed);
        assert(log[log.len() - 1] == log.last());
    }
}

proof fn lemma_restored_segs_grow(segs: Seq<(Seq<char>, int, int)>, buf: Seq<u8>, t: Seq<u8>, q: Seq<char>)
    requires
        forall|i: int| 0 <= i < segs.len() ==> {
            let g = #[trigger] segs[i];
            0 <= g.1 <= g.2 <= buf.len()
        },
    ensures
        restored_segs(segs, buf + t, q) == restored_segs(segs, buf, q),
    decreases segs.len(),
{
    if segs.len() > 0 {
        let d = segs.drop_last();
        assert forall|i: int| 0 <= i < d.len() implies {
            let g = #[trigger] d[i];
            0 <= g.1 <= g.2 <= buf.len()
        } by {
            assert(d[i] == segs[i]);
        }
        lemma_restored_segs_grow(d, buf, t, q);
        let g = segs.last();
        assert(segs[segs.len() - 1] == g);
        assert((buf + t).subrange(g.1, g.2) =~= buf.subrange(g.1, g.2));
    }
}

/// Sealing: the stamped ranges cut from the new chunk give what the open
/// ranges held.
proof fn lemma_restored_stamped(
    log: Seq<(Seq<char>, int, int, int)>,
    sealed: Seq<Seq<u8>>,
    segs: Seq<(Seq<char>, int, int)>,
    buf: Seq<u8>,
    q: Seq<char>,
)
    requires
        chunk_of(sealed, fp(buf)) == Some(buf),
    ensures
        restored_log(log + stamped(segs, fp(buf)), sealed, q) == restored_log(log, sealed, q)
            + restored_segs(segs, buf, q),
    decreases segs.len(),
{
    let id = fp(buf);
    if segs.len() == 0 {
        assert(log + stamped(segs, id) =~= log);
        assert(restored_log(log, sealed, q) + Seq::<u8>::empty() =~= restored_log(log, sealed, q));
    } else {
        let d = segs.drop_last();
        lemma_restored_stamped(log, sealed, d, buf, q);
        let g = segs.last();
        let whole = log + stamped(segs, id);
        assert(whole.drop_last() =~= log + stamped(d, id));
        assert(whole.last() == (g.0, id, g.1, g.2));
        if g.0 == q {
            assert(restored_log(whole, sealed, q) =~= restored_log(log, sealed, q) + restored_segs(segs, buf, q));
        }
    }
}

proof fn lemma_sealed_prefix(st: FeedState, path: Seq<char>, bytes: Seq<u8>, m: int)
    ensures
        feed(st, path, bytes, m).sealed.len() >= st.sealed.len(),
        feed(st, path, bytes, m).sealed.take(st.sealed.len() as int) == st.sealed,
    decreases bytes.len(),
{
    let k = taken(st.buf, bytes, m);
    lemma_taken_bound(st.buf, bytes, m);
    let grown = FeedState {
        log: st.log,
        segs: st.segs.push((path, st.buf.len() as int, (st.buf.len() + k) as int)),
        buf: st.buf + bytes.take(k as int),
        sealed: st.sealed,
    };
    if bytes.len() > 0 && fp(grown.buf) % m == 0 {
        let s2 = seal_state(grown);
        if k < bytes.len() {
            lemma_sealed_prefix(s2, path, bytes.skip(k as int), m);
            let f = feed(s2, path, bytes.skip(k as int), m);
            assert(f.sealed.take(st.sealed.len() as int) =~= f.sealed.take(s2.sealed.len() as int).take(st.sealed.len() as int));
            assert(s2.sealed.take(st.sealed.len() as int) =~= st.sealed);
        } else {
            assert(s2.sealed.take(st.sealed.len() as int) =~= st.sealed);
        }
    } else {
        assert(st.sealed.take(st.sealed.len() as int) =~= st.sealed);
    }
}

proof fn lemma_no_collision_prefix(s: Seq<Seq<u8>>, n: int)
    requires
        no_collision(s),
        0 <= n <= s.len(),
    ensures
        no_collision(s.take(n)),
{
    let t = s.take(n);
    assert forall|i: int, j: int|
        0 <= i < t.len() && 0 <= j < t.len() && #[trigger] fp(t[i]) == #[trigger] fp(t[j]) implies t[i] == t[j] by {
        assert(t[i] == s[i] && t[j] == s[j]);
    }
}

/// Sealing keeps what every path reassembles to, and keeps the references sound.
pub proof fn lemma_seal_restores(st: FeedState, q: Seq<char>)
    requires
        refs_ok(st),
        no_collision(seal_state(st).sealed),
    ensures
        refs_ok(seal_state(st)),
        restored(seal_state(st), q) == restored(st, q),
{
    let s2 = seal_state(st);
    let id = fp(st.buf);
    assert(s2.sealed.last() == st.buf);
    lemma_chunk_of_last(s2.sealed);
    assert(s2.sealed.drop_last() =~= st.sealed);
    lemma_restored_log_push_sealed(st.log, st.sealed, st.buf, q);
    // every chunk named before keeps its name
    assert forall|i: int| 0 <= i < st.log.len() implies chunk_of(s2.sealed, #[trigger] st.log[i].1) == chunk_of(st.sealed, st.log[i].1) by {}
    // restored_log over the old log is unchanged by the push; the stamped part gives the open ranges
    lemma_restored_stamped_ext(st.log, st.sealed, st.segs, st.buf, q);
    assert(restored_segs(s2.segs, s2.buf, q) =~= Seq::<u8>::empty());
    assert(restored(s2, q) =~= restored(st, q));
    let st_log = st.log;
    let stamp = stamped(st.segs, id);
    assert forall|i: int| 0 <= i < s2.log.len() implies {
        let e = #[trigger] s2.log[i];
        &&& chunk_of(s2.sealed, e.1) is Some
        &&& 0 <= e.2 <= e.3 <= chunk_of(s2.sealed, e.1)->Some_0.len()
    } by {
        if i < st_log.len() {
            assert(s2.log[i] == st_log[i]);
        } else {
            let j = i - st_log.len();
            assert(s2.log[i] == stamp[j]);
            assert(st.segs[j].1 <= st.segs[j].2);
        }
    }
}

proof fn lemma_restored_stamped_ext(
    log: Seq<(Seq<char>, int, int, int)>,
    sealed: Seq<Seq<u8>>,
    segs: Seq<(Seq<char>, int, int)>,
    buf: Seq<u8>,
    q: Seq<char>,
)
    requires
        forall|i: int| 0 <= i < log.len() ==> chunk_of(sealed, #[trigger] log[i].1) is Some,
        no_collision(sealed.push(buf)),
    ensures
        restored_log(log + stamped(segs, fp(buf)), sealed.push(buf), q) == restored_log(log, sealed, q)
            + restored_segs(segs, buf, q),
{
    lemma_chunk_of_last(sealed.push(buf));
    assert(sealed.push(buf).last() == buf);
    lemma_restored_stamped(log, sealed.push(buf), segs, buf, q);
    lemma_restored_log_push_sealed(log, sealed, buf, q);
}

/// Streaming a file adds its bytes, and nothing else, to what its path
/// reassembles to; other paths are unchanged.
pub proof fn lemma_feed_restores(st: FeedState, path: Seq<char>, bytes: Seq<u8>, m: int, q: Seq<char>)
    requires
        refs_ok(st),
        no_collision(feed(st, path, bytes, m).sealed),
    ensures
        refs_ok(feed(st, path, bytes, m)),
        restored(feed(st, path, bytes, m), q) == restored(st, q) + if q == path {
            bytes
        } else {
            Seq::empty()
        },
    decreases bytes.len(),
{
    let k = taken(st.buf, bytes, m);
    lemma_taken_bound(st.buf, bytes, m);
    lemma_taken_boundary(st.buf, bytes, m);
    let t = bytes.take(k as int);
    let grown = FeedState {
        log: st.log,
        segs: st.segs.push((path, st.buf.len() as int, (st.buf.len() + k) as int)),
        buf: st.buf + t,
        sealed: st.sealed,
    };
    // the open chunk grows by the bytes taken
    lemma_restored_segs_grow(st.segs, st.buf, t, q);
    assert(grown.segs.drop_last() =~= st.segs);
    assert(grown.buf.subrange(st.buf.len() as int, (st.buf.len() + k) as int) =~= t);
    assert(restored(grown, q) =~= restored(st, q) + if q == path { t } else { Seq::empty() });
    assert forall|i: int| 0 <= i < grown.segs.len() implies {
        let g = #[trigger] grown.segs[i];
        0 <= g.1 <= g.2 <= grown.buf.len()
    } by {
        if i < st.segs.len() {
            assert(grown.segs[i] == st.segs[i]);
        }
    }
    assert(refs_ok(grown));
    let f = feed(st, path, bytes, m);
    if bytes.len() > 0 && fp(grown.buf) % m == 0 {
        let s2 = seal_state(grown);
        if k < bytes.len() {
            let rest = bytes.skip(k as int);
            assert(f == feed(s2, path, rest, m));
            lemma_sealed_prefix(s2, path, rest, m);
            lemma_no_collision_prefix(f.sealed, s2.sealed.len() as int);
            lemma_seal_restores(grown, q);
            lemma_feed_restores(s2, path, rest, m, q);
            assert(t + rest =~= bytes);
            assert(restored(f, q) =~= restored(st, q) + if q == path { bytes } else { Seq::empty() });
        } else {
            assert(f == s2);
            lemma_seal_restores(grown, q);
            assert(t =~= bytes);
        }
    } else {
        assert(f == grown);
        assert(t =~= bytes);
    }
}

/// The state a run reaches after streaming `files` in order, from `st`.
pub open spec fn feed_files(st: FeedState, files: Seq<(Seq<char>, Seq<u8>)>, m: int) -> FeedState
    decreases files.len(),
{
    if files.len() == 0 {
        st
    } else {
        feed_files(feed(st, files[0].0, files[0].1, m), files.drop_first(), m)
    }
}

pub open spec fn empty_state() -> FeedState {
    FeedState { log: Seq::empty(), segs: Seq::empty(), buf: Seq::empty(), sealed: Seq::empty() }
}

pub open spec fn paths_distinct(files: Seq<(Seq<char>, Seq<u8>)>) -> bool {
    forall|i: int, j: int| 0 <= i < j < files.len() ==> #[trigger] files[i].0 != #[trigger] files[j].0
}

proof fn lemma_feed_files_prefix(st: FeedState, files: Seq<(Seq<char>, Seq<u8>)>, m: int)
    ensures
        feed_files(st, files, m).sealed.len() >= st.sealed.len(),
        feed_files(st, files, m).sealed.take(st.sealed.len() as int) == st.sealed,
    decreases files.len(),
{
    if files.len() > 0 {
        let s1 = feed(st, files[0].0, files[0].1, m);
        lemma_sealed_prefix(st, files[0].0, files[0].1, m);
        lemma_feed_files_prefix(s1, files.drop_first(), m);
        let f = feed_files(s1, files.drop_first(), m);
        assert(f.sealed.take(st.sealed.len() as int) =~= f.sealed.take(s1.sealed.len() as int).take(st.sealed.len() as int));
    } else {
        assert(st.sealed.take(st.sealed.len() as int) =~= st.sealed);
    }
}

proof fn lemma_feed_files_restores(st: FeedState, files: Seq<(Seq<char>, Seq<u8>)>, m: int, q: Seq<char>)
    requires
        refs_ok(st),
        paths_distinct(files),
        no_collision(feed_files(st, files, m).sealed),
    ensures
        refs_ok(feed_files(st, files, m)),
        forall|i: int| 0 <= i < files.len() && #[trigger] files[i].0 == q ==> restored(feed_files(st, files, m), q)
            == restored(st, q) + files[i].1,
        (forall|i: int| 0 <= i < files.len() ==> #[trigger] files[i].0 != q) ==> restored(feed_files(st, files, m), q)
            == restored(st, q),
    decreases files.len(),
{
    if files.len() > 0 {
        let s1 = feed(st, files[0].0, files[0].1, m);
        let rest = files.drop_first();
        lemma_feed_files_prefix(s1, rest, m);
        lemma_no_collision_prefix(feed_files(s1, rest, m).sealed, s1.sealed.len() as int);
        lemma_feed_restores(st, files[0].0, files[0].1, m, q);
        assert(paths_distinct(rest)) by {
            assert forall|i: int, j: int| 0 <= i < j < rest.len() implies #[trigger] rest[i].0 != #[trigger] rest[j].0 by {
                assert(rest[i] == files[i + 1] && rest[j] == files[j + 1]);
            }
        }
        lemma_feed_files_restores(s1, rest, m, q);
        assert forall|i: int| 0 <= i < files.len() && #[trigger] files[i].0 == q implies restored(
            feed_files(st, files, m),
            q,
        ) == restored(st, q) + files[i].1 by {
            if i == 0 {
                assert forall|j: int| 0 <= j < rest.len() implies #[trigger] rest[j].0 != q by {
                    assert(rest[j] == files[j + 1]);
                }
                assert(restored(st, q) + files[0].1 + Seq::<u8>::empty() =~= restored(st, q) + files[0].1);
            } else {
                assert(rest[i - 1] == files[i]);
                assert(files[0].0 != q);
                assert(restored(s1, q) =~= restored(st, q) + Seq::<u8>::empty());
            }
        }
        if forall|i: int| 0 <= i < files.len() ==> #[trigger] files[i].0 != q {
            assert(files[0].0 != q);
            assert forall|j: int| 0 <= j < rest.len() implies #[trigger] rest[j].0 != q by {
                assert(rest[j] == files[j + 1]);
            }
            assert(restored(s1, q) =~= restored(st, q) + Seq::<u8>::empty());
        }
    }
}

/// Round trip: after streaming files with distinct paths and sealing the
/// last chunk, cutting each file's logged ranges, in order, out of the chunks
/// they name gives back the file's bytes, provided no two different chunks
/// of the run share a fingerprint.
pub proof fn lemma_round_trip(files: Seq<(Seq<char>, Seq<u8>)>, m: int, i: int)
    requires
        paths_distinct(files),
        0 <= i < files.len(),
        no_collision(seal_state(feed_files(empty_state(), files, m)).sealed),
    ensures
        ({
            let fin = seal_state(feed_files(empty_state(), files, m));
            restored_log(fin.log, fin.sealed, files[i].0) == files[i].1
        }),
{
    let st = feed_files(empty_state(), files, m);
    let fin = seal_state(st);
    assert(fin.sealed.drop_last() =~= st.sealed);
    assert(fin.sealed.take(st.sealed.len() as int) =~= st.sealed);
    lemma_no_collision_prefix(fin.sealed, st.sealed.len() as int);
    assert(refs_ok(empty_state()));
    lemma_feed_files_restores(empty_state(), files, m, files[i].0);
    lemma_seal_restores(st, files[i].0);
    assert(restored(empty_state(), files[i].0) =~= Seq::<u8>::empty());
    assert(restored(fin, files[i].0) =~= restored_log(fin.log, fin.sealed, files[i].0));
    assert(Seq::<u8>::empty() + files[i].1 =~= files[i].1);
}

/// Chunks sealed earlier do not change what streaming does: a run that starts
/// with sealed chunks `st.sealed` ends as one that starts with none, those
/// chunks put in front. So the blob lists that successive `add_file` calls
/// hand out, one after another, are the sealed chunks of `feed_files`.
pub proof fn lemma_feed_sealed_shift(st: FeedState, path: Seq<char>, bytes: Seq<u8>, m: int)
    ensures
        feed(st, path, bytes, m) == (FeedState {
            sealed: st.sealed + feed(FeedState { sealed: Seq::empty(), ..st }, path, bytes, m).sealed,
            ..feed(FeedState { sealed: Seq::empty(), ..st }, path, bytes, m)
        }),
    decreases bytes.len(),
{
    let st0 = FeedState { sealed: Seq::empty(), ..st };
    let k = taken(st.buf, bytes, m);
    lemma_taken_bound(st.buf, bytes, m);
    let grown = FeedState {
        log: st.log,
        segs: st.segs.push((path, st.buf.len() as int, (st.buf.len() + k) as int)),
        buf: st.buf + bytes.take(k as int),
        sealed: st.sealed,
    };
    let grown0 = FeedState { sealed: Seq::empty(), ..grown };
    if bytes.len() > 0 && fp(grown.buf) % m == 0 {
        let s2 = seal_state(grown);
        let s20 = seal_state(grown0);
        assert(s2 == FeedState { sealed: st.sealed + s20.sealed, ..s20 }) by {
            assert(s2.sealed =~= st.sealed + s20.sealed);
        }
        if k < bytes.len() {
            let rest = bytes.skip(k as int);
            lemma_feed_sealed_shift(s2, path, rest, m);
            lemma_feed_sealed_shift(s20, path, rest, m);
            let z = feed(FeedState { sealed: Seq::empty(), ..s2 }, path, rest, m);
            assert(FeedState { sealed: Seq::empty(), ..s2 } == FeedState { sealed: Seq::empty(), ..s20 });
            assert(st.sealed + (s20.sealed + z.sealed) =~= st.sealed + s20.sealed + z.sealed);
        } else {
            assert(s2.sealed =~= st.sealed + s20.sealed);
        }
    } else {
        assert(st.sealed + Seq::<Seq<u8>>::empty() =~= st.sealed);
    }
}

/// With keys unique, `lookup` finds what the map view holds.
pub proof fn lemma_lookup_unique<V>(s: Seq<(Seq<char>, V)>, k: Seq<char>)
    requires
        keys_unique(s),
    ensures
        to_map(s).contains_key(k) ==> lookup(s, k) == Some(to_map(s)[k]),
        !to_map(s).contains_key(k) ==> lookup(s, k) is None,
{
    if exists|i: int| 0 <= i < s.len() && #[trigger] s[i].0 == k {
        let i = choose|i: int| 0 <= i < s.len() && #[trigger] s[i].0 == k;
        lemma_to_map_at(s, i);
        assert forall|t: int| 0 <= t < i implies #[trigger] s[t].0 != k by {}
        lemma_lookup_skip(s, k, i);
        assert(s.skip(i)[0] == s[i]);
    } else {
        lemma_to_map_absent(s, k);
        lemma_lookup_skip(s, k, s.len() as int);
    }
}

/// A path whose bytes were streamed resolves to exactly its ranges in the log,
/// the ranges that `lemma_round_trip` reassembles.
pub proof fn lemma_stored_path_resolves(
    ri: RestoreInformation,
    log: Seq<(Seq<char>, int, int, int)>,
    p: Seq<char>,
)
    requires
        ri.wf(),
        to_map(ri.file_pairs()) == files_of(log),
        in_log(log, p),
    ensures
        resolution(ri.file_pairs(), ri.hash_pairs(), ri.dup_pairs(), p) == Some(ranges_of(log, p)),
{
    lemma_lookup_unique(ri.file_pairs(), p);
}

/// Dedup of whole files: a path that was not streamed, whose hash is shared by
/// two paths or more, resolves through its group to the ranges of the first
/// path of the group that was streamed.
pub proof fn lemma_duplicate_path_resolves(
    ri: RestoreInformation,
    log: Seq<(Seq<char>, int, int, int)>,
    hashes: Map<Seq<char>, Seq<char>>,
    groups: Map<Seq<char>, Seq<Seq<char>>>,
    p: Seq<char>,
)
    requires
        ri.wf(),
        to_map(ri.file_pairs()) == files_of(log),
        to_map(ri.hash_pairs()) == hashes,
        to_map(ri.dup_pairs()) == multi(groups),
        !in_log(log, p),
        hashes.contains_key(p),
        groups.contains_key(hashes[p]),
        groups[hashes[p]].len() >= 2,
    ensures
        resolution(ri.file_pairs(), ri.hash_pairs(), ri.dup_pairs(), p) == first_stored(
            ri.file_pairs(),
            groups[hashes[p]],
        ),
{
    lemma_lookup_unique(ri.file_pairs(), p);
    lemma_lookup_unique(ri.hash_pairs(), p);
    lemma_lookup_unique(ri.dup_pairs(), hashes[p]);
}

/// The run state after taking in `files` (path, hash, bytes) in order.
pub open spec fn run(rs: RunState, files: Seq<(Seq<char>, Seq<char>, Seq<u8>)>, m: int) -> RunState
    decreases files.len(),
{
    if files.len() == 0 {
        rs
    } else {
        run(add_step(rs, files[0].0, files[0].1, files[0].2, m), files.drop_first(), m)
    }
}

pub open spec fn empty_run() -> RunState {
    RunState { hashes: Map::empty(), groups: Map::empty(), feed: empty_state() }
}

/// `q` has no range, harvested or open.
pub open spec fn absent(st: FeedState, q: Seq<char>) -> bool {
    &&& !in_log(st.log, q)
    &&& forall|i: int| 0 <= i < st.segs.len() ==> #[trigger] st.segs[i].0 != q
}

proof fn lemma_seal_absent(st: FeedState, q: Seq<char>)
    requires
        absent(st, q),
    ensures
        absent(seal_state(st), q),
{
    let s2 = seal_state(st);
    let t = stamped(st.segs, fp(st.buf));
    if in_log(s2.log, q) {
        let i = choose|i: int| 0 <= i < s2.log.len() && #[trigger] s2.log[i].0 == q;
        if i < st.log.len() {
            assert(s2.log[i] == st.log[i]);
        } else {
            assert(s2.log[i] == t[i - st.log.len()]);
            assert(st.segs[i - st.log.len()].0 != q);
        }
    }
}

proof fn lemma_feed_absent(st: FeedState, path: Seq<char>, bytes: Seq<u8>, m: int, q: Seq<char>)
    requires
        absent(st, q),
        path != q,
    ensures
        absent(feed(st, path, bytes, m), q),
    decreases bytes.len(),
{
    let k = taken(st.buf, bytes, m);
    lemma_taken_bound(st.buf, bytes, m);
    let grown = FeedState {
        log: st.log,
        segs: st.segs.push((path, st.buf.len() as int, (st.buf.len() + k) as int)),
        buf: st.buf + bytes.take(k as int),
        sealed: st.sealed,
    };
    assert forall|i: int| 0 <= i < grown.segs.len() implies #[trigger] grown.segs[i].0 != q by {
        if i < st.segs.len() {
            assert(grown.segs[i] == st.segs[i]);
        }
    }
    if bytes.len() > 0 && fp(grown.buf) % m == 0 {
        lemma_seal_absent(grown, q);
        if k < bytes.len() {
            lemma_feed_absent(seal_state(grown), path, bytes.skip(k as int), m, q);
        }
    }
}

proof fn lemma_run_split(rs: RunState, a: Seq<(Seq<char>, Seq<char>, Seq<u8>)>, b: Seq<(Seq<char>, Seq<char>, Seq<u8>)>, m: int)
    ensures
        run(rs, a + b, m) == run(run(rs, a, m), b, m),
    decreases a.len(),
{
    if a.len() == 0 {
        assert(a + b =~= b);
    } else {
        assert((a + b).drop_first() =~= a.drop_first() + b);
        assert((a + b)[0] == a[0]);
        lemma_run_split(add_step(rs, a[0].0, a[0].1, a[0].2, m), a.drop_first(), b, m);
    }
}

/// Later files keep a path's hash and its place in its group, where the path
/// does not come again.
proof fn lemma_run_keeps(rs: RunState, files: Seq<(Seq<char>, Seq<char>, Seq<u8>)>, m: int, p: Seq<char>, h: Seq<char>)
    requires
        rs.hashes.contains_key(p),
        rs.hashes[p] == h,
        rs.groups.contains_key(h),
        rs.groups[h].contains(p),
        forall|k: int| 0 <= k < files.len() ==> #[trigger] files[k].0 != p,
    ensures
        run(rs, files, m).hashes.contains_key(p),
        run(rs, files, m).hashes[p] == h,
        run(rs, files, m).groups.contains_key(h),
        run(rs, files, m).groups[h].contains(p),
    decreases files.len(),
{
    if files.len() > 0 {
        let r1 = add_step(rs, files[0].0, files[0].1, files[0].2, m);
        assert(files[0].0 != p);
        if files[0].1 == h {
            let i = choose|i: int| 0 <= i < rs.groups[h].len() && rs.groups[h][i] == p;
            assert(r1.groups[h][i] == p);
        }
        assert forall|k: int| 0 <= k < files.drop_first().len() implies #[trigger] files.drop_first()[k].0 != p by {
            assert(files.drop_first()[k] == files[k + 1]);
        }
        lemma_run_keeps(r1, files.drop_first(), m, p, h);
    }
}

/// Later files keep a path without ranges, where the path does not come again
/// (or comes only with a hash already known, which streams nothing).
proof fn lemma_run_absent(rs: RunState, files: Seq<(Seq<char>, Seq<char>, Seq<u8>)>, m: int, q: Seq<char>)
    requires
        absent(rs.feed, q),
        forall|k: int| 0 <= k < files.len() ==> #[trigger] files[k].0 != q,
    ensures
        absent(run(rs, files, m).feed, q),
    decreases files.len(),
{
    if files.len() > 0 {
        let r1 = add_step(rs, files[0].0, files[0].1, files[0].2, m);
        assert(files[0].0 != q);
        if !rs.groups.contains_key(files[0].1) {
            lemma_feed_absent(rs.feed, files[0].0, files[0].2, m, q);
        }
        assert forall|k: int| 0 <= k < files.drop_first().len() implies #[trigger] files.drop_first()[k].0 != q by {
            assert(files.drop_first()[k] == files[k + 1]);
        }
        lemma_run_absent(r1, files.drop_first(), m, q);
    }
}

pub open spec fn run_paths_distinct(files: Seq<(Seq<char>, Seq<char>, Seq<u8>)>) -> bool {
    forall|i: int, j: int| 0 <= i < j < files.len() ==> #[trigger] files[i].0 != #[trigger] files[j].0
}

/// Dedup of whole files: when two files of a run with distinct paths have the
/// same hash, both paths keep that hash and sit in its group (so the group
/// holds two paths or more and is listed among the duplicates), and the later
/// one has no range anywhere, even after the last seal: it is restored
/// through its group.
pub proof fn lemma_whole_file_dedup(files: Seq<(Seq<char>, Seq<char>, Seq<u8>)>, m: int, i: int, j: int)
    requires
        run_paths_distinct(files),
        0 <= i < j < files.len(),
        files[i].1 == files[j].1,
    ensures
        ({
            let fin = run(empty_run(), files, m);
            let h = files[i].1;
            &&& fin.hashes[files[i].0] == h
            &&& fin.hashes[files[j].0] == h
            &&& fin.groups.contains_key(h)
            &&& fin.groups[h].contains(files[i].0)
            &&& fin.groups[h].contains(files[j].0)
            &&& fin.groups[h].len() >= 2
            &&& !in_log(seal_state(fin.feed).log, files[j].0)
        }),
{
    let h = files[i].1;
    let pi = files[i].0;
    let pj = files[j].0;
    let a = files.take(i);
    let b = files.subrange(i, j);
    let c = files.skip(j);
    assert(files =~= a + (b + c));
    lemma_run_split(empty_run(), a, b + c, m);
    let ra = run(empty_run(), a, m);
    lemma_run_split(ra, b, c, m);
    let rb = run(ra, b, m);
    // the file at i records its hash and joins its group
    let ri = add_step(ra, pi, h, files[i].2, m);
    assert(b[0] == files[i]);
    assert(run(ra, b, m) == run(ri, b.drop_first(), m));
    assert(ri.groups[h].contains(pi)) by {
        if ra.groups.contains_key(h) {
            assert(ri.groups[h][ri.groups[h].len() - 1] == pi);
        } else {
            assert(ri.groups[h][0] == pi);
        }
    }
    assert forall|k: int| 0 <= k < b.drop_first().len() implies #[trigger] b.drop_first()[k].0 != pi by {
        assert(b.drop_first()[k] == files[i + 1 + k]);
    }
    lemma_run_keeps(ri, b.drop_first(), m, pi, h);
    // pj has no range before its own turn
    assert(absent(empty_state(), pj));
    assert forall|k: int| 0 <= k < a.len() implies #[trigger] a[k].0 != pj by {
        assert(a[k] == files[k]);
    }
    lemma_run_absent(empty_run(), a, m, pj);
    assert forall|k: int| 0 <= k < b.len() implies #[trigger] b[k].0 != pj by {
        assert(b[k] == files[i + k]);
    }
    lemma_run_absent(ra, b, m, pj);
    // at its turn the hash is known: nothing is streamed
    let rj = add_step(rb, pj, h, files[j].2, m);
    assert(c[0] == files[j]);
    assert(run(rb, c, m) == run(rj, c.drop_first(), m));
    assert(rj.feed == rb.feed);
    assert(rj.groups[h].contains(pj)) by {
        assert(rj.groups[h][rj.groups[h].len() - 1] == pj);
    }
    assert(rj.groups[h].contains(pi)) by {
        let t = choose|t: int| 0 <= t < rb.groups[h].len() && rb.groups[h][t] == pi;
        assert(rj.groups[h][t] == pi);
    }
    assert(rj.hashes[pi] == h);
    assert forall|k: int| 0 <= k < c.drop_first().len() implies #[trigger] c.drop_first()[k].0 != pi && c.drop_first()[k].0 != pj by {
        assert(c.drop_first()[k] == files[j + 1 + k]);
    }
    lemma_run_keeps(rj, c.drop_first(), m, pi, h);
    lemma_run_keeps(rj, c.drop_first(), m, pj, h);
    lemma_run_absent(rj, c.drop_first(), m, pj);
    let fin = run(empty_run(), files, m);
    lemma_seal_absent(fin.feed, pj);
    // two different paths in the group
    let g = fin.groups[h];
    let x = choose|x: int| 0 <= x < g.len() && g[x] == pi;
    let y = choose|y: int| 0 <= y < g.len() && g[y] == pj;
    assert(x != y);
}

/// Same contents in the same order: the hashes and bytes agree file by file;
/// the paths may differ.
pub open spec fn same_contents(
    f1: Seq<(Seq<char>, Seq<char>, Seq<u8>)>,
    f2: Seq<(Seq<char>, Seq<char>, Seq<u8>)>,
) -> bool {
    &&& f1.len() == f2.len()
    &&& forall|k: int| 0 <= k < f1.len() ==> #[trigger] f1[k].1 == f2[k].1 && f1[k].2 == f2[k].2
}

proof fn lemma_run_content_defined_from(
    r1: RunState,
    r2: RunState,
    f1: Seq<(Seq<char>, Seq<char>, Seq<u8>)>,
    f2: Seq<(Seq<char>, Seq<char>, Seq<u8>)>,
    m: int,
)
    requires
        same_contents(f1, f2),
        r1.groups.dom() == r2.groups.dom(),
        r1.feed.buf == r2.feed.buf,
        r1.feed.sealed == r2.feed.sealed,
    ensures
        run(r1, f1, m).feed.sealed == run(r2, f2, m).feed.sealed,
        run(r1, f1, m).feed.buf == run(r2, f2, m).feed.buf,
        run(r1, f1, m).groups.dom() == run(r2, f2, m).groups.dom(),
    decreases f1.len(),
{
    if f1.len() > 0 {
        assert(f1[0].1 == f2[0].1 && f1[0].2 == f2[0].2);
        let h = f1[0].1;
        let s1 = add_step(r1, f1[0].0, h, f1[0].2, m);
        let s2 = add_step(r2, f2[0].0, h, f2[0].2, m);
        assert(r1.groups.contains_key(h) == r2.groups.contains_key(h));
        if !r1.groups.contains_key(h) {
            lemma_boundaries_content_defined(r1.feed, r2.feed, f1[0].0, f2[0].0, f1[0].2, m);
        }
        assert(s1.groups.dom() =~= s2.groups.dom());
        assert forall|k: int| 0 <= k < f1.drop_first().len() implies #[trigger] f1.drop_first()[k].1
            == f2.drop_first()[k].1 && f1.drop_first()[k].2 == f2.drop_first()[k].2 by {
            assert(f1.drop_first()[k] == f1[k + 1] && f2.drop_first()[k] == f2[k + 1]);
        }
        lemma_run_content_defined_from(s1, s2, f1.drop_first(), f2.drop_first(), m);
    }
}

/// Reproducible chunks: two runs from scratch over files with the same hashes
/// and bytes in the same order seal the same chunks, so they store the same
/// blobs under the same names, whatever the paths are called.
pub proof fn lemma_run_content_defined(
    f1: Seq<(Seq<char>, Seq<char>, Seq<u8>)>,
    f2: Seq<(Seq<char>, Seq<char>, Seq<u8>)>,
    m: int,
)
    requires
        same_contents(f1, f2),
    ensures
        seal_state(run(empty_run(), f1, m).feed).sealed == seal_state(run(empty_run(), f2, m).feed).sealed,
{
    lemma_run_content_defined_from(empty_run(), empty_run(), f1, f2, m);
}

/// Reassembling from stored frames: where each frame decodes to the chunk
/// its range names, `reassemble` gives exactly what the log reassembles for
/// the path, which `lemma_round_trip` shows is the file's bytes.
pub proof fn lemma_reassemble_restores(
    log: Seq<(Seq<char>, int, int, int)>,
    sealed: Seq<Seq<u8>>,
    p: Seq<char>,
    frames: Seq<Seq<u8>>,
)
    requires
        refs_ok(FeedState { log, segs: Seq::empty(), buf: Seq::empty(), sealed }),
        frames.len() == ranges_of(log, p).len(),
        forall|i: int|
            0 <= i < frames.len() ==> snappy_unframe_of(#[trigger] frames[i]) == chunk_of(
                sealed,
                ranges_of(log, p)[i].0,
            ),
    ensures
        decoded_all(ranges_of(log, p), frames) == Ok::<Seq<u8>, crate::manifest::ArchiveError>(
            restored_log(log, sealed, p),
        ),
    decreases log.len(),
{
    let st = FeedState { log, segs: Seq::empty(), buf: Seq::empty(), sealed };
    if log.len() > 0 {
        let d = log.drop_last();
        let e = log.last();
        assert(log[log.len() - 1] == e);
        let std = FeedState { log: d, segs: Seq::empty(), buf: Seq::empty(), sealed };
        assert forall|i: int| 0 <= i < d.len() implies {
            let x = #[trigger] d[i];
            &&& chunk_of(sealed, x.1) is Some
            &&& 0 <= x.2 <= x.3 <= chunk_of(sealed, x.1)->Some_0.len()
        } by {
            assert(d[i] == log[i]);
        }
        assert(refs_ok(std));
        let rs = ranges_of(log, p);
        if e.0 == p {
            let fd = frames.drop_last();
            assert(rs.drop_last() =~= ranges_of(d, p));
            assert forall|i: int| 0 <= i < fd.len() implies snappy_unframe_of(#[trigger] fd[i]) == chunk_of(
                sealed,
                ranges_of(d, p)[i].0,
            ) by {
                assert(fd[i] == frames[i]);
                assert(rs[i] == ranges_of(d, p)[i]);
            }
            lemma_reassemble_restores(d, sealed, p, fd);
            assert(frames[frames.len() - 1] == frames.last());
            assert(rs.last() == (e.1, e.2, e.3));
        } else {
            lemma_reassemble_restores(d, sealed, p, frames);
        }
    } else {
        assert(ranges_of(log, p).len() == 0);
    }
}

} // verus!
