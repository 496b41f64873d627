use crate::chunker::{normalize_path, normalized, ChunkSegment, Chunker};
use crate::index::{keys_unique, lemma_to_map_absent, lemma_to_map_at, lemma_to_map_update, to_map};
use vstd::prelude::*;

verus! {

/// Bytes `[start, end)` of the decompressed chunk `chunk_id`.
#[derive(Debug, Clone, Copy, PartialEq, Eq)]
pub struct ByteRange {
    pub chunk_id: u64,
    pub start: u64,
    pub end: u64,
}

impl View for ByteRange {
    type V = (int, int, int);

    open spec fn view(&self) -> (int, int, int) {
        (self.chunk_id as int, self.start as int, self.end as int)
    }
}

/// The ranges that reassemble one file, in order.
#[derive(Debug, Clone)]
pub struct FileEntry {
    pub path: String,
    pub ranges: Vec<ByteRange>,
}

/// The record that restoring reads: how to reassemble each stored file,
/// the whole-file hash of every path, and the groups of paths with equal
/// contents.
#[derive(Debug, Clone)]
pub struct RestoreInformation {
    pub files: Vec<FileEntry>,
    pub hashes: Vec<(String, String)>,
    pub duplicates: Vec<(String, Vec<String>)>,
}

/// Why archiving or restoring failed.
#[derive(Debug, Clone, PartialEq, Eq)]
pub enum ArchiveError {
    IoFailed,
    ManifestMalformed,
    UnknownPath,
    CompressionFailed,
}

pub open spec fn ranges_view(v: Seq<ByteRange>) -> Seq<(int, int, int)> {
    v.map_values(|r: ByteRange| r@)
}

/// The ranges of `p` in a segment log, in log order.
pub open spec fn ranges_of(log: Seq<(Seq<char>, int, int, int)>, p: Seq<char>) -> Seq<(int, int, int)>
    decreases log.len(),
{
    if log.len() == 0 {
        Seq::empty()
    } else {
        let r = ranges_of(log.drop_last(), p);
        if log.last().0 == p {
            r.push((log.last().1, log.last().2, log.last().3))
        } else {
            r
        }
    }
}

pub open spec fn in_log(log: Seq<(Seq<char>, int, int, int)>, p: Seq<char>) -> bool {
    exists|i: int| 0 <= i < log.len() && #[trigger] log[i].0 == p
}

/// The per-file ranges that a segment log describes.
pub open spec fn files_of(log: Seq<(Seq<char>, int, int, int)>) -> Map<Seq<char>, Seq<(int, int, int)>> {
    Map::new(|p: Seq<char>| in_log(log, p), |p: Seq<char>| ranges_of(log, p))
}

/// The groups that hold two paths or more.
pub open spec fn multi(g: Map<Seq<char>, Seq<Seq<char>>>) -> Map<Seq<char>, Seq<Seq<char>>> {
    Map::new(|h: Seq<char>| g.contains_key(h) && g[h].len() >= 2, |h: Seq<char>| g[h])
}

/// The first value stored under `k`.
pub open spec fn lookup<V>(s: Seq<(Seq<char>, V)>, k: Seq<char>) -> Option<V>
    decreases s.len(),
{
    if s.len() == 0 {
        None
    } else if s[0].0 == k {
        Some(s[0].1)
    } else {
        lookup(s.drop_first(), k)
    }
}

/// The ranges of the first path in `paths` that has an entry in `files`.
pub open spec fn first_stored(
    files: Seq<(Seq<char>, Seq<(int, int, int)>)>,
    paths: Seq<Seq<char>>,
) -> Option<Seq<(int, int, int)>>
    decreases paths.len(),
{
    if paths.len() == 0 {
        None
    } else if lookup(files, paths[0]) is Some {
        lookup(files, paths[0])
    } else {
        first_stored(files, paths.drop_first())
    }
}

/// What restoring `p` reassembles from: its own entry, or else the entry of
/// the first path in its duplicate group that has one.
pub open spec fn resolution(
    files: Seq<(Seq<char>, Seq<(int, int, int)>)>,
    hashes: Seq<(Seq<char>, Seq<char>)>,
    dups: Seq<(Seq<char>, Seq<Seq<char>>)>,
    p: Seq<char>,
) -> Option<Seq<(int, int, int)>> {
    match lookup(files, p) {
        Some(r) => Some(r),
        None => match lookup(hashes, p) {
            None => None,
            Some(h) => match lookup(dups, h) {
                None => None,
                Some(paths) => first_stored(files, paths),
            },
        },
    }
}

impl RestoreInformation {
    pub open spec fn file_pairs(&self) -> Seq<(Seq<char>, Seq<(int, int, int)>)> {
        self.files@.map_values(|e: FileEntry| (e.path@, ranges_view(e.ranges@)))
    }

    pub open spec fn hash_pairs(&self) -> Seq<(Seq<char>, Seq<char>)> {
        self.hashes@.map_values(|e: (String, String)| (e.0@, e.1@))
    }

    pub open spec fn dup_pairs(&self) -> Seq<(Seq<char>, Seq<Seq<char>>)> {
        self.duplicates@.map_values(
            |e: (String, Vec<String>)| (e.0@, e.1@.map_values(|p: String| p@)),
        )
    }

    /// Each of the three tables names a key once.
    pub open spec fn wf(&self) -> bool {
        &&& keys_unique(self.file_pairs())
        &&& keys_unique(self.hash_pairs())
        &&& keys_unique(self.dup_pairs())
    }
}

/// Groups a segment log by path, paths in order of first appearance.
fn group_segments(log: &Vec<ChunkSegment>) -> (files: Vec<FileEntry>)
    ensures
        ({
            let pairs = files@.map_values(|e: FileEntry| (e.path@, ranges_view(e.ranges@)));
            &&& keys_unique(pairs)
            &&& to_map(pairs) == files_of(log@.map_values(|s: ChunkSegment| s@))
        }),
{
    let ghost lv = log@.map_values(|s: ChunkSegment| s@);
    let mut files: Vec<FileEntry> = Vec::new();
    let n = log.len();
    let mut i: usize = 0;
    assert(to_map(files@.map_values(|e: FileEntry| (e.path@, ranges_view(e.ranges@)))) =~= files_of(lv.take(0)));
    while i < n
        invariant
            0 <= i <= n,
            n == log@.len(),
            lv == log@.map_values(|s: ChunkSegment| s@),
            keys_unique(files@.map_values(|e: FileEntry| (e.path@, ranges_view(e.ranges@)))),
            to_map(files@.map_values(|e: FileEntry| (e.path@, ranges_view(e.ranges@)))) == files_of(lv.take(i as int)),
        decreases n - i,
    {
        let seg = &log[i];
        let r = ByteRange { chunk_id: seg.chunk_id, start: seg.start, end: seg.end };
        let ghost before = files@.map_values(|e: FileEntry| (e.path@, ranges_view(e.ranges@)));
        let ghost li = lv.take(i as int);
        let ghost li1 = lv.take(i + 1);
        proof {
            assert(li1.drop_last() =~= li);
            assert(li1.last() == seg@);
            assert forall|q: Seq<char>| #[trigger] in_log(li1, q) == (in_log(li, q) || q == seg.path@) by {
                if in_log(li1, q) {
                    let j = choose|j: int| 0 <= j < li1.len() && #[trigger] li1[j].0 == q;
                    if j < li.len() {
                        assert(li[j] == li1[j]);
                    }
                }
                if in_log(li, q) {
                    let j = choose|j: int| 0 <= j < li.len() && #[trigger] li[j].0 == q;
                    assert(li1[j] == li[j]);
                }
                if q == seg.path@ {
                    assert(li1[i as int].0 == q);
                }
            }
        }
        let m = files.len();
        let mut j: usize = 0;
        let mut found = false;
        while j < m && !found
            invariant
                0 <= j <= m,
                m == files@.len(),
                before == files@.map_values(|e: FileEntry| (e.path@, ranges_view(e.ranges@))),
                found ==> j < m && before[j as int].0 == seg.path@,
                !found ==> forall|t: int| 0 <= t < j ==> #[trigger] before[t].0 != seg.path@,
            decreases m - j + if found { 0int } else { 1int },
        {
            if files[j].path == seg.path {
                found = true;
            } else {
                j = j + 1;
            }
        }
        if found {
            let mut entry = files.remove(j);
            let ghost r0 = ranges_view(entry.ranges@);
            entry.ranges.push(r);
            let ghost nr = ranges_view(entry.ranges@);
            proof {
                assert(nr =~= r0.push(r@));
                assert(before[j as int].0 == seg.path@);
                lemma_to_map_at(before, j as int);
                lemma_to_map_update(before, j as int, nr);
            }
            files.insert(j, entry);
            proof {
                let after = files@.map_values(|e: FileEntry| (e.path@, ranges_view(e.ranges@)));
                assert(after =~= before.update(j as int, (before[j as int].0, nr)));
                assert(to_map(after) =~= files_of(li1));
            }
        } else {
            proof {
                assert(forall|t: int| 0 <= t < before.len() ==> #[trigger] before[t].0 != seg.path@);
                lemma_to_map_absent(before, seg.path@);
                lemma_ranges_absent(li, seg.path@);
            }
            let mut rs: Vec<ByteRange> = Vec::new();
            rs.push(r);
            let e = FileEntry { path: seg.path.clone(), ranges: rs };
            proof {
                assert(ranges_view(e.ranges@) =~= seq![r@]);
            }
            files.push(e);
            proof {
                let after = files@.map_values(|e: FileEntry| (e.path@, ranges_view(e.ranges@)));
                assert(after =~= before.push((seg.path@, seq![r@])));
                assert(after.drop_last() =~= before);
                assert forall|t: int| 0 <= t < before.len() implies #[trigger] before[t].0 != seg.path@ by {}
                assert(keys_unique(after));
                assert(to_map(after) =~= files_of(li1));
            }
        }
        i = i + 1;
    }
    assert(lv.take(n as int) =~= lv);
    files
}

/// A path that does not occur in a log has no ranges there.
pub proof fn lemma_ranges_absent(log: Seq<(Seq<char>, int, int, int)>, p: Seq<char>)
    requires
        !in_log(log, p),
    ensures
        ranges_of(log, p) == Seq::<(int, int, int)>::empty(),
    decreases log.len(),
{
    if log.len() > 0 {
        let d = log.drop_last();
        assert(!in_log(d, p)) by {
            if in_log(d, p) {
                let j = choose|j: int| 0 <= j < d.len() && #[trigger] d[j].0 == p;
                assert(log[j] == d[j]);
            }
        }
        lemma_ranges_absent(d, p);
        assert(log[log.len() - 1].0 != p);
    }
}

pub open spec fn paths_view(v: Seq<String>) -> Seq<Seq<char>> {
    v.map_values(|p: String| p@)
}

pub open spec fn string_pairs(v: Seq<(String, String)>) -> Seq<(Seq<char>, Seq<char>)> {
    v.map_values(|e: (String, String)| (e.0@, e.1@))
}

pub open spec fn group_pairs(v: Seq<(String, Vec<String>)>) -> Seq<(Seq<char>, Seq<Seq<char>>)> {
    v.map_values(|e: (String, Vec<String>)| (e.0@, paths_view(e.1@)))
}

fn clone_paths(v: &Vec<String>) -> (r: Vec<String>)
    ensures
        paths_view(r@) == paths_view(v@),
{
    let mut r: Vec<String> = Vec::new();
    let mut i: usize = 0;
    while i < v.len()
        invariant
            0 <= i <= v@.len(),
            paths_view(r@) == paths_view(v@.take(i as int)),
        decreases v@.len() - i,
    {
        let c = v[i].clone();
        let ghost prev = r@;
        r.push(c);
        proof {
            assert(v@.take(i + 1) =~= v@.take(i as int).push(v@[i as int]));
            assert(r@ =~= prev.push(v@[i as int]));
            assert(paths_view(r@) =~= paths_view(prev).push(v@[i as int]@));
            assert(paths_view(v@.take(i + 1)) =~= paths_view(v@.take(i as int)).push(v@[i as int]@));
        }
        i = i + 1;
    }
    assert(v@.take(i as int) =~= v@);
    r
}

fn clone_string_pairs(v: &Vec<(String, String)>) -> (r: Vec<(String, String)>)
    ensures
        string_pairs(r@) == string_pairs(v@),
{
    let mut r: Vec<(String, String)> = Vec::new();
    let mut i: usize = 0;
    while i < v.len()
        invariant
            0 <= i <= v@.len(),
            string_pairs(r@) == string_pairs(v@.take(i as int)),
        decreases v@.len() - i,
    {
        let c = (v[i].0.clone(), v[i].1.clone());
        let ghost prev = r@;
        r.push(c);
        proof {
            assert(v@.take(i + 1) =~= v@.take(i as int).push(v@[i as int]));
            assert(r@ =~= prev.push(v@[i as int]));
            let x = v@[i as int];
            assert(string_pairs(r@) =~= string_pairs(prev).push((x.0@, x.1@)));
            assert(string_pairs(v@.take(i + 1)) =~= string_pairs(v@.take(i as int)).push((x.0@, x.1@)));
        }
        i = i + 1;
    }
    assert(v@.take(i as int) =~= v@);
    r
}

/// The groups of two paths or more, in their order.
fn multi_groups(v: &Vec<(String, Vec<String>)>) -> (r: Vec<(String, Vec<String>)>)
    requires
        keys_unique(group_pairs(v@)),
    ensures
        keys_unique(group_pairs(r@)),
        to_map(group_pairs(r@)) == multi(to_map(group_pairs(v@))),
{
    let ghost gv = group_pairs(v@);
    let mut r: Vec<(String, Vec<String>)> = Vec::new();
    let mut i: usize = 0;
    assert(to_map(group_pairs(r@)) =~= multi(to_map(gv.take(0))));
    while i < v.len()
        invariant
            0 <= i <= v@.len(),
            gv == group_pairs(v@),
            keys_unique(gv),
            keys_unique(group_pairs(r@)),
            to_map(group_pairs(r@)) == multi(to_map(gv.take(i as int))),
        decreases v@.len() - i,
    {
        let ghost before = group_pairs(r@);
        let ghost k = gv[i as int].0;
        proof {
            assert(gv.take(i + 1).drop_last() =~= gv.take(i as int));
            assert forall|t: int| 0 <= t < i implies #[trigger] gv.take(i as int)[t].0 != k by {
                assert(gv.take(i as int)[t] == gv[t]);
            }
            lemma_to_map_absent(gv.take(i as int), k);
        }
        if v[i].1.len() >= 2 {
            let ps = clone_paths(&v[i].1);
            r.push((v[i].0.clone(), ps));
            proof {
                assert forall|t: int| 0 <= t < before.len() implies #[trigger] before[t].0 != k by {
                    lemma_to_map_at(before, t);
                }
                let after = group_pairs(r@);
                assert(after =~= before.push(gv[i as int]));
                assert(after.drop_last() =~= before);
                assert(keys_unique(after));
                assert(to_map(after) =~= multi(to_map(gv.take(i + 1))));
            }
        } else {
            assert(to_map(before) =~= multi(to_map(gv.take(i + 1))));
        }
        i = i + 1;
    }
    assert(gv.take(i as int) =~= gv);
    r
}

impl Chunker {
    /// The record to persist: the ranges of each stored file, in log order,
    /// the hash of every path, and the groups of two paths or more.
    pub fn restore_info(&self) -> (ri: RestoreInformation)
        requires
            self.wf(),
        ensures
            ri.wf(),
            to_map(ri.file_pairs()) == files_of(self.log()),
            to_map(ri.hash_pairs()) == self.hashes(),
            to_map(ri.dup_pairs()) == multi(self.groups()),
    {
        let files = group_segments(&self.segments);
        let hashes = clone_string_pairs(&self.path_to_hash_map);
        assert(group_pairs(self.hash_to_path_map@) =~= self.group_pairs());
        let duplicates = multi_groups(&self.hash_to_path_map);
        let ri = RestoreInformation { files, hashes, duplicates };
        assert(ri.file_pairs() =~= files@.map_values(|e: FileEntry| (e.path@, ranges_view(e.ranges@))));
        assert(ri.hash_pairs() =~= self.hash_pairs());
        assert(ri.dup_pairs() =~= group_pairs(ri.duplicates@));
        ri
    }
}

/// Skipping keys other than `k` does not change what `lookup` finds.
pub proof fn lemma_lookup_skip<V>(s: Seq<(Seq<char>, V)>, k: Seq<char>, i: int)
    requires
        0 <= i <= s.len(),
        forall|t: int| 0 <= t < i ==> #[trigger] s[t].0 != k,
    ensures
        lookup(s, k) == lookup(s.skip(i), k),
    decreases i,
{
    if i == 0 {
        assert(s.skip(0) =~= s);
    } else {
        let d = s.drop_first();
        assert forall|t: int| 0 <= t < i - 1 implies #[trigger] d[t].0 != k by {
            assert(d[t] == s[t + 1]);
        }
        lemma_lookup_skip(d, k, i - 1);
        assert(d.skip(i - 1) =~= s.skip(i));
    }
}

/// Index of the first pair whose key is `k`.
fn find_key<V>(v: &Vec<(String, V)>, k: &String) -> (r: Option<usize>)
    ensures
        match r {
            Some(i) => i < v@.len() && v@[i as int].0@ == k@ && forall|t: int|
                0 <= t < i ==> #[trigger] v@[t].0@ != k@,
            None => forall|t: int| 0 <= t < v@.len() ==> #[trigger] v@[t].0@ != k@,
        },
{
    let mut i: usize = 0;
    while i < v.len()
        invariant
            0 <= i <= v@.len(),
            forall|t: int| 0 <= t < i ==> #[trigger] v@[t].0@ != k@,
        decreases v@.len() - i,
    {
        if v[i].0 == *k {
            return Some(i);
        }
        i = i + 1;
    }
    None
}

/// Index of the first file entry for `k`.
fn find_file(v: &Vec<FileEntry>, k: &String) -> (r: Option<usize>)
    ensures
        match r {
            Some(i) => i < v@.len() && v@[i as int].path@ == k@ && forall|t: int|
                0 <= t < i ==> #[trigger] v@[t].path@ != k@,
            None => forall|t: int| 0 <= t < v@.len() ==> #[trigger] v@[t].path@ != k@,
        },
{
    let mut i: usize = 0;
    while i < v.len()
        invariant
            0 <= i <= v@.len(),
            forall|t: int| 0 <= t < i ==> #[trigger] v@[t].path@ != k@,
        decreases v@.len() - i,
    {
        if v[i].path == *k {
            return Some(i);
        }
        i = i + 1;
    }
    None
}

fn copy_ranges(v: &Vec<ByteRange>) -> (r: Vec<ByteRange>)
    ensures
        r@ == v@,
{
    let mut r: Vec<ByteRange> = Vec::new();
    let mut i: usize = 0;
    while i < v.len()
        invariant
            0 <= i <= v@.len(),
            r@ == v@.take(i as int),
        decreases v@.len() - i,
    {
        r.push(v[i]);
        i = i + 1;
        assert(r@ =~= v@.take(i as int));
    }
    assert(v@.take(i as int) =~= v@);
    r
}

impl RestoreInformation {
    /// Where `files` holds `k`, the ranges it gives for it.
    fn file_ranges(&self, k: &String) -> (r: Option<Vec<ByteRange>>)
        ensures
            match r {
                Some(v) => lookup(self.file_pairs(), k@) == Some(ranges_view(v@)),
                None => lookup(self.file_pairs(), k@) is None,
            },
    {
        let ghost fp = self.file_pairs();
        match find_file(&self.files, k) {
            Some(i) => {
                proof {
                    assert forall|t: int| 0 <= t < i implies #[trigger] fp[t].0 != k@ by {
                        assert(fp[t].0 == self.files@[t].path@);
                    }
                    lemma_lookup_skip(fp, k@, i as int);
                    assert(fp.skip(i as int)[0] == fp[i as int]);
                }
                Some(copy_ranges(&self.files[i].ranges))
            },
            None => {
                proof {
                    assert forall|t: int| 0 <= t < fp.len() implies #[trigger] fp[t].0 != k@ by {
                        assert(fp[t].0 == self.files@[t].path@);
                    }
                    lemma_lookup_skip(fp, k@, fp.len() as int);
                }
                None
            },
        }
    }

    /// The ranges to reassemble `filename` from: its own entry in `files`,
    /// or else that of the first path of its duplicate group that has one.
    pub fn resolve(&self, filename: &str) -> (r: Result<Vec<ByteRange>, ArchiveError>)
        ensures
            match resolution(
                self.file_pairs(),
                self.hash_pairs(),
                self.dup_pairs(),
                normalized(filename@),
            ) {
                Some(rs) => r is Ok && ranges_view(r->Ok_0@) == rs,
                None => r == Err::<Vec<ByteRange>, ArchiveError>(ArchiveError::UnknownPath),
            },
    {
        let p = normalize_path(filename);
        if let Some(v) = self.file_ranges(&p) {
            return Ok(v);
        }
        let ghost hp = self.hash_pairs();
        let hi = find_key(&self.hashes, &p);
        proof {
            let n: int = match hi { Some(i) => i as int, None => hp.len() as int };
            assert forall|t: int| 0 <= t < n implies #[trigger] hp[t].0 != p@ by {
                assert(hp[t].0 == self.hashes@[t].0@);
            }
            lemma_lookup_skip(hp, p@, n);
            if n < hp.len() {
                assert(hp.skip(n)[0] == hp[n]);
            }
        }
        let hi = match hi {
            Some(i) => i,
            None => { return Err(ArchiveError::UnknownPath); },
        };
        let h = &self.hashes[hi].1;
        let ghost dp = self.dup_pairs();
        let di = find_key(&self.duplicates, h);
        proof {
            let n: int = match di { Some(i) => i as int, None => dp.len() as int };
            assert forall|t: int| 0 <= t < n implies #[trigger] dp[t].0 != h@ by {
                assert(dp[t].0 == self.duplicates@[t].0@);
            }
            lemma_lookup_skip(dp, h@, n);
            if n < dp.len() {
                assert(dp.skip(n)[0] == dp[n]);
            }
        }
        let di = match di {
            Some(i) => i,
            None => { return Err(ArchiveError::UnknownPath); },
        };
        let paths = &self.duplicates[di].1;
        let ghost pv = paths_view(paths@);
        assert(dp[di as int].1 == pv);
        assert(lookup(hp, p@) == Some(h@));
        assert(lookup(dp, h@) == Some(pv));
        let mut j: usize = 0;
        assert(pv.skip(0) =~= pv);
        while j < paths.len()
            invariant
                0 <= j <= paths@.len(),
                pv == paths_view(paths@),
                p@ == normalized(filename@),
                lookup(self.file_pairs(), p@) is None,
                lookup(self.hash_pairs(), p@) == Some(h@),
                lookup(self.dup_pairs(), h@) == Some(pv),
                first_stored(self.file_pairs(), pv) == first_stored(self.file_pairs(), pv.skip(j as int)),
            decreases paths@.len() - j,
        {
            let ghost rest = pv.skip(j as int);
            assert(rest[0] == paths@[j as int]@);
            if let Some(v) = self.file_ranges(&paths[j]) {
                assert(rest.len() > 0);
                assert(first_stored(self.file_pairs(), rest) == Some(ranges_view(v@)));
                assert(resolution(self.file_pairs(), self.hash_pairs(), self.dup_pairs(), p@) == first_stored(self.file_pairs(), pv));
                return Ok(v);
            }
            assert(rest.drop_first() =~= pv.skip(j + 1));
            j = j + 1;
        }
        Err(ArchiveError::UnknownPath)
    }
}

/// The name of what snap's frame decoder reads out of `b`: the payload, or
/// nothing where `b` is no valid frame stream.
pub uninterp spec fn snappy_unframe_of(b: Seq<u8>) -> Option<Seq<u8>>;

/// The name of the frame stream that snap's frame encoder writes for `b`.
pub uninterp spec fn snappy_frame_of(b: Seq<u8>) -> Seq<u8>;

/// Relies on snap::write::FrameEncoder writing into a `Vec`: the framed
/// Snappy stream of the bytes, which the frame decoder reads back as those
/// bytes. Writing into a `Vec` and compressing blocks of at most 64 KiB never
/// fail, so neither result is an error.
#[verifier::external_body]
fn snappy_frame(bytes: &Vec<u8>) -> (r: Vec<u8>)
    ensures
        r@ == snappy_frame_of(bytes@),
        snappy_unframe_of(r@) == Some(bytes@),
{
    let mut enc = snap::write::FrameEncoder::new(Vec::new());
    std::io::Write::write_all(&mut enc, bytes.as_slice()).expect("writing into a Vec");
    enc.into_inner().expect("flushing into a Vec")
}

/// Relies on snap::read::FrameDecoder: the payload of a framed Snappy stream,
/// or nothing where the stream is malformed.
#[verifier::external_body]
fn snappy_unframe(frame: &Vec<u8>) -> (r: Option<Vec<u8>>)
    ensures
        match r {
            Some(v) => snappy_unframe_of(frame@) == Some(v@),
            None => snappy_unframe_of(frame@) is None,
        },
{
    let mut out: Vec<u8> = Vec::new();
    let mut dec = snap::read::FrameDecoder::new(frame.as_slice());
    match std::io::Read::read_to_end(&mut dec, &mut out) {
        Ok(_) => Some(out),
        Err(_) => None,
    }
}

/// The stored form of a chunk: its bytes in a framed Snappy stream, which
/// decodes back to them.
pub fn encode_blob(bytes: &Vec<u8>) -> (r: Vec<u8>)
    ensures
        r@ == snappy_frame_of(bytes@),
        snappy_unframe_of(r@) == Some(bytes@),
{
    snappy_frame(bytes)
}

/// Bytes `[start, end)` of a chunk's payload.
pub fn slice_range(payload: &Vec<u8>, start: u64, end: u64) -> (r: Result<Vec<u8>, ArchiveError>)
    ensures
        start <= end <= payload@.len() ==> r is Ok && r->Ok_0@ == payload@.subrange(
            start as int,
            end as int,
        ),
        !(start <= end <= payload@.len()) ==> r == Err::<Vec<u8>, ArchiveError>(
            ArchiveError::ManifestMalformed,
        ),
{
    if start > end || end > payload.len() as u64 {
        return Err(ArchiveError::ManifestMalformed);
    }
    let mut out: Vec<u8> = Vec::new();
    let mut i: usize = start as usize;
    while i < end as usize
        invariant
            start <= i <= end <= payload@.len(),
            out@ == payload@.subrange(start as int, i as int),
        decreases end - i,
    {
        out.push(payload[i]);
        i = i + 1;
        assert(out@ =~= payload@.subrange(start as int, i as int));
    }
    Ok(out)
}

/// Bytes `[start, end)` of the payload held in a stored chunk.
pub fn decode_range(frame: &Vec<u8>, start: u64, end: u64) -> (r: Result<Vec<u8>, ArchiveError>)
    ensures
        match snappy_unframe_of(frame@) {
            None => r == Err::<Vec<u8>, ArchiveError>(ArchiveError::CompressionFailed),
            Some(p) => if start <= end <= p.len() {
                r is Ok && r->Ok_0@ == p.subrange(start as int, end as int)
            } else {
                r == Err::<Vec<u8>, ArchiveError>(ArchiveError::ManifestMalformed)
            },
        },
{
    match snappy_unframe(frame) {
        None => Err(ArchiveError::CompressionFailed),
        Some(p) => slice_range(&p, start, end),
    }
}

/// Decoding each frame and cutting its range out, left to right, and joining
/// the pieces; the first frame that fails decides the error.
pub open spec fn decoded_all(ranges: Seq<(int, int, int)>, frames: Seq<Seq<u8>>) -> Result<Seq<u8>, ArchiveError>
    decreases ranges.len(),
{
    if ranges.len() != frames.len() {
        Err(ArchiveError::ManifestMalformed)
    } else if ranges.len() == 0 {
        Ok(Seq::empty())
    } else {
        match decoded_all(ranges.drop_last(), frames.drop_last()) {
            Err(e) => Err(e),
            Ok(prev) => match snappy_unframe_of(frames.last()) {
                None => Err(ArchiveError::CompressionFailed),
                Some(p) => {
                    let r = ranges.last();
                    if 0 <= r.1 <= r.2 <= p.len() {
                        Ok(prev + p.subrange(r.1, r.2))
                    } else {
                        Err(ArchiveError::ManifestMalformed)
                    }
                },
            },
        }
    }
}

pub open spec fn frames_view(frames: Seq<Vec<u8>>) -> Seq<Seq<u8>> {
    frames.map_values(|f: Vec<u8>| f@)
}

/// Rebuilds a file from its ranges, `frames[i]` being the stored chunk that
/// `ranges[i]` names.
pub fn reassemble(ranges: &Vec<ByteRange>, frames: &Vec<Vec<u8>>) -> (r: Result<Vec<u8>, ArchiveError>)
    ensures
        match decoded_all(ranges_view(ranges@), frames_view(frames@)) {
            Ok(b) => r is Ok && r->Ok_0@ == b,
            Err(e) => r == Err::<Vec<u8>, ArchiveError>(e),
        },
{
    let ghost rv = ranges_view(ranges@);
    let ghost fv = frames_view(frames@);
    if ranges.len() != frames.len() {
        return Err(ArchiveError::ManifestMalformed);
    }
    let mut out: Vec<u8> = Vec::new();
    let mut i: usize = 0;
    assert(rv.take(0) =~= Seq::<(int, int, int)>::empty());
    assert(fv.take(0) =~= Seq::<Seq<u8>>::empty());
    while i < ranges.len()
        invariant
            0 <= i <= ranges@.len(),
            ranges@.len() == frames@.len(),
            rv == ranges_view(ranges@),
            fv == frames_view(frames@),
            decoded_all(rv.take(i as int), fv.take(i as int)) == Ok::<Seq<u8>, ArchiveError>(out@),
        decreases ranges@.len() - i,
    {
        let rg = ranges[i];
        proof {
            assert(rv.take(i + 1).drop_last() =~= rv.take(i as int));
            assert(fv.take(i + 1).drop_last() =~= fv.take(i as int));
            assert(rv.take(i + 1).last() == rg@);
            assert(fv.take(i + 1).last() == frames@[i as int]@);
        }
        let piece = decode_range(&frames[i], rg.start, rg.end);
        match piece {
            Err(e) => {
                proof {
                    lemma_decoded_err_stays(rv, fv, i as int + 1, e);
                }
                return Err(e);
            },
            Ok(b) => {
                let ghost prev = out@;
                let mut j: usize = 0;
                while j < b.len()
                    invariant
                        0 <= j <= b@.len(),
                        out@ == prev + b@.take(j as int),
                    decreases b@.len() - j,
                {
                    out.push(b[j]);
                    j = j + 1;
                    assert(out@ =~= prev + b@.take(j as int));
                }
                assert(b@.take(j as int) =~= b@);
            },
        }
        i = i + 1;
    }
    assert(rv.take(i as int) =~= rv);
    assert(fv.take(i as int) =~= fv);
    Ok(out)
}

/// Once decoding a prefix fails, decoding the whole fails the same way.
proof fn lemma_decoded_err_stays(rv: Seq<(int, int, int)>, fv: Seq<Seq<u8>>, n: int, e: ArchiveError)
    requires
        rv.len() == fv.len(),
        0 <= n <= rv.len(),
        decoded_all(rv.take(n), fv.take(n)) == Err::<Seq<u8>, ArchiveError>(e),
    ensures
        decoded_all(rv, fv) == Err::<Seq<u8>, ArchiveError>(e),
    decreases rv.len() - n,
{
    if n < rv.len() {
        assert(rv.take(n + 1).drop_last() =~= rv.take(n));
        assert(fv.take(n + 1).drop_last() =~= fv.take(n));
        lemma_decoded_err_stays(rv, fv, n + 1, e);
    } else {
        assert(rv.take(n) =~= rv);
        assert(fv.take(n) =~= fv);
    }
}

} // verus!
