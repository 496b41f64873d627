use chunkstream::chunker::{Blob, Chunker};
use chunkstream::manifest::{
    decode_range, encode_blob, reassemble, slice_range, ArchiveError, ByteRange, FileEntry,
    RestoreInformation,
};
use std::collections::HashMap;

fn store(blobs: Vec<Blob>, dir: &mut HashMap<u64, Vec<u8>>) {
    for b in blobs {
        let framed = encode_blob(&b.bytes);
        dir.entry(b.chunk_id).or_insert(framed);
    }
}

fn archive(chunker: &mut Chunker, files: &[(&str, Vec<u8>)]) -> HashMap<u64, Vec<u8>> {
    let mut dir = HashMap::new();
    for (path, bytes) in files {
        let blobs = chunker.add_file(path, bytes.clone());
        store(blobs, &mut dir);
    }
    if let Some(b) = chunker.finish() {
        store(vec![b], &mut dir);
    }
    dir
}

fn restore(ri: &RestoreInformation, dir: &HashMap<u64, Vec<u8>>, path: &str) -> Vec<u8> {
    let ranges = ri.resolve(path).unwrap();
    let frames: Vec<Vec<u8>> = ranges.iter().map(|r| dir[&r.chunk_id].clone()).collect();
    reassemble(&ranges, &frames).unwrap()
}

fn entry<'a>(ri: &'a RestoreInformation, path: &str) -> Option<&'a FileEntry> {
    ri.files.iter().find(|e| e.path == path)
}

fn sample(n: usize, seed: u32) -> Vec<u8> {
    let mut x = seed;
    (0..n)
        .map(|_| {
            x = x.wrapping_mul(1103515245).wrapping_add(12345);
            (x >> 16) as u8
        })
        .collect()
}

#[test]
fn empty_input_set() {
    let mut c = Chunker::new();
    let dir = archive(&mut c, &[]);
    assert!(dir.is_empty());
    let ri = c.restore_info();
    assert!(ri.files.is_empty());
    assert!(ri.hashes.is_empty());
    assert!(ri.duplicates.is_empty());
}

#[test]
fn single_small_file() {
    let mut c = Chunker::new();
    let dir = archive(&mut c, &[("hello.txt", b"hello".to_vec())]);
    assert_eq!(dir.len(), 1);
    let ri = c.restore_info();
    let e = entry(&ri, "hello.txt").unwrap();
    assert_eq!(e.ranges, vec![ByteRange { chunk_id: 448378203247, start: 0, end: 5 }]);
    assert_eq!(decode_range(&dir[&448378203247], 0, 5).unwrap(), b"hello".to_vec());
    assert_eq!(restore(&ri, &dir, "hello.txt"), b"hello".to_vec());
}

#[test]
fn duplicate_files() {
    let content = vec![0xABu8; 1 << 20];
    let mut c = Chunker::new();
    let dir = archive(&mut c, &[("a.bin", content.clone()), ("b.bin", content.clone())]);
    let ri = c.restore_info();
    assert_eq!(ri.files.len(), 1);
    assert!(entry(&ri, "a.bin").is_some());
    let ha = &ri.hashes.iter().find(|h| h.0 == "a.bin").unwrap().1;
    let hb = &ri.hashes.iter().find(|h| h.0 == "b.bin").unwrap().1;
    assert_eq!(ha, hb);
    assert_eq!(ri.duplicates.len(), 1);
    assert_eq!(&ri.duplicates[0].0, ha);
    assert_eq!(ri.duplicates[0].1, vec!["a.bin".to_string(), "b.bin".to_string()]);
    assert_eq!(restore(&ri, &dir, "a.bin"), content);
    assert_eq!(restore(&ri, &dir, "b.bin"), content);
}

#[test]
fn cross_file_chunk() {
    let data: Vec<u8> = (0..40u32).map(|i| ((i * 37 + 11) % 256) as u8).collect();
    let x = data[0..15].to_vec();
    let y = data[15..40].to_vec();
    let mut c = Chunker::with_modulus(7);
    let dir = archive(&mut c, &[("x", x.clone()), ("y", y.clone())]);
    let ri = c.restore_info();
    assert_eq!(restore(&ri, &dir, "x"), x);
    assert_eq!(restore(&ri, &dir, "y"), y);
    let ex = entry(&ri, "x").unwrap();
    let ey = entry(&ri, "y").unwrap();
    assert_eq!(ex.ranges[0], ByteRange { chunk_id: 86100936138, start: 0, end: 11 });
    assert_eq!(ex.ranges[1], ByteRange { chunk_id: 41671, start: 0, end: 2 });
    let shared = ex.ranges.iter().any(|a| ey.ranges.iter().any(|b| a.chunk_id == b.chunk_id));
    assert!(shared);
    assert_eq!(ey.ranges[0], ByteRange { chunk_id: 1013901056896, start: 2, end: 5 });
}

#[test]
fn round_trip_many_files() {
    let files: Vec<(String, Vec<u8>)> = (0..6)
        .map(|i| (format!("dir/f{}", i), sample(300 + 97 * i, i as u32 + 1)))
        .collect();
    let refs: Vec<(&str, Vec<u8>)> = files.iter().map(|(p, b)| (p.as_str(), b.clone())).collect();
    let mut c = Chunker::with_modulus(61);
    let dir = archive(&mut c, &refs);
    let ri = c.restore_info();
    for (p, b) in &files {
        assert_eq!(&restore(&ri, &dir, p), b);
        let total: u64 = entry(&ri, p).unwrap().ranges.iter().map(|r| r.end - r.start).sum();
        assert_eq!(total, b.len() as u64);
    }
}

#[test]
fn two_runs_give_same_chunks() {
    let files: Vec<(&str, Vec<u8>)> = vec![("a", sample(2000, 3)), ("b", sample(1500, 9))];
    let mut c1 = Chunker::with_modulus(101);
    let mut c2 = Chunker::with_modulus(101);
    let d1 = archive(&mut c1, &files);
    let d2 = archive(&mut c2, &files);
    assert_eq!(d1, d2);
    assert!(d1.len() > 1);
}

#[test]
fn empty_file_gets_zero_length_range() {
    let mut c = Chunker::new();
    let dir = archive(&mut c, &[("empty", Vec::new())]);
    let ri = c.restore_info();
    let e = entry(&ri, "empty").unwrap();
    assert_eq!(e.ranges, vec![ByteRange { chunk_id: 0, start: 0, end: 0 }]);
    assert_eq!(restore(&ri, &dir, "empty"), Vec::<u8>::new());
    assert_eq!(
        ri.hashes[0].1,
        "af1349b9f5f9a1a6a0404dea36dcc9499bcb25c9adc112b7cc9a93cae41f3262"
    );
}

#[test]
fn backslashes_become_slashes() {
    let mut c = Chunker::new();
    archive(&mut c, &[("dir\\x.txt", b"abc".to_vec())]);
    let ri = c.restore_info();
    assert_eq!(ri.hashes[0].0, "dir/x.txt");
    assert!(entry(&ri, "dir/x.txt").is_some());
    assert_eq!(ri.resolve("dir\\x.txt").unwrap().len(), 1);
}

#[test]
fn restore_absent_but_duplicate_path() {
    let content = vec![0xABu8; 1000];
    let mut c = Chunker::new();
    let dir = archive(&mut c, &[("a.bin", content.clone()), ("b.bin", content.clone())]);
    let mut ri = c.restore_info();
    let stored = ri.files.remove(0);
    assert_eq!(stored.path, "a.bin");
    ri.files.push(FileEntry { path: "b.bin".to_string(), ranges: stored.ranges });
    assert_eq!(restore(&ri, &dir, "a.bin"), content);
}

#[test]
fn unknown_path_is_refused() {
    let mut c = Chunker::new();
    archive(&mut c, &[("a", b"xyz".to_vec())]);
    let ri = c.restore_info();
    assert_eq!(ri.resolve("nope"), Err(ArchiveError::UnknownPath));
}

#[test]
fn out_of_range_is_malformed() {
    let payload = b"hello".to_vec();
    assert_eq!(slice_range(&payload, 1, 4).unwrap(), b"ell".to_vec());
    assert_eq!(slice_range(&payload, 2, 9), Err(ArchiveError::ManifestMalformed));
    assert_eq!(slice_range(&payload, 3, 2), Err(ArchiveError::ManifestMalformed));
    let framed = encode_blob(&payload);
    assert_eq!(decode_range(&framed, 0, 6), Err(ArchiveError::ManifestMalformed));
}

#[test]
fn garbage_frame_fails_to_decompress() {
    assert_eq!(decode_range(&vec![1, 2, 3, 4, 5], 0, 0), Err(ArchiveError::CompressionFailed));
}

#[test]
fn encoding_frames_the_bytes() {
    let payload = sample(5000, 42);
    let framed = encode_blob(&payload);
    assert_ne!(framed, payload);
    assert_eq!(decode_range(&framed, 0, 5000).unwrap(), payload);
    assert_eq!(decode_range(&framed, 10, 20).unwrap(), payload[10..20].to_vec());
}

#[test]
fn equal_hash_means_duplicate() {
    let mut c = Chunker::with_modulus(13);
    let first = c.add_hashed_file("p", "h1".to_string(), b"first".to_vec());
    let second = c.add_hashed_file("q", "h1".to_string(), b"other bytes".to_vec());
    assert!(second.is_empty());
    c.add_hashed_file("r", "h2".to_string(), b"third".to_vec());
    let tail = c.finish();
    assert!(first.len() + tail.iter().count() >= 1);
    let ri = c.restore_info();
    assert!(entry(&ri, "p").is_some());
    assert!(entry(&ri, "q").is_none());
    assert!(entry(&ri, "r").is_some());
    assert_eq!(ri.duplicates, vec![("h1".to_string(), vec!["p".to_string(), "q".to_string()])]);
    assert_eq!(ri.resolve("q").unwrap(), ri.resolve("p").unwrap());
}

#[test]
fn whole_file_hash_is_blake3_hex() {
    let mut c = Chunker::new();
    c.add_file("a", b"abc".to_vec());
    let ri = c.restore_info();
    assert_eq!(
        ri.hashes[0].1,
        "6437b3ac38465133ffb63b75273a8db548c558465d79db03fd359c6cd5bd9d85"
    );
}

#[test]
fn reassemble_joins_ranges_and_reports_first_error() {
    let a = encode_blob(&b"hello".to_vec());
    let b = encode_blob(&b"world".to_vec());
    let ranges = vec![
        ByteRange { chunk_id: 1, start: 1, end: 4 },
        ByteRange { chunk_id: 2, start: 0, end: 2 },
    ];
    assert_eq!(reassemble(&ranges, &vec![a.clone(), b.clone()]).unwrap(), b"ellwo".to_vec());
    assert_eq!(reassemble(&ranges, &vec![a.clone()]), Err(ArchiveError::ManifestMalformed));
    assert_eq!(
        reassemble(&ranges, &vec![vec![9, 9, 9], b.clone()]),
        Err(ArchiveError::CompressionFailed)
    );
    let bad = vec![ByteRange { chunk_id: 1, start: 0, end: 9 }, ranges[1]];
    assert_eq!(reassemble(&bad, &vec![a, b]), Err(ArchiveError::ManifestMalformed));
    assert_eq!(reassemble(&Vec::new(), &Vec::new()).unwrap(), Vec::<u8>::new());
}
