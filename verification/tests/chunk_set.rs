use bytes::Bytes;
use mini_downloader::chunk::{Chunk, FetchOutcome};
use mini_downloader::chunk_vec::ChunkVec;
use mini_downloader::chunks::Chunks;
use mini_downloader::error::DownloadError;
use mini_downloader::file_image::FileImage;
use mini_downloader::metadata::ResourceMetadata;

fn fetched(start: usize, size: usize) -> Chunk {
    let body: Vec<u8> = (start..start + size).map(|i| (i % 251) as u8).collect();
    Chunk::new(start, size).download(FetchOutcome::Body(Bytes::from(body))).ok().unwrap()
}

fn starts(set: &ChunkVec) -> Vec<usize> {
    set.chunks().iter().map(|c| c.start()).collect()
}

fn patterned(total: usize) -> Vec<u8> {
    (0..total).map(|i| (i % 251) as u8).collect()
}

#[test]
fn a_complete_set_verifies_in_whatever_order_it_was_collected() {
    let mut set = ChunkVec::new(vec![fetched(20, 5), fetched(0, 10), fetched(10, 10)], 25);
    assert!(!set.is_complete());
    assert_eq!(set.verify(), Ok(()));
    assert_eq!(starts(&set), vec![0, 10, 20]);
    assert!(set.is_complete());
    assert_eq!(set.total(), 25);
}

#[test]
fn verify_sorts_by_start() {
    let mut set = ChunkVec::new(vec![fetched(30, 1), fetched(10, 1), fetched(20, 1), fetched(0, 1)], 100);
    assert_eq!(set.verify(), Err(DownloadError::IncompleteChunks));
    assert_eq!(starts(&set), vec![0, 10, 20, 30]);
}

#[test]
fn a_dropped_chunk_fails_verification() {
    let mut first = ChunkVec::new(vec![fetched(10, 10), fetched(20, 5)], 25);
    assert_eq!(first.verify(), Err(DownloadError::IncompleteChunks));
    let mut middle = ChunkVec::new(vec![fetched(0, 10), fetched(20, 5)], 25);
    assert_eq!(middle.verify(), Err(DownloadError::IncompleteChunks));
    let mut last = ChunkVec::new(vec![fetched(0, 10), fetched(10, 10)], 25);
    assert_eq!(last.verify(), Err(DownloadError::IncompleteChunks));
    let mut all = ChunkVec::new(Vec::new(), 25);
    assert_eq!(all.verify(), Err(DownloadError::IncompleteChunks));
    let mut none_of_nothing = ChunkVec::new(Vec::new(), 0);
    assert_eq!(none_of_nothing.verify(), Err(DownloadError::IncompleteChunks));
}

#[test]
fn a_duplicated_chunk_fails_verification() {
    let mut set = ChunkVec::new(vec![fetched(0, 10), fetched(10, 10), fetched(10, 10), fetched(20, 5)], 25);
    assert_eq!(set.verify(), Err(DownloadError::IncompleteChunks));
    let mut empty_twice = ChunkVec::new(vec![fetched(0, 0), fetched(0, 0)], 0);
    assert_eq!(empty_twice.verify(), Err(DownloadError::IncompleteChunks));
    let mut empty_once = ChunkVec::new(vec![fetched(0, 0)], 0);
    assert_eq!(empty_once.verify(), Ok(()));
}

#[test]
fn an_unfetched_or_empty_chunk_fails_verification() {
    let mut unfetched = ChunkVec::new(vec![fetched(0, 10), Chunk::new(10, 15)], 25);
    assert_eq!(unfetched.verify(), Err(DownloadError::IncompleteChunks));
    let mut with_empty = ChunkVec::new(vec![fetched(0, 10), fetched(10, 0), fetched(10, 15)], 25);
    assert_eq!(with_empty.verify(), Err(DownloadError::IncompleteChunks));
    let mut overlapping = ChunkVec::new(vec![fetched(0, 15), fetched(10, 15)], 25);
    assert_eq!(overlapping.verify(), Err(DownloadError::IncompleteChunks));
    let mut not_from_zero = ChunkVec::new(vec![fetched(5, 20)], 25);
    assert_eq!(not_from_zero.verify(), Err(DownloadError::IncompleteChunks));
}

#[test]
fn any_order_of_writes_gives_the_same_file() {
    let ranges = [(0usize, 7usize), (7, 7), (14, 7), (21, 4)];
    let orders: [[usize; 4]; 6] =
        [[0, 1, 2, 3], [3, 2, 1, 0], [1, 3, 0, 2], [2, 0, 3, 1], [3, 0, 1, 2], [1, 0, 3, 2]];
    for order in orders {
        let mut file = FileImage::new();
        for k in order {
            fetched(ranges[k].0, ranges[k].1).save(&mut file);
        }
        assert_eq!(file.data(), &patterned(25));
        assert_eq!(file.len(), 25);
    }
}

#[test]
fn a_set_saves_all_its_chunks() {
    let mut file = FileImage::new();
    ChunkVec::new(vec![fetched(20, 5), fetched(0, 10), fetched(10, 10)], 25).save(&mut file);
    assert_eq!(file.data(), &patterned(25));
    let mut other = FileImage::new();
    ChunkVec::new(vec![fetched(0, 10), fetched(10, 10), fetched(20, 5)], 25).save(&mut other);
    assert_eq!(other.data(), file.data());
    let mut gap = FileImage::new();
    ChunkVec::new(vec![fetched(0, 10), fetched(20, 5)], 25).save(&mut gap);
    assert_eq!(gap.len(), 25);
    assert_eq!(&gap.data()[10..20], &[0u8; 10]);
    let mut short = FileImage::new();
    ChunkVec::new(vec![fetched(0, 10), fetched(10, 10)], 25).save(&mut short);
    assert_eq!(short.len(), 20);
}

fn bodies(plan: &Chunks) -> Vec<FetchOutcome> {
    plan.chunks()
        .iter()
        .map(|c| {
            let body: Vec<u8> = (c.start()..c.start() + c.chunk_size()).map(|i| (i % 251) as u8).collect();
            FetchOutcome::Body(Bytes::from(body))
        })
        .collect()
}

#[test]
fn all_fetches_in_gives_the_whole_resource() {
    let plan = Chunks::new(&ResourceMetadata { supports_ranges: true, total_bytes: 10_000_000 }, 4);
    let outcomes = bodies(&plan);
    assert_eq!(outcomes.len(), 4);
    let set = plan.download(outcomes).ok().unwrap();
    assert_eq!(set.total(), 10_000_000);
    assert_eq!(starts(&set), vec![0, 2_500_000, 5_000_000, 7_500_000]);
    assert!(set.is_complete());
    let mut file = FileImage::new();
    set.save(&mut file);
    assert_eq!(file.len(), 10_000_000);
    assert_eq!(file.data(), &patterned(10_000_000));
}

#[test]
fn both_policies_end_with_a_file_of_the_total_size() {
    let plan = Chunks::new(&ResourceMetadata { supports_ranges: true, total_bytes: 10_000_000 }, 4);
    let mut first = FileImage::new();
    assert_eq!(plan.download_then_save(bodies(&plan), &mut first), Ok(()));
    assert_eq!(first.len(), 10_000_000);
    let mut second = FileImage::new();
    assert_eq!(plan.download_and_save(bodies(&plan), &mut second), Ok(()));
    assert_eq!(second.len(), 10_000_000);
    assert_eq!(first.data(), second.data());
    assert_eq!(first.data(), &patterned(10_000_000));
}

#[test]
fn the_first_failure_in_plan_order_is_reported() {
    let plan = Chunks::new(&ResourceMetadata { supports_ranges: true, total_bytes: 8_000_000 }, 4);
    let mut outcomes = bodies(&plan);
    outcomes[3] = FetchOutcome::TransportFailed;
    outcomes[1] = FetchOutcome::Body(Bytes::from(vec![0u8; 1_999_999]));
    match plan.download(outcomes) {
        Ok(_) => panic!("a failed fetch gave a set"),
        Err(e) => assert_eq!(e, DownloadError::SizeMismatch { expected: 2_000_000, got: 1_999_999 }),
    }
}

#[test]
fn fetch_then_write_writes_nothing_after_a_failure() {
    let plan = Chunks::new(&ResourceMetadata { supports_ranges: true, total_bytes: 8_000_000 }, 4);
    let mut outcomes = bodies(&plan);
    outcomes[2] = FetchOutcome::TransportFailed;
    let mut file = FileImage::new();
    assert_eq!(plan.download_then_save(outcomes, &mut file), Err(DownloadError::TransportError));
    assert_eq!(file.len(), 0);
}

#[test]
fn fetch_and_write_stops_at_the_failure() {
    let plan = Chunks::new(&ResourceMetadata { supports_ranges: true, total_bytes: 8_000_000 }, 4);
    let mut outcomes = bodies(&plan);
    outcomes[2] = FetchOutcome::Body(Bytes::from(vec![0u8; 5]));
    let mut file = FileImage::new();
    assert_eq!(
        plan.download_and_save(outcomes, &mut file),
        Err(DownloadError::SizeMismatch { expected: 2_000_000, got: 5 })
    );
    assert_eq!(file.len(), 4_000_000);
    assert_eq!(file.data(), &patterned(4_000_000));
}

#[test]
fn a_file_that_is_too_long_is_incomplete() {
    let plan = Chunks::new(&ResourceMetadata { supports_ranges: true, total_bytes: 1000 }, 4);
    let mut file = FileImage::new();
    file.write_at(0, &[1u8; 1200]);
    assert_eq!(
        plan.download_then_save(bodies(&plan), &mut file),
        Err(DownloadError::IncompleteDownload { expected: 1000, on_disk: 1200 })
    );
    assert_eq!(&file.data()[..1000], &patterned(1000)[..]);
}

#[test]
fn a_resource_of_unknown_size_downloads_as_empty() {
    let plan = Chunks::new(&ResourceMetadata { supports_ranges: true, total_bytes: 0 }, 4);
    let mut file = FileImage::new();
    assert_eq!(plan.download_and_save(vec![FetchOutcome::Body(Bytes::new())], &mut file), Ok(()));
    assert_eq!(file.len(), 0);
    let mut other = FileImage::new();
    assert_eq!(
        plan.download_then_save(vec![FetchOutcome::Body(Bytes::from(vec![1u8, 2]))], &mut other),
        Err(DownloadError::SizeMismatch { expected: 0, got: 2 })
    );
}
