use mini_downloader::download_task::{DownloadTask, TaskError};
use mini_downloader::downloader::{DownloadPolicy, Downloader, DownloaderBuilder, DEFAULT_RETRY, DEFAULT_WORKERS};
use mini_downloader::metadata::{is_ranges_token, parse_length, ResourceMetadata};
use reqwest::header::HeaderValue;

#[test]
fn content_length_is_read_as_a_decimal_number() {
    assert_eq!(parse_length(b"0"), 0);
    assert_eq!(parse_length(b"7"), 7);
    assert_eq!(parse_length(b"10000000"), 10_000_000);
    assert_eq!(parse_length(b"007"), 7);
    assert_eq!(parse_length(b"+42"), 42);
    assert_eq!(parse_length(usize::MAX.to_string().as_bytes()), usize::MAX);
}

#[test]
fn an_unreadable_content_length_is_zero() {
    assert_eq!(parse_length(b""), 0);
    assert_eq!(parse_length(b"+"), 0);
    assert_eq!(parse_length(b"-1"), 0);
    assert_eq!(parse_length(b"12a"), 0);
    assert_eq!(parse_length(b" 12"), 0);
    assert_eq!(parse_length(b"12 "), 0);
    assert_eq!(parse_length(b"1_000"), 0);
    assert_eq!(parse_length(b"++1"), 0);
    assert_eq!(parse_length(b"184467440737095516160000"), 0);
    let mut over = usize::MAX.to_string().into_bytes();
    let last = over.len() - 1;
    over[last] += 1;
    assert_eq!(parse_length(&over), 0);
}

#[test]
fn only_the_word_bytes_means_range_support() {
    assert!(is_ranges_token(b"bytes"));
    assert!(!is_ranges_token(b"none"));
    assert!(!is_ranges_token(b"Bytes"));
    assert!(!is_ranges_token(b"bytes "));
    assert!(!is_ranges_token(b""));
}

#[test]
fn metadata_is_read_from_the_two_headers() {
    let ranges = HeaderValue::from_static("bytes");
    let length = HeaderValue::from_static("10000000");
    assert_eq!(
        ResourceMetadata::from_headers(Some(&ranges), Some(&length)),
        ResourceMetadata { supports_ranges: true, total_bytes: 10_000_000 }
    );
    let none = HeaderValue::from_static("none");
    assert_eq!(
        ResourceMetadata::from_headers(Some(&none), Some(&length)),
        ResourceMetadata { supports_ranges: false, total_bytes: 10_000_000 }
    );
    assert_eq!(
        ResourceMetadata::from_headers(None, None),
        ResourceMetadata { supports_ranges: false, total_bytes: 0 }
    );
    let junk = HeaderValue::from_static("ten");
    assert_eq!(
        ResourceMetadata::from_headers(Some(&ranges), Some(&junk)),
        ResourceMetadata { supports_ranges: true, total_bytes: 0 }
    );
    let opaque = HeaderValue::from_bytes(&[49, 50, 0xfa]).unwrap();
    assert_eq!(
        ResourceMetadata::from_headers(Some(&ranges), Some(&opaque)),
        ResourceMetadata { supports_ranges: true, total_bytes: 0 }
    );
}

#[test]
fn a_task_holds_what_it_was_given() {
    let task = DownloadTask::new("https://example.com/a.mp3", "test1.mp3");
    assert_eq!(task.url, "https://example.com/a.mp3");
    assert_eq!(task.filename, "test1.mp3");
    let copy = task.clone();
    assert_eq!(copy.url, task.url);
    assert_eq!(copy.filename, task.filename);
}

#[test]
fn the_file_is_named_after_the_last_segment_of_the_path() {
    let task = DownloadTask::from_str("https://example.com/media/first/song.mp3").unwrap();
    assert_eq!(task.url, "https://example.com/media/first/song.mp3");
    assert_eq!(task.filename, "song.mp3");
    let query = DownloadTask::from_str("https://example.com/a/b.bin?x=1#frag").unwrap();
    assert_eq!(query.filename, "b.bin");
    let encoded = DownloadTask::from_str("https://example.com/a/%E3%81%AF.mp3").unwrap();
    assert_eq!(encoded.filename, "%E3%81%AF.mp3");
}

#[test]
fn a_url_without_a_name_makes_no_task() {
    assert_eq!(DownloadTask::from_str("https://example.com").err(), Some(TaskError::NoFilename));
    assert_eq!(DownloadTask::from_str("https://example.com/").err(), Some(TaskError::NoFilename));
    assert_eq!(DownloadTask::from_str("https://example.com/a/").err(), Some(TaskError::NoFilename));
    assert_eq!(DownloadTask::from_str("data:text/plain,Hello").err(), Some(TaskError::NoFilename));
}

#[test]
fn a_text_that_is_no_url_makes_no_task() {
    assert_eq!(DownloadTask::from_str("song.mp3").err(), Some(TaskError::InvalidUrl));
    assert_eq!(DownloadTask::from_str("").err(), Some(TaskError::InvalidUrl));
    assert_eq!(DownloadTask::from_str("/a/b.mp3").err(), Some(TaskError::InvalidUrl));
}

#[test]
fn the_last_segment_decides() {
    let segments = Some(vec!["a".to_string(), "b.mp3".to_string()]);
    let task = DownloadTask::from_segments("u", segments).unwrap();
    assert_eq!(task.url, "u");
    assert_eq!(task.filename, "b.mp3");
    assert_eq!(DownloadTask::from_segments("u", None).err(), Some(TaskError::NoFilename));
    assert_eq!(DownloadTask::from_segments("u", Some(Vec::new())).err(), Some(TaskError::NoFilename));
    assert_eq!(
        DownloadTask::from_segments("u", Some(vec!["a".to_string(), String::new()])).err(),
        Some(TaskError::NoFilename)
    );
}

#[test]
fn a_builder_left_alone_gives_the_standard_settings() {
    assert_eq!(DEFAULT_WORKERS, 4);
    assert_eq!(DEFAULT_RETRY, 2);
    let downloader = DownloaderBuilder::new().build();
    assert_eq!(downloader.workers(), 4);
    assert_eq!(downloader.retry(), 2);
    assert_eq!(downloader.dir(), "./");
    assert_eq!(downloader.policy(), DownloadPolicy::DownloadAndSave);
    let default = Downloader::default();
    assert_eq!(default.workers(), 4);
    assert_eq!(default.retry(), 2);
    assert_eq!(default.dir(), "./");
    assert_eq!(default.policy(), DownloadPolicy::DownloadAndSave);
    let built = DownloaderBuilder::default().build();
    assert_eq!(built.workers(), 4);
}

#[test]
fn a_builder_keeps_what_it_was_told() {
    let downloader = DownloaderBuilder::new()
        .workers(12)
        .retry(5)
        .dir("/tmp/out")
        .policy(DownloadPolicy::DownloadThenSave)
        .build();
    assert_eq!(downloader.workers(), 12);
    assert_eq!(downloader.retry(), 5);
    assert_eq!(downloader.dir(), "/tmp/out");
    assert_eq!(downloader.policy(), DownloadPolicy::DownloadThenSave);
    let partly = DownloaderBuilder::new().workers(1).workers(3).build();
    assert_eq!(partly.workers(), 3);
    assert_eq!(partly.retry(), 2);
    assert_eq!(partly.dir(), "./");
}
