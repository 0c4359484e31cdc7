use bytes::Bytes;
use mini_downloader::chunk::FetchOutcome;
use mini_downloader::download_task::DownloadTask;
use mini_downloader::downloader::{Batch, DownloadPolicy, DownloaderBuilder};
use mini_downloader::error::{AggregateError, DownloadError};
use mini_downloader::file_image::FileImage;
use mini_downloader::job::{Action, Event, Job, JobState};
use mini_downloader::metadata::ResourceMetadata;

fn resource(total: usize) -> Vec<u8> {
    (0..total).map(|i| (i % 253) as u8).collect()
}

fn body(resource: &[u8], range: Option<(usize, usize)>) -> FetchOutcome {
    match range {
        Some((first, last)) => FetchOutcome::Body(Bytes::copy_from_slice(&resource[first..=last])),
        None => FetchOutcome::Body(Bytes::copy_from_slice(resource)),
    }
}

/// What a driver would do with the actions of one job, with the resource and
/// the file in memory. Events are taken from the front or from the back of
/// the queue, to reach different orders.
struct Driver {
    resource: Vec<u8>,
    supports_ranges: bool,
    file: Option<FileImage>,
    announced: Option<usize>,
    advanced: usize,
    fetches: Vec<(usize, Option<(usize, usize)>)>,
    writes: Vec<usize>,
    queue: Vec<Event>,
    from_back: bool,
}

impl Driver {
    fn new(total: usize, supports_ranges: bool, from_back: bool) -> Driver {
        Driver {
            resource: resource(total),
            supports_ranges,
            file: None,
            announced: None,
            advanced: 0,
            fetches: Vec::new(),
            writes: Vec::new(),
            queue: Vec::new(),
            from_back,
        }
    }

    fn perform(&mut self, actions: Vec<Action>) {
        for action in actions {
            match action {
                Action::Probe => self.queue.push(Event::Probed(ResourceMetadata {
                    supports_ranges: self.supports_ranges,
                    total_bytes: self.resource.len(),
                })),
                Action::Open { total } => {
                    assert!(self.file.is_none());
                    self.file = Some(FileImage::new());
                    self.announced = Some(total);
                }
                Action::Fetch { index, chunk } => {
                    assert_eq!(chunk.data().len(), 0);
                    let range = chunk.byte_range();
                    self.fetches.push((index, range));
                    self.queue.push(Event::Fetched { index, outcome: body(&self.resource, range) });
                }
                Action::Write { index, chunk } => {
                    assert_eq!(chunk.data().len(), chunk.chunk_size());
                    chunk.save(self.file.as_mut().unwrap());
                    self.writes.push(index);
                    self.queue.push(Event::Written { index });
                }
                Action::Advance { bytes } => self.advanced += bytes,
                Action::Sync => {
                    let file_size = self.file.as_ref().unwrap().len() as u64;
                    self.queue.push(Event::Synced { file_size });
                }
            }
        }
    }

    fn take(&mut self) -> Option<Event> {
        if self.queue.is_empty() {
            None
        } else if self.from_back {
            self.queue.pop()
        } else {
            Some(self.queue.remove(0))
        }
    }

    fn run(&mut self, mut job: Job) -> Job {
        let first = job.start();
        self.perform(first);
        while let Some(event) = self.take() {
            let before = job.progress();
            let (next, actions) = job.handle(event);
            job = next;
            assert!(job.progress() >= before);
            self.perform(actions);
        }
        job
    }
}

#[test]
fn a_pipelined_job_runs_to_done() {
    for from_back in [false, true] {
        let mut driver = Driver::new(10_000_000, true, from_back);
        let job = driver.run(Job::new(DownloadPolicy::DownloadAndSave, 4));
        assert_eq!(job.state(), JobState::Done);
        assert_eq!(job.result(), Some(Ok(())));
        assert_eq!(job.error(), None);
        assert_eq!(job.total(), 10_000_000);
        assert_eq!(job.progress(), 10_000_000);
        assert_eq!(driver.advanced, 10_000_000);
        assert_eq!(driver.announced, Some(10_000_000));
        let mut fetches = driver.fetches.clone();
        fetches.sort();
        assert_eq!(
            fetches,
            vec![
                (0, Some((0, 2_499_999))),
                (1, Some((2_500_000, 4_999_999))),
                (2, Some((5_000_000, 7_499_999))),
                (3, Some((7_500_000, 9_999_999)))
            ]
        );
        let file = driver.file.as_ref().unwrap();
        assert_eq!(file.len(), 10_000_000);
        assert_eq!(file.data(), &driver.resource);
    }
}

#[test]
fn a_fetch_then_write_job_runs_to_done() {
    for from_back in [false, true] {
        let mut driver = Driver::new(10_000_000, true, from_back);
        let job = driver.run(Job::new(DownloadPolicy::DownloadThenSave, 4));
        assert_eq!(job.state(), JobState::Done);
        assert_eq!(job.progress(), 10_000_000);
        assert_eq!(driver.advanced, 10_000_000);
        assert_eq!(driver.writes, vec![0, 1, 2, 3]);
        assert_eq!(driver.file.as_ref().unwrap().data(), &driver.resource);
    }
}

#[test]
fn a_small_resource_is_fetched_in_one_request() {
    let mut driver = Driver::new(1000, true, false);
    let job = driver.run(Job::new(DownloadPolicy::DownloadAndSave, 16));
    assert_eq!(job.state(), JobState::Done);
    assert_eq!(driver.fetches, vec![(0, Some((0, 999)))]);
    assert_eq!(driver.file.as_ref().unwrap().data(), &driver.resource);
}

#[test]
fn a_resource_of_unknown_size_is_asked_for_without_a_range() {
    let mut driver = Driver::new(0, true, false);
    let job = driver.run(Job::new(DownloadPolicy::DownloadAndSave, 4));
    assert_eq!(job.state(), JobState::Done);
    assert_eq!(driver.fetches, vec![(0, None)]);
    assert_eq!(driver.advanced, 0);
    assert_eq!(driver.file.as_ref().unwrap().len(), 0);
}

fn probed(policy: DownloadPolicy, total: usize, workers: usize) -> (Job, Vec<Action>) {
    let job = Job::new(policy, workers);
    assert_eq!(job.state(), JobState::Planning);
    assert_eq!(job.policy(), policy);
    assert_eq!(job.workers(), workers);
    let first = job.start();
    assert_eq!(first.len(), 1);
    assert!(matches!(first[0], Action::Probe));
    job.handle(Event::Probed(ResourceMetadata { supports_ranges: true, total_bytes: total }))
}

fn fetched(index: usize, size: usize) -> Event {
    Event::Fetched { index, outcome: FetchOutcome::Body(Bytes::from(vec![index as u8; size])) }
}

#[test]
fn the_probe_is_answered_with_the_file_and_the_fetches() {
    let (job, actions) = probed(DownloadPolicy::DownloadAndSave, 10_000_000, 4);
    assert_eq!(job.state(), JobState::Fetching);
    assert_eq!(job.total(), 10_000_000);
    assert_eq!(job.progress(), 0);
    assert_eq!(actions.len(), 5);
    assert!(matches!(actions[0], Action::Open { total: 10_000_000 }));
    match (&actions[1], &actions[4]) {
        (Action::Fetch { index: 0, chunk: first }, Action::Fetch { index: 3, chunk: last }) => {
            assert_eq!(first.byte_range(), Some((0, 2_499_999)));
            assert_eq!(first.range_header(), Some("bytes=0-2499999".to_string()));
            assert_eq!(last.byte_range(), Some((7_500_000, 9_999_999)));
            assert_eq!(last.range_header(), Some("bytes=7500000-9999999".to_string()));
        }
        _ => panic!("the fetches are not in the order of the plan"),
    }
    assert!(job.start().is_empty());
}

#[test]
fn a_failed_probe_fails_the_job_before_any_file_is_made() {
    let job = Job::new(DownloadPolicy::DownloadAndSave, 4);
    let (job, actions) = job.handle(Event::ProbeFailed);
    assert!(actions.is_empty());
    assert_eq!(job.state(), JobState::Failed);
    assert_eq!(job.error(), Some(DownloadError::MetadataProbeFailed));
    assert_eq!(job.result(), Some(Err(DownloadError::MetadataProbeFailed)));
}

#[test]
fn a_short_body_fails_the_job_and_nothing_of_it_is_written() {
    for policy in [DownloadPolicy::DownloadAndSave, DownloadPolicy::DownloadThenSave] {
        let (job, _) = probed(policy, 1000, 4);
        let (job, actions) = job.handle(Event::Fetched {
            index: 0,
            outcome: FetchOutcome::Body(Bytes::from(vec![0u8; 999])),
        });
        assert!(actions.is_empty());
        assert_eq!(job.state(), JobState::Failed);
        assert_eq!(job.error(), Some(DownloadError::SizeMismatch { expected: 1000, got: 999 }));
        assert_eq!(job.progress(), 0);
        let (job, actions) = job.handle(Event::Written { index: 0 });
        assert!(actions.is_empty());
        assert_eq!(job.state(), JobState::Failed);
        assert_eq!(job.progress(), 0);
    }
}

#[test]
fn a_failed_request_fails_the_job() {
    let (job, _) = probed(DownloadPolicy::DownloadAndSave, 10_000_000, 4);
    let (job, actions) = job.handle(fetched(1, 2_500_000));
    assert_eq!(actions.len(), 1);
    let (job, actions) = job.handle(Event::Fetched { index: 2, outcome: FetchOutcome::TransportFailed });
    assert!(actions.is_empty());
    assert_eq!(job.result(), Some(Err(DownloadError::TransportError)));
    let (job, actions) = job.handle(fetched(0, 2_500_000));
    assert!(actions.is_empty());
    let (job, actions) = job.handle(Event::Written { index: 1 });
    assert!(actions.is_empty());
    assert_eq!(job.progress(), 0);
    assert_eq!(job.result(), Some(Err(DownloadError::TransportError)));
}

#[test]
fn pipelined_writes_each_chunk_as_it_comes_in() {
    let (job, _) = probed(DownloadPolicy::DownloadAndSave, 10_000_000, 4);
    let (job, actions) = job.handle(fetched(2, 2_500_000));
    assert_eq!(job.state(), JobState::Fetching);
    assert_eq!(actions.len(), 1);
    match &actions[0] {
        Action::Write { index, chunk } => {
            assert_eq!(*index, 2);
            assert_eq!(chunk.start(), 5_000_000);
            assert_eq!(chunk.chunk_size(), 2_500_000);
            assert_eq!(chunk.data().len(), 2_500_000);
            assert_eq!(chunk.data()[0], 2);
        }
        _ => panic!("no write was asked for"),
    }
    let (job, actions) = job.handle(Event::Written { index: 2 });
    assert_eq!(job.progress(), 2_500_000);
    assert_eq!(actions.len(), 1);
    assert!(matches!(actions[0], Action::Advance { bytes: 2_500_000 }));
    let (job, actions) = job.handle(Event::Written { index: 2 });
    assert!(actions.is_empty());
    assert_eq!(job.progress(), 2_500_000);
    let (job, actions) = job.handle(fetched(2, 2_500_000));
    assert!(actions.is_empty());
    assert_eq!(job.state(), JobState::Fetching);
    assert_eq!(job.progress(), 2_500_000);
}

#[test]
fn fetch_then_write_holds_the_chunks_until_all_are_in() {
    let (job, _) = probed(DownloadPolicy::DownloadThenSave, 10_000_000, 4);
    let (job, actions) = job.handle(fetched(3, 2_500_000));
    assert!(actions.is_empty());
    let (job, actions) = job.handle(fetched(0, 2_500_000));
    assert!(actions.is_empty());
    let (job, actions) = job.handle(Event::Written { index: 0 });
    assert!(actions.is_empty());
    assert_eq!(job.progress(), 0);
    let (job, actions) = job.handle(fetched(1, 2_500_000));
    assert!(actions.is_empty());
    assert_eq!(job.state(), JobState::Fetching);
    let (job, actions) = job.handle(fetched(2, 2_500_000));
    assert_eq!(job.state(), JobState::Writing);
    assert_eq!(actions.len(), 4);
    for (k, action) in actions.iter().enumerate() {
        match action {
            Action::Write { index, chunk } => {
                assert_eq!(*index, k);
                assert_eq!(chunk.start(), k * 2_500_000);
                assert_eq!(chunk.data().len(), 2_500_000);
                assert_eq!(chunk.data()[17], k as u8);
            }
            _ => panic!("something else than a write was asked for"),
        }
    }
    let (job, _) = job.handle(Event::Written { index: 1 });
    let (job, _) = job.handle(Event::Written { index: 3 });
    let (job, _) = job.handle(Event::Written { index: 0 });
    assert_eq!(job.state(), JobState::Writing);
    assert_eq!(job.progress(), 7_500_000);
    let (job, actions) = job.handle(Event::Written { index: 2 });
    assert_eq!(job.state(), JobState::Verifying);
    assert_eq!(job.progress(), 10_000_000);
    assert_eq!(actions.len(), 2);
    assert!(matches!(actions[0], Action::Advance { bytes: 2_500_000 }));
    assert!(matches!(actions[1], Action::Sync));
    let (job, actions) = job.handle(Event::Synced { file_size: 10_000_000 });
    assert!(actions.is_empty());
    assert_eq!(job.state(), JobState::Done);
}

fn written(policy: DownloadPolicy) -> Job {
    let (mut job, _) = probed(policy, 8_000_000, 2);
    for index in 0..2 {
        job = job.handle(fetched(index, 4_000_000)).0;
    }
    for index in 0..2 {
        job = job.handle(Event::Written { index }).0;
    }
    assert_eq!(job.state(), JobState::Verifying);
    job
}

#[test]
fn a_file_of_another_size_is_an_incomplete_download() {
    for policy in [DownloadPolicy::DownloadAndSave, DownloadPolicy::DownloadThenSave] {
        let (job, actions) = written(policy).handle(Event::Synced { file_size: 7_999_999 });
        assert!(actions.is_empty());
        assert_eq!(
            job.result(),
            Some(Err(DownloadError::IncompleteDownload { expected: 8_000_000, on_disk: 7_999_999 }))
        );
        assert_eq!(written(policy).handle(Event::Synced { file_size: 8_000_000 }).0.result(), Some(Ok(())));
    }
}

#[test]
fn a_failed_file_operation_is_an_io_error() {
    let (job, _) = probed(DownloadPolicy::DownloadAndSave, 8_000_000, 2);
    assert_eq!(job.handle(Event::IoFailed).0.result(), Some(Err(DownloadError::IOError)));
    let (job, _) = probed(DownloadPolicy::DownloadAndSave, 8_000_000, 2);
    let (job, _) = job.handle(fetched(0, 4_000_000));
    let (job, actions) = job.handle(Event::IoFailed);
    assert!(actions.is_empty());
    assert_eq!(job.result(), Some(Err(DownloadError::IOError)));
    assert_eq!(
        written(DownloadPolicy::DownloadThenSave).handle(Event::IoFailed).0.result(),
        Some(Err(DownloadError::IOError))
    );
}

#[test]
fn events_that_do_not_belong_change_nothing() {
    let job = Job::new(DownloadPolicy::DownloadAndSave, 4);
    let (job, actions) = job.handle(fetched(0, 10));
    assert!(actions.is_empty());
    let (job, actions) = job.handle(Event::Synced { file_size: 0 });
    assert!(actions.is_empty());
    let (job, actions) = job.handle(Event::IoFailed);
    assert!(actions.is_empty());
    assert_eq!(job.state(), JobState::Planning);
    assert_eq!(job.result(), None);
    let (job, _) = probed(DownloadPolicy::DownloadAndSave, 8_000_000, 2);
    let (job, actions) = job.handle(fetched(2, 4_000_000));
    assert!(actions.is_empty());
    let (job, actions) = job.handle(Event::Written { index: 0 });
    assert!(actions.is_empty());
    let (job, actions) = job.handle(Event::ProbeFailed);
    assert!(actions.is_empty());
    let (job, actions) = job.handle(Event::Synced { file_size: 8_000_000 });
    assert!(actions.is_empty());
    assert_eq!(job.state(), JobState::Fetching);
    let done = written(DownloadPolicy::DownloadAndSave).handle(Event::Synced { file_size: 8_000_000 }).0;
    let (done, actions) = done.handle(Event::IoFailed);
    assert!(actions.is_empty());
    assert_eq!(done.result(), Some(Ok(())));
}

fn tasks(n: usize) -> Vec<DownloadTask> {
    (0..n).map(|i| DownloadTask::new("https://example.com/a.mp3", &format!("test{}.mp3", i + 1))).collect()
}

fn run_task(batch: &mut Batch, task: usize, total: usize) {
    let mut driver = Driver::new(total, true, task % 2 == 1);
    driver.perform(vec![Action::Probe]);
    while let Some(event) = driver.take() {
        let actions = batch.handle(task, event);
        driver.perform(actions);
    }
    assert_eq!(driver.file.as_ref().unwrap().data(), &driver.resource);
}

#[test]
fn test_download_then_save() {
    let downloader = DownloaderBuilder::new().workers(12).build();
    let mut batch = downloader.download(tasks(4));
    assert_eq!(batch.len(), 4);
    assert_eq!(batch.task(2).filename, "test3.mp3");
    let first = batch.start();
    assert_eq!(first.len(), 4);
    for (k, (task, action)) in first.iter().enumerate() {
        assert_eq!(*task, k);
        assert!(matches!(action, Action::Probe));
    }
    assert_eq!(batch.outcome(), None);
    for task in 0..4 {
        assert_eq!(batch.outcome(), None);
        run_task(&mut batch, task, 6_000_000 + task);
        assert_eq!(batch.job(task).state(), JobState::Done);
        assert_eq!(batch.job(task).progress(), 6_000_000 + task);
        assert_eq!(batch.job(task).total(), 6_000_000 + task);
    }
    assert_eq!(batch.outcome(), Some(Ok(())));
}

#[test]
fn the_first_failed_task_in_the_order_of_the_tasks_is_reported() {
    let downloader = DownloaderBuilder::new().policy(DownloadPolicy::DownloadThenSave).build();
    let mut batch = downloader.download(tasks(4));
    assert!(batch.handle(3, Event::ProbeFailed).is_empty());
    assert_eq!(batch.outcome(), None);
    run_task(&mut batch, 0, 5000);
    assert_eq!(batch.outcome(), None);
    batch.handle(1, Event::Probed(ResourceMetadata { supports_ranges: false, total_bytes: 10 }));
    batch.handle(1, Event::Fetched { index: 0, outcome: FetchOutcome::TransportFailed });
    assert_eq!(batch.outcome(), None);
    run_task(&mut batch, 2, 4_500_000);
    assert_eq!(
        batch.outcome(),
        Some(Err(AggregateError { task: 1, error: DownloadError::TransportError }))
    );
    assert_eq!(batch.job(0).state(), JobState::Done);
    assert_eq!(batch.job(2).state(), JobState::Done);
    assert_eq!(batch.job(3).error(), Some(DownloadError::MetadataProbeFailed));
}

#[test]
fn an_event_for_a_task_that_is_not_there_changes_nothing() {
    let downloader = DownloaderBuilder::new().build();
    let mut batch = downloader.download(tasks(2));
    assert!(batch.handle(2, Event::ProbeFailed).is_empty());
    assert_eq!(batch.job(0).state(), JobState::Planning);
    assert_eq!(batch.job(1).state(), JobState::Planning);
    let empty = downloader.download(Vec::new());
    assert_eq!(empty.len(), 0);
    assert_eq!(empty.outcome(), Some(Ok(())));
}
