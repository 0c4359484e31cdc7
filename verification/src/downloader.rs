//! The settings of a downloader and the batch of jobs that it runs.

use vstd::prelude::*;
use crate::download_task::DownloadTask;
use crate::error::AggregateError;
use crate::job::{action_views, Action, ActionView, Event, Job, JobState, JobView};

verus! {

/// In which order a job fetches and writes.
#[derive(Debug, Clone, Copy, PartialEq, Eq, Structural)]
pub enum DownloadPolicy {
    /// Fetch all chunks, then write them all.
    DownloadThenSave,
    /// Write each chunk as soon as it is fetched.
    DownloadAndSave,
}

/// Into how many chunks a large resource is cut, unless told otherwise.
pub const DEFAULT_WORKERS: usize = 4;

/// How often the transport tries a request again, unless told otherwise.
pub const DEFAULT_RETRY: usize = 2;

/// What a downloader is set to.
pub struct DownloaderView {
    pub workers: nat,
    pub retry: nat,
    pub dir: Seq<char>,
    pub policy: DownloadPolicy,
}

impl DownloaderView {
    /// The settings of a downloader of which nothing was asked: 4 workers, 2
    /// retries, the current directory, each chunk written as it comes in.
    pub open spec fn standard() -> DownloaderView {
        DownloaderView {
            workers: DEFAULT_WORKERS as nat,
            retry: DEFAULT_RETRY as nat,
            dir: "./"@,
            policy: DownloadPolicy::DownloadAndSave,
        }
    }
}

pub struct Downloader {
    workers: usize,
    retry: usize,
    dir: String,
    policy: DownloadPolicy,
}

impl View for Downloader {
    type V = DownloaderView;

    closed spec fn view(&self) -> DownloaderView {
        DownloaderView {
            workers: self.workers as nat,
            retry: self.retry as nat,
            dir: self.dir@,
            policy: self.policy,
        }
    }
}

impl Default for Downloader {
    fn default() -> (d: Self)
        ensures
            d@ == DownloaderView::standard(),
    {
        DownloaderBuilder::new().build()
    }
}

/// What a builder has been told so far.
pub struct DownloaderBuilderView {
    pub workers: Option<nat>,
    pub retry: Option<nat>,
    pub dir: Option<Seq<char>>,
    pub policy: Option<DownloadPolicy>,
}

impl DownloaderBuilderView {
    /// The settings that the builder leads to: what it was told, and the
    /// standard for the rest.
    pub open spec fn built(self) -> DownloaderView {
        DownloaderView {
            workers: match self.workers {
                Some(n) => n,
                None => DownloaderView::standard().workers,
            },
            retry: match self.retry {
                Some(n) => n,
                None => DownloaderView::standard().retry,
            },
            dir: match self.dir {
                Some(d) => d,
                None => DownloaderView::standard().dir,
            },
            policy: match self.policy {
                Some(p) => p,
                None => DownloaderView::standard().policy,
            },
        }
    }
}

pub struct DownloaderBuilder {
    workers: Option<usize>,
    retry: Option<usize>,
    dir: Option<String>,
    policy: Option<DownloadPolicy>,
}

impl View for DownloaderBuilder {
    type V = DownloaderBuilderView;

    closed spec fn view(&self) -> DownloaderBuilderView {
        DownloaderBuilderView {
            workers: match self.workers {
                Some(n) => Some(n as nat),
                None => None,
            },
            retry: match self.retry {
                Some(n) => Some(n as nat),
                None => None,
            },
            dir: match self.dir {
                Some(d) => Some(d@),
                None => None,
            },
            policy: self.policy,
        }
    }
}

impl Default for DownloaderBuilder {
    fn default() -> (b: Self)
        ensures
            b@ == (DownloaderBuilderView { workers: None, retry: None, dir: None, policy: None }),
    {
        DownloaderBuilder { workers: None, retry: None, dir: None, policy: None }
    }
}

impl DownloaderBuilder {
    pub fn new() -> (b: Self)
        ensures
            b@ == (DownloaderBuilderView { workers: None, retry: None, dir: None, policy: None }),
    {
        DownloaderBuilder { workers: None, retry: None, dir: None, policy: None }
    }

    pub fn workers(self, workers: usize) -> (b: Self)
        ensures
            b@ == (DownloaderBuilderView { workers: Some(workers as nat), ..self@ }),
    {
        DownloaderBuilder {
            workers: Some(workers),
            retry: self.retry,
            dir: self.dir,
            policy: self.policy,
        }
    }

    pub fn retry(self, retry: usize) -> (b: Self)
        ensures
            b@ == (DownloaderBuilderView { retry: Some(retry as nat), ..self@ }),
    {
        DownloaderBuilder {
            workers: self.workers,
            retry: Some(retry),
            dir: self.dir,
            policy: self.policy,
        }
    }

    pub fn dir(self, dir: &str) -> (b: Self)
        ensures
            b@ == (DownloaderBuilderView { dir: Some(dir@), ..self@ }),
    {
        DownloaderBuilder {
            workers: self.workers,
            retry: self.retry,
            dir: Some(dir.to_owned()),
            policy: self.policy,
        }
    }

    pub fn policy(self, policy: DownloadPolicy) -> (b: Self)
        ensures
            b@ == (DownloaderBuilderView { policy: Some(policy), ..self@ }),
    {
        DownloaderBuilder {
            workers: self.workers,
            retry: self.retry,
            dir: self.dir,
            policy: Some(policy),
        }
    }

    pub fn build(self) -> (d: Downloader)
        ensures
            d@ == self@.built(),
    {
        Downloader {
            workers: match self.workers {
                Some(n) => n,
                None => DEFAULT_WORKERS,
            },
            retry: match self.retry {
                Some(n) => n,
                None => DEFAULT_RETRY,
            },
            dir: match self.dir {
                Some(d) => d,
                None => "./".to_owned(),
            },
            policy: match self.policy {
                Some(p) => p,
                None => DownloadPolicy::DownloadAndSave,
            },
        }
    }
}

impl Downloader {
    pub fn workers(&self) -> (n: usize)
        ensures
            n == self@.workers,
    {
        self.workers
    }

    pub fn retry(&self) -> (n: usize)
        ensures
            n == self@.retry,
    {
        self.retry
    }

    /// The directory that the files are written to.
    pub fn dir(&self) -> (d: &str)
        ensures
            d@ == self@.dir,
    {
        self.dir.as_str()
    }

    pub fn policy(&self) -> (p: DownloadPolicy)
        ensures
            p == self@.policy,
    {
        self.policy
    }
}

/// What a batch is: the tasks in the order in which they were given, and the
/// job of each.
pub struct BatchView {
    pub tasks: Seq<DownloadTask>,
    pub jobs: Seq<JobView>,
}

/// The job has ended, well or badly.
pub open spec fn ended(job: JobView) -> bool {
    job.state == JobState::Done || job.state == JobState::Failed
}

impl BatchView {
    /// How the batch ended, once every job has: well if every job is done,
    /// else with the failure of the first task, in the order of the tasks,
    /// whose job failed. While a job is still under way there is no result:
    /// the failure of one job ends no other.
    pub open spec fn outcome(self) -> Option<Result<(), AggregateError>> {
        if exists|i: int| 0 <= i < self.jobs.len() && !ended(#[trigger] self.jobs[i]) {
            None
        } else if exists|i: int| self.fails_first(i) {
            let first = choose|i: int| self.fails_first(i);
            Some(
                Err(AggregateError { task: first as usize, error: self.jobs[first].error.unwrap() }),
            )
        } else {
            Some(Ok(()))
        }
    }

    /// The job of task `i` failed, and no job of an earlier task did.
    pub open spec fn fails_first(self, i: int) -> bool {
        &&& 0 <= i < self.jobs.len()
        &&& self.jobs[i].state == JobState::Failed
        &&& forall|k: int| 0 <= k < i ==> (#[trigger] self.jobs[k]).state != JobState::Failed
    }
}

/// The jobs of a batch of tasks.
pub struct Batch {
    tasks: Vec<DownloadTask>,
    jobs: Vec<Job>,
}

spec fn job_views(jobs: Seq<Job>) -> Seq<JobView> {
    Seq::new(jobs.len(), |i: int| jobs[i]@)
}

impl View for Batch {
    type V = BatchView;

    closed spec fn view(&self) -> BatchView {
        BatchView { tasks: self.tasks@, jobs: job_views(self.jobs@) }
    }
}

impl Downloader {
    /// Starts a batch: one job for each task, each waiting for its probe.
    pub fn download(&self, tasks: Vec<DownloadTask>) -> (batch: Batch)
        requires
            self@.workers >= 1,
        ensures
            batch@.tasks == tasks@,
            batch@.jobs == Seq::new(
                tasks@.len(),
                |i: int| JobView::fresh(self@.policy, self@.workers),
            ),
    {
        let mut jobs: Vec<Job> = Vec::new();
        let mut i: usize = 0;
        while i < tasks.len()
            invariant
                i <= tasks.len(),
                jobs.len() == i,
                self.workers >= 1,
                forall|k: int|
                    0 <= k < i ==> (#[trigger] jobs[k])@ == JobView::fresh(
                        self.policy,
                        self.workers as nat,
                    ),
            decreases tasks.len() - i,
        {
            jobs.push(Job::new(self.policy, self.workers));
            i = i + 1;
        }
        let batch = Batch { tasks, jobs };
        assert(batch@.jobs =~= Seq::new(
            tasks@.len(),
            |i: int| JobView::fresh(self@.policy, self@.workers),
        ));
        batch
    }
}

impl Batch {
    #[verifier::type_invariant]
    spec fn inv(&self) -> bool {
        self.tasks.len() == self.jobs.len()
    }

    /// The number of tasks.
    pub fn len(&self) -> (n: usize)
        ensures
            n == self@.tasks.len(),
            n == self@.jobs.len(),
    {
        proof {
            use_type_invariant(self);
        }
        self.tasks.len()
    }

    pub fn task(&self, index: usize) -> (task: &DownloadTask)
        requires
            index < self@.tasks.len(),
        ensures
            *task == self@.tasks[index as int],
    {
        &self.tasks[index]
    }

    pub fn job(&self, index: usize) -> (job: &Job)
        requires
            index < self@.jobs.len(),
        ensures
            job@ == self@.jobs[index as int],
    {
        &self.jobs[index]
    }

    /// What is to be done first: the probe of each task.
    pub fn start(&self) -> (actions: Vec<(usize, Action)>)
        ensures
            actions.len() == self@.jobs.len(),
            forall|i: int|
                0 <= i < actions.len() ==> (#[trigger] actions[i]).0 == i && actions[i].1@
                    == ActionView::Probe,
    {
        let mut actions: Vec<(usize, Action)> = Vec::new();
        let mut i: usize = 0;
        while i < self.jobs.len()
            invariant
                i <= self.jobs.len(),
                actions.len() == i,
                forall|k: int|
                    0 <= k < i ==> (#[trigger] actions[k]).0 == k && actions[k].1@
                        == ActionView::Probe,
            decreases self.jobs.len() - i,
        {
            actions.push((i, Action::Probe));
            i = i + 1;
        }
        actions
    }

    /// Tells the job of one task of an event, and returns what that job asks
    /// for. The other jobs are left as they are. An event for a task that the
    /// batch does not have changes nothing.
    pub fn handle(&mut self, task: usize, event: Event) -> (actions: Vec<Action>)
        ensures
            final(self)@.tasks == old(self)@.tasks,
            task < old(self)@.jobs.len() ==> final(self)@.jobs == old(self)@.jobs.update(
                task as int,
                old(self)@.jobs[task as int].after(event),
            ) && action_views(actions@) == old(self)@.jobs[task as int].response(event),
            task >= old(self)@.jobs.len() ==> final(self)@ == old(self)@ && actions@.len() == 0,
    {
        proof {
            use_type_invariant(&*self);
        }
        if task >= self.jobs.len() {
            return Vec::new();
        }
        let ghost before = self.jobs@;
        let mut job = Job::new(DownloadPolicy::DownloadAndSave, 1);
        let slot = &mut self.jobs[task];
        std::mem::swap(slot, &mut job);
        let (job, actions) = job.handle(event);
        self.jobs[task] = job;
        assert(self@.jobs =~= old(self)@.jobs.update(
            task as int,
            old(self)@.jobs[task as int].after(event),
        ));
        actions
    }

    /// How the batch ended, once every job has.
    pub fn outcome(&self) -> (r: Option<Result<(), AggregateError>>)
        ensures
            r == self@.outcome(),
    {
        let mut first: Option<AggregateError> = None;
        let mut i: usize = 0;
        while i < self.jobs.len()
            invariant
                i <= self.jobs.len(),
                forall|k: int| 0 <= k < i ==> ended(#[trigger] self@.jobs[k]),
                first.is_none() ==> forall|k: int|
                    0 <= k < i ==> (#[trigger] self@.jobs[k]).state != JobState::Failed,
                first matches Some(e) ==> e.task < i && self@.fails_first(e.task as int)
                    && e.error == self@.jobs[e.task as int].error.unwrap(),
            decreases self.jobs.len() - i,
        {
            assert(self@.jobs[i as int] == self.jobs[i as int]@);
            match self.jobs[i].result() {
                None => {
                    return None;
                },
                Some(Ok(())) => {},
                Some(Err(error)) => {
                    if first.is_none() {
                        first = Some(AggregateError { task: i, error });
                    }
                },
            }
            i = i + 1;
        }
        match first {
            None => Some(Ok(())),
            Some(e) => {
                proof {
                    let chosen = choose|i: int| self@.fails_first(i);
                    assert(self@.fails_first(e.task as int));
                    if chosen < e.task {
                        assert(self@.jobs[chosen].state != JobState::Failed);
                    } else if e.task < chosen {
                        assert(self@.jobs[e.task as int].state != JobState::Failed);
                    }
                }
                Some(Err(e))
            },
        }
    }
}

} // verus!
