//! One resource to download and the name of the file to write it to.

use vstd::prelude::*;

verus! {

#[derive(Debug)]
pub struct DownloadTask {
    pub url: String,
    pub filename: String,
}

impl Clone for DownloadTask {
    fn clone(&self) -> (task: Self)
        ensures
            task == *self,
    {
        DownloadTask { url: self.url.clone(), filename: self.filename.clone() }
    }
}

/// Why a URL does not make a task.
#[derive(Debug, Clone, Copy, PartialEq, Eq, Structural)]
pub enum TaskError {
    /// The text is not an absolute URL.
    InvalidUrl,
    /// The URL's path does not end in a name.
    NoFilename,
}

/// `reqwest::Url`: a parsed URL, of which the verifier sees nothing but the
/// segments of its path.
#[verifier::external_type_specification]
#[verifier::external_body]
pub struct ExUrl(reqwest::Url);

/// What parsing a text as an absolute URL gives, told by the segments of the
/// URL's path: nothing where the text is no such URL.
pub uninterp spec fn parsed_path(text: Seq<char>) -> Option<Option<Seq<Seq<char>>>>;

/// The segments of a URL's path, as far as it has any.
pub uninterp spec fn path_segments_of(url: reqwest::Url) -> Option<Seq<Seq<char>>>;

/// `Url::parse`: the URL that the text stands for, or nothing where the text
/// is not an absolute URL. The same text gives the same URL.
#[verifier::external_body]
fn parse_url(text: &str) -> (url: Option<reqwest::Url>)
    ensures
        match url {
            Some(u) => parsed_path(text@) == Some(path_segments_of(u)),
            None => parsed_path(text@).is_none(),
        },
{
    reqwest::Url::parse(text).ok()
}

/// `Url::path_segments`: the segments of the URL's path, in order, each as a
/// string of its own; nothing where the URL has no such path.
#[verifier::external_body]
fn path_segments(url: &reqwest::Url) -> (segments: Option<Vec<String>>)
    ensures
        texts(segments) == path_segments_of(*url),
{
    url.path_segments().map(|parts| parts.map(|part| part.to_owned()).collect())
}

/// What the strings hold.
pub open spec fn texts(segments: Option<Vec<String>>) -> Option<Seq<Seq<char>>> {
    match segments {
        Some(parts) => Some(Seq::new(parts@.len(), |i: int| parts@[i]@)),
        None => None,
    }
}

/// The name that a URL's path ends in: its last segment, where the path has
/// segments and the last one is not empty.
pub open spec fn filename_of(segments: Option<Seq<Seq<char>>>) -> Option<Seq<char>> {
    match segments {
        Some(parts) => if parts.len() > 0 && parts.last().len() > 0 {
            Some(parts.last())
        } else {
            None
        },
        None => None,
    }
}

impl DownloadTask {
    pub fn new(url: &str, filename: &str) -> (task: Self)
        ensures
            task.url@ == url@,
            task.filename@ == filename@,
    {
        DownloadTask { url: url.to_owned(), filename: filename.to_owned() }
    }

    /// The task for a URL whose path has the given segments: the file is named
    /// after the last segment.
    pub fn from_segments(url: &str, segments: Option<Vec<String>>) -> (r: Result<
        DownloadTask,
        TaskError,
    >)
        ensures
            match filename_of(texts(segments)) {
                Some(name) => r matches Ok(task) && task.url@ == url@ && task.filename@ == name,
                None => r matches Err(e) && e == TaskError::NoFilename,
            },
    {
        match segments {
            None => Err(TaskError::NoFilename),
            Some(mut parts) => {
                let ghost given = texts(Some(parts)).unwrap();
                let ghost n = parts@.len();
                match parts.pop() {
                    None => Err(TaskError::NoFilename),
                    Some(last) => {
                        assert(given.last() == given[n - 1]);
                        assert(given[n - 1] == last@);
                        if last.as_str().is_empty() {
                            Err(TaskError::NoFilename)
                        } else {
                            Ok(DownloadTask { url: url.to_owned(), filename: last })
                        }
                    },
                }
            },
        }
    }

    /// The task for a URL, with the file named after the last segment of the
    /// URL's path.
    pub fn from_str(s: &str) -> (r: Result<DownloadTask, TaskError>)
        ensures
            match parsed_path(s@) {
                None => r matches Err(e) && e == TaskError::InvalidUrl,
                Some(segments) => match filename_of(segments) {
                    Some(name) => r matches Ok(task) && task.url@ == s@ && task.filename@
                        == name,
                    None => r matches Err(e) && e == TaskError::NoFilename,
                },
            },
    {
        match parse_url(s) {
            None => Err(TaskError::InvalidUrl),
            Some(url) => DownloadTask::from_segments(s, path_segments(&url)),
        }
    }
}

} // verus!
