//! The names that most callers need.

pub use crate::download_task::DownloadTask;
pub use crate::downloader::{DownloadPolicy, Downloader, DownloaderBuilder};
