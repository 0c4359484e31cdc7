//! Downloads resources over HTTP in byte ranges: plans the ranges, checks what
//! was fetched, and decides what is written where and when a job is done.
//!
//! The library sends no request and touches no file. It is told what came of
//! each request and each write, and says what is to be done next:
//!
//! - [`chunks`] cuts a resource into ranges that cover it exactly;
//! - [`chunk`] is one such range, takes in the body that was fetched for it,
//!   and refuses a body of another length;
//! - [`chunk_vec`] is a set of fetched chunks and checks that it is complete;
//! - [`file_image`] says what writes at offsets do to a file, in whatever
//!   order they come;
//! - [`job`] is the job of one resource, from the probe to the check of the
//!   file's size, and [`downloader`] the batch of the jobs of all tasks;
//! - [`metadata`] reads the probe's headers, [`download_task`] names a task.

pub mod chunk;
pub mod chunk_vec;
pub mod chunks;
pub mod download_task;
pub mod downloader;
pub mod error;
pub mod file_image;
pub mod job;
pub mod metadata;
pub mod payload;
pub mod prelude;
pub mod tiling;
