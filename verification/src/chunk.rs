//! One contiguous byte range of a resource and, once fetched, its bytes.

use vstd::prelude::*;
use vstd::string::*;
use crate::error::DownloadError;
use crate::file_image::{write_at, FileImage};
use crate::payload::{as_slice, contents};

verus! {

/// What a chunk is, mathematically: the range `[start, start + size)` of the
/// resource and the bytes that were fetched for it (none before the fetch).
pub struct ChunkView {
    pub start: nat,
    pub size: nat,
    pub data: Seq<u8>,
}

impl ChunkView {
    /// The first offset after the range.
    pub open spec fn end(self) -> nat {
        self.start + self.size
    }

    /// The range with no payload attached.
    pub open spec fn descriptor(self) -> ChunkView {
        ChunkView { start: self.start, size: self.size, data: Seq::empty() }
    }

    /// The payload is exactly as long as the range.
    pub open spec fn is_fetched(self) -> bool {
        self.data.len() == self.size
    }
}

/// What came back from the request for one chunk.
pub enum FetchOutcome {
    /// The response body.
    Body(bytes::Bytes),
    /// The request did not complete.
    TransportFailed,
}

/// What a chunk becomes when the outcome of its request comes in: the chunk
/// with the body as its payload where the body has the length of the range,
/// else the reason why the fetch failed.
pub open spec fn fetched(chunk: ChunkView, outcome: FetchOutcome) -> Result<
    ChunkView,
    DownloadError,
> {
    match outcome {
        FetchOutcome::TransportFailed => Err(DownloadError::TransportError),
        FetchOutcome::Body(body) => if contents(body).len() == chunk.size {
            Ok(ChunkView { start: chunk.start, size: chunk.size, data: contents(body) })
        } else {
            Err(
                DownloadError::SizeMismatch {
                    expected: chunk.size as usize,
                    got: contents(body).len() as usize,
                },
            )
        },
    }
}

/// The inclusive range of offsets to ask the server for; an empty range has
/// none.
pub open spec fn byte_range_of(chunk: ChunkView) -> Option<(nat, nat)> {
    if chunk.size == 0 {
        None
    } else {
        Some((chunk.start, (chunk.end() - 1) as nat))
    }
}

/// The character of a decimal digit.
pub open spec fn digit(d: nat) -> char
    recommends
        d < 10,
{
    if d == 0 {
        '0'
    } else if d == 1 {
        '1'
    } else if d == 2 {
        '2'
    } else if d == 3 {
        '3'
    } else if d == 4 {
        '4'
    } else if d == 5 {
        '5'
    } else if d == 6 {
        '6'
    } else if d == 7 {
        '7'
    } else if d == 8 {
        '8'
    } else {
        '9'
    }
}

/// A number written in decimal digits, without sign or leading zeros.
pub open spec fn decimal(n: nat) -> Seq<char>
    decreases n,
{
    if n < 10 {
        seq![digit(n)]
    } else {
        decimal(n / 10).push(digit(n % 10))
    }
}

/// The value of the `Range` header of the request for a chunk: `bytes=`, the
/// first offset, `-`, the last offset. An empty chunk is requested without
/// such a header.
pub open spec fn range_header_of(chunk: ChunkView) -> Option<Seq<char>> {
    match byte_range_of(chunk) {
        None => None,
        Some((first, last)) => Some("bytes="@ + decimal(first) + "-"@ + decimal(last)),
    }
}

fn digit_str(d: usize) -> (s: &'static str)
    requires
        d < 10,
    ensures
        s@ == seq![digit(d as nat)],
{
    proof {
        reveal_strlit("0");
        reveal_strlit("1");
        reveal_strlit("2");
        reveal_strlit("3");
        reveal_strlit("4");
        reveal_strlit("5");
        reveal_strlit("6");
        reveal_strlit("7");
        reveal_strlit("8");
        reveal_strlit("9");
    }
    let s = if d == 0 {
        "0"
    } else if d == 1 {
        "1"
    } else if d == 2 {
        "2"
    } else if d == 3 {
        "3"
    } else if d == 4 {
        "4"
    } else if d == 5 {
        "5"
    } else if d == 6 {
        "6"
    } else if d == 7 {
        "7"
    } else if d == 8 {
        "8"
    } else {
        "9"
    };
    assert(s@ =~= seq![digit(d as nat)]);
    s
}

/// Writes a number in decimal digits.
pub fn decimal_string(n: usize) -> (s: String)
    ensures
        s@ == decimal(n as nat),
    decreases n,
{
    if n < 10 {
        digit_str(n).to_owned()
    } else {
        let mut s = decimal_string(n / 10);
        s.append(digit_str(n % 10));
        assert(s@ =~= decimal((n / 10) as nat).push(digit((n % 10) as nat)));
        s
    }
}

pub struct Chunk {
    data: bytes::Bytes,
    start: usize,
    chunk_size: usize,
}

impl View for Chunk {
    type V = ChunkView;

    closed spec fn view(&self) -> ChunkView {
        ChunkView {
            start: self.start as nat,
            size: self.chunk_size as nat,
            data: contents(self.data),
        }
    }
}

impl Chunk {
    #[verifier::type_invariant]
    spec fn range_fits(&self) -> bool {
        &&& self.start + self.chunk_size <= usize::MAX
        &&& contents(self.data).len() == 0 || contents(self.data).len() == self.chunk_size
    }

    /// A chunk for the range `[start, start + chunk_size)`, not yet fetched.
    pub fn new(start: usize, chunk_size: usize) -> (c: Chunk)
        requires
            start + chunk_size <= usize::MAX,
        ensures
            c@ == (ChunkView { start: start as nat, size: chunk_size as nat, data: Seq::empty() }),
    {
        Chunk { data: bytes::Bytes::new(), start, chunk_size }
    }

    pub fn data(&self) -> (d: &bytes::Bytes)
        ensures
            contents(*d) == self@.data,
    {
        &self.data
    }

    pub fn start(&self) -> (s: usize)
        ensures
            s == self@.start,
            self@.end() <= usize::MAX,
    {
        proof {
            use_type_invariant(self);
        }
        self.start
    }

    pub fn chunk_size(&self) -> (n: usize)
        ensures
            n == self@.size,
            self@.end() <= usize::MAX,
    {
        proof {
            use_type_invariant(self);
        }
        self.chunk_size
    }

    /// The first offset after the range.
    pub fn end(&self) -> (e: usize)
        ensures
            e == self@.end(),
    {
        proof {
            use_type_invariant(self);
        }
        self.start + self.chunk_size
    }

    /// The inclusive range of offsets to ask the server for: first and last
    /// byte. An empty chunk has no such range.
    pub fn byte_range(&self) -> (r: Option<(usize, usize)>)
        ensures
            match byte_range_of(self@) {
                None => r.is_none(),
                Some((first, last)) => r == Some((first as usize, last as usize)),
            },
    {
        proof {
            use_type_invariant(self);
        }
        if self.chunk_size == 0 {
            None
        } else {
            Some((self.start, self.start + (self.chunk_size - 1)))
        }
    }

    /// The value of the `Range` header of the request for this chunk.
    pub fn range_header(&self) -> (r: Option<String>)
        ensures
            match range_header_of(self@) {
                None => r.is_none(),
                Some(text) => r matches Some(s) && s@ == text,
            },
    {
        proof {
            use_type_invariant(self);
        }
        match self.byte_range() {
            None => None,
            Some((first, last)) => {
                let mut s = "bytes=".to_owned();
                s.append(decimal_string(first).as_str());
                s.append("-");
                s.append(decimal_string(last).as_str());
                assert(s@ =~= range_header_of(self@).unwrap());
                Some(s)
            },
        }
    }

    /// Takes in what the request for this chunk brought. A body of any other
    /// length than the range is refused: nothing is cut off or filled up.
    pub fn download(self, outcome: FetchOutcome) -> (r: Result<Chunk, DownloadError>)
        ensures
            match fetched(self@, outcome) {
                Ok(v) => r matches Ok(c) && c@ == v,
                Err(e) => r == Err::<Chunk, _>(e),
            },
    {
        proof {
            use_type_invariant(&self);
        }
        match outcome {
            FetchOutcome::TransportFailed => Err(DownloadError::TransportError),
            FetchOutcome::Body(body) => {
                let got = body.len();
                if got == self.chunk_size {
                    Ok(Chunk { data: body, start: self.start, chunk_size: self.chunk_size })
                } else {
                    Err(DownloadError::SizeMismatch { expected: self.chunk_size, got })
                }
            },
        }
    }

    /// Writes the payload into the file at the chunk's start.
    pub fn save(&self, file: &mut FileImage)
        ensures
            final(file)@ == write_at(old(file)@, self@.start, self@.data),
    {
        proof {
            use_type_invariant(self);
        }
        file.write_at(self.start, as_slice(&self.data));
    }

    /// Takes in what the request for this chunk brought and, where that is its
    /// payload, writes it into the file. After a failed fetch nothing is
    /// written.
    pub fn download_and_save(self, outcome: FetchOutcome, file: &mut FileImage) -> (r: Result<
        (),
        DownloadError,
    >)
        ensures
            match fetched(self@, outcome) {
                Ok(chunk) => r.is_ok() && final(file)@ == write_at(
                    old(file)@,
                    chunk.start,
                    chunk.data,
                ),
                Err(error) => r == Err::<(), _>(error) && final(file)@ == old(file)@,
            },
    {
        match self.download(outcome) {
            Ok(chunk) => {
                chunk.save(file);
                Ok(())
            },
            Err(error) => Err(error),
        }
    }
}

} // verus!
