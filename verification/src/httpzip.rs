//! A `Read + Seek` view over a remote file served with byte ranges.
//!
//! GitHub hands artifact downloads off to blob storage with a signed URL, and that
//! storage honours `Range`. Pointing the `zip` crate at one of these lets us pull a
//! handful of small config files out of a 700 MB pack instead of downloading it,
//! which is how the pristine "before" side of the merge is recovered on first run.
use vstd::prelude::*;
use vstd::string::*;

use crate::text::{decimal, decimal_of, parse_nat, u64_in};

verus! {

/// Blob storage rejects suffix ranges (`bytes=-N`), so every request is explicit.
pub const CHUNK: u64 = 1_048_576;

/// The place in a remote file, and one cached window of it.
#[derive(Debug)]
pub struct HttpRangeReader {
    len: u64,
    pos: u64,
    buf: Vec<u8>,
    buf_start: u64,
}

/// A reader as numbers and bytes.
pub struct ReaderView {
    pub len: int,
    pub pos: int,
    pub buf: Seq<u8>,
    pub buf_start: int,
}

impl View for HttpRangeReader {
    type V = ReaderView;

    closed spec fn view(&self) -> ReaderView {
        ReaderView {
            len: self.len as int,
            pos: self.pos as int,
            buf: self.buf@,
            buf_start: self.buf_start as int,
        }
    }
}

/// What a read needs first.
#[derive(Debug, Clone, Copy, PartialEq, Eq, Structural)]
pub enum Need {
    /// There is nothing to read.
    Nothing,
    /// Big sequential reads (entry payloads) bypass the window entirely: fetch
    /// these bytes, the last one included, and hand them over.
    Direct { start: u64, end: u64 },
    /// Fetch these bytes, the last one included, as the new window.
    Window { start: u64, end: u64 },
    /// The window has what is wanted.
    Ready,
}

pub open spec fn at_most(a: int, b: int) -> int {
    if a <= b {
        a
    } else {
        b
    }
}

impl ReaderView {
    /// The window holds the byte at the place.
    pub open spec fn in_window(self) -> bool {
        self.buf_start <= self.pos < self.buf_start + self.buf.len()
    }

    /// The first byte of the chunk that the place lies in.
    pub open spec fn chunk_start(self) -> int {
        (self.pos / 1_048_576) * 1_048_576
    }

    /// What a read of `n` bytes needs.
    pub open spec fn need(self, n: int) -> Need {
        if n == 0 || self.pos >= self.len {
            Need::Nothing
        } else if n >= 1_048_576 {
            Need::Direct {
                start: self.pos as u64,
                end: at_most(self.pos + n - 1, self.len - 1) as u64,
            }
        } else if self.in_window() {
            Need::Ready
        } else {
            Need::Window {
                start: self.chunk_start() as u64,
                end: at_most(self.chunk_start() + 1_048_576 - 1, self.len - 1) as u64,
            }
        }
    }

    /// The bytes that the window gives to a read of `n`.
    pub open spec fn given(self, n: int) -> Seq<u8> {
        let off = self.pos - self.buf_start;
        if self.in_window() {
            self.buf.subrange(off, off + at_most(n, self.buf.len() - off))
        } else {
            Seq::empty()
        }
    }

    /// The reader `n` bytes further on.
    pub open spec fn advanced(self, n: int) -> ReaderView {
        ReaderView { pos: self.pos + n, ..self }
    }

    /// The window holds what the file holds there.
    pub open spec fn shows(self, file: Seq<u8>) -> bool {
        &&& self.len == file.len()
        &&& 0 <= self.buf_start
        &&& self.buf.len() > 0 ==> self.buf_start + self.buf.len() <= file.len() && self.buf
            == file.subrange(self.buf_start, self.buf_start + self.buf.len())
    }
}

/// Where to go.
#[derive(Debug, Clone, Copy, PartialEq, Eq, Structural)]
pub enum Target {
    Start(u64),
    End(i64),
    Current(i64),
}

pub open spec fn place(r: ReaderView, to: Target) -> int {
    match to {
        Target::Start(v) => v as int,
        Target::End(v) => r.len + v,
        Target::Current(v) => r.pos + v,
    }
}

fn copy_out(from: &Vec<u8>, start: usize, n: usize) -> (r: Vec<u8>)
    requires
        start + n <= from.len(),
    ensures
        r@ == from@.subrange(start as int, start + n),
{
    let mut out: Vec<u8> = Vec::new();
    let mut i: usize = 0;
    while i < n
        invariant
            i <= n,
            start + n <= from.len(),
            out@ == from@.subrange(start as int, start + i),
        decreases n - i,
    {
        out.push(from[start + i]);
        assert(out@ =~= from@.subrange(start as int, start + i + 1));
        i += 1;
    }
    out
}

impl HttpRangeReader {
    pub closed spec fn wf(self) -> bool {
        &&& self.len <= i64::MAX
        &&& self.buf_start + self.buf.len() <= u64::MAX
    }

    /// A reader at the start of a remote file of that length.
    pub fn new(len: u64) -> (r: Self)
        requires
            len <= i64::MAX,
        ensures
            r.wf(),
            r@ == (ReaderView { len: len as int, pos: 0, buf: Seq::empty(), buf_start: 0 }),
    {
        HttpRangeReader { len, pos: 0, buf: Vec::new(), buf_start: 0 }
    }

    /// The place in the file.
    pub fn position(&self) -> (r: u64)
        ensures
            r == self@.pos,
    {
        self.pos
    }

    /// What a read of `n` bytes needs first.
    pub fn need(&self, n: usize) -> (r: Need)
        requires
            self.wf(),
        ensures
            r == self@.need(n as int),
    {
        if n == 0 || self.pos >= self.len {
            return Need::Nothing;
        }
        let n: u64 = n as u64;
        if n >= CHUNK {
            let end: u64 = if n <= self.len - self.pos {
                self.pos + (n - 1)
            } else {
                self.len - 1
            };
            return Need::Direct { start: self.pos, end };
        }
        if self.pos >= self.buf_start && self.pos < self.buf_start + self.buf.len() as u64 {
            return Need::Ready;
        }
        let start: u64 = (self.pos / CHUNK) * CHUNK;
        assert(start == self@.chunk_start());
        let end: u64 = if CHUNK <= self.len - start {
            start + (CHUNK - 1)
        } else {
            self.len - 1
        };
        Need::Window { start, end }
    }

    /// Take what was fetched as the new window.
    pub fn fill(self, start: u64, bytes: Vec<u8>) -> (r: Self)
        requires
            self.wf(),
            start + bytes.len() <= u64::MAX,
        ensures
            r.wf(),
            r@ == (ReaderView { buf: bytes@, buf_start: start as int, ..self@ }),
    {
        HttpRangeReader { len: self.len, pos: self.pos, buf: bytes, buf_start: start }
    }

    /// Read at most `n` bytes out of the window.
    pub fn take(self, n: usize) -> (r: (Self, Vec<u8>))
        requires
            self.wf(),
        ensures
            r.0.wf(),
            r.1@ == self@.given(n as int),
            r.0@ == self@.advanced(r.1@.len() as int),
    {
        let mut reader = self;
        if reader.pos < reader.buf_start || reader.pos - reader.buf_start
            >= reader.buf.len() as u64 {
            return (reader, Vec::new());
        }
        let off: usize = (reader.pos - reader.buf_start) as usize;
        let left: usize = reader.buf.len() - off;
        let n = if n <= left {
            n
        } else {
            left
        };
        let out = copy_out(&reader.buf, off, n);
        reader.pos = reader.pos + n as u64;
        (reader, out)
    }

    /// Hand over at most `n` of the bytes that were fetched past the window.
    pub fn hand_over(self, bytes: Vec<u8>, n: usize) -> (r: (Self, Vec<u8>))
        requires
            self.wf(),
            self@.pos + n <= u64::MAX,
        ensures
            r.0.wf(),
            r.1@ == bytes@.take(at_most(n as int, bytes@.len() as int)),
            r.0@ == self@.advanced(r.1@.len() as int),
    {
        let mut reader = self;
        let n = if n <= bytes.len() {
            n
        } else {
            bytes.len()
        };
        let out = copy_out(&bytes, 0, n);
        assert(bytes@.subrange(0, n as int) =~= bytes@.take(n as int));
        reader.pos = reader.pos + n as u64;
        (reader, out)
    }

    /// Go to a place; `None` if it lies before the start of the file or is too far
    /// to count.
    pub fn seek(&mut self, to: Target) -> (r: Option<u64>)
        requires
            old(self).wf(),
        ensures
            final(self).wf(),
            r is Some <==> 0 <= place(old(self)@, to) <= i64::MAX,
            r matches Some(at) ==> at == place(old(self)@, to) && final(self)@ == (ReaderView {
                pos: at as int,
                ..old(self)@
            }),
            r is None ==> final(self)@ == old(self)@,
    {
        let at: i128 = match to {
            Target::Start(v) => v as i128,
            Target::End(v) => self.len as i128 + v as i128,
            Target::Current(v) => self.pos as i128 + v as i128,
        };
        if at < 0 || at > 9_223_372_036_854_775_807 {
            return None;
        }
        self.pos = at as u64;
        Some(self.pos)
    }
}

// ---------------------------------------------------------------------------
// Requests and replies
// ---------------------------------------------------------------------------

/// The `Range` header for these bytes, the last one included.
pub fn range_header(start: u64, end: u64) -> (r: String)
    ensures
        r@ == "bytes="@ + decimal(start as nat) + "-"@ + decimal(end as nat),
{
    let mut out = "bytes=".to_owned();
    out.append(decimal_of(start).as_str());
    out.append("-");
    out.append(decimal_of(end).as_str());
    out
}

/// Whether a reply to a range request can be read.
pub fn range_accepted(status: u16) -> (r: bool)
    ensures
        r == (status == 206 || status == 200),
{
    status == 206 || status == 200
}

/// The length of a remote file, which it has to report.
pub fn content_length(header: Option<&str>) -> (r: Option<u64>)
    ensures
        r == (match header {
            Some(v) => match parse_nat(v@, u64::MAX as nat) {
                Some(n) => if n > 0 {
                    Some(n as u64)
                } else {
                    None
                },
                None => None,
            },
            None => None,
        }),
{
    match header {
        Some(v) => match u64_in(v) {
            Some(n) => if n > 0 {
                Some(n)
            } else {
                None
            },
            None => None,
        },
        None => None,
    }
}

/// What came of fetching a range.
#[derive(Debug)]
pub enum Fetched<E> {
    /// The bytes, from the address at hand.
    Bytes(Vec<u8>),
    /// The bytes, from a fresh address, which replaces the one at hand.
    Fresh { url: String, bytes: Vec<u8> },
    /// The request failed, and there was no fresh address to be had.
    Failed(E),
    /// The request failed, and so did asking for a fresh address.
    NoAddress(E),
    /// The request failed again at the fresh address, which replaces the one at
    /// hand.
    FailedAgain { url: String, error: E },
}

/// The request at an address may have come out like this.
pub open spec fn requested<E, R: Fn(&str) -> Result<Vec<u8>, E>>(
    request: R,
    url: Seq<char>,
    outcome: Result<Vec<u8>, E>,
) -> bool {
    exists|s: &str| s@ == url && #[trigger] call_ensures(request, (s,), outcome)
}

/// Fetch a range. Signed URLs are short-lived: where a request fails, ask for a
/// fresh one and retry once.
pub fn fetch<E, R: Fn(&str) -> Result<Vec<u8>, E>, S: Fn() -> Result<String, E>>(
    url: &str,
    request: R,
    refresh: Option<S>,
) -> (r: Fetched<E>)
    requires
        forall|s: &str| #[trigger] call_requires(request, (s,)),
        refresh matches Some(f) ==> call_requires(f, ()),
    ensures
        match r {
            Fetched::Bytes(bytes) => requested(request, url@, Ok(bytes)),
            Fetched::Failed(e) => refresh is None && requested(request, url@, Err(e)),
            Fetched::NoAddress(e) => {
                &&& refresh matches Some(f) && call_ensures(f, (), Err::<String, E>(e))
                &&& exists|first: E| #[trigger] requested(request, url@, Err(first))
            },
            Fetched::Fresh { url: fresh, bytes } => {
                &&& refresh matches Some(f) && call_ensures(f, (), Ok::<String, E>(fresh))
                &&& exists|first: E| #[trigger] requested(request, url@, Err(first))
                &&& requested(request, fresh@, Ok(bytes))
            },
            Fetched::FailedAgain { url: fresh, error } => {
                &&& refresh matches Some(f) && call_ensures(f, (), Ok::<String, E>(fresh))
                &&& exists|first: E| #[trigger] requested(request, url@, Err(first))
                &&& requested(request, fresh@, Err(error))
            },
        },
{
    let first = request(url);
    assert(requested(request, url@, first));
    match first {
        Ok(bytes) => Fetched::Bytes(bytes),
        Err(e) => {
            assert(requested(request, url@, Err(e)));
            match refresh {
                None => Fetched::Failed(e),
                Some(f) => {
                    match f() {
                        Err(e) => Fetched::NoAddress(e),
                        Ok(fresh) => {
                            let second = request(fresh.as_str());
                            assert(requested(request, fresh@, second));
                            match second {
                                Ok(bytes) => Fetched::Fresh { url: fresh, bytes },
                                Err(error) => Fetched::FailedAgain { url: fresh, error },
                            }
                        },
                    }
                },
            }
        },
    }
}

// ---------------------------------------------------------------------------
// Laws
// ---------------------------------------------------------------------------

/// What is fetched lies in the file, and a window covers the place.
pub proof fn law_ranges_lie_in_the_file(r: ReaderView, n: int)
    requires
        0 <= r.pos <= i64::MAX,
        r.len <= i64::MAX,
        0 <= n <= i64::MAX,
    ensures
        r.need(n) matches Need::Window { start, end } ==> start <= r.pos <= end < r.len,
        r.need(n) matches Need::Direct { start, end } ==> start == r.pos && r.pos <= end < r.len,
{
}

/// The reader gives the bytes of the file: whatever the window held, once what it
/// needs has been fetched, a read hands over bytes from the place on, at least
/// one of them where there is one, and goes on behind them.
pub proof fn law_reads_give_the_file(r: ReaderView, file: Seq<u8>, n: int)
    requires
        r.shows(file),
        0 <= r.pos <= i64::MAX,
        file.len() <= i64::MAX,
        0 < n <= i64::MAX,
        r.pos < file.len(),
    ensures
        match r.need(n) {
            Need::Nothing => false,
            Need::Ready => {
                let got = r.given(n);
                &&& 0 < got.len() <= n
                &&& got == file.subrange(r.pos, r.pos + got.len())
                &&& r.advanced(got.len() as int).shows(file)
            },
            Need::Window { start, end } => {
                let filled = ReaderView {
                    buf: file.subrange(start as int, end + 1),
                    buf_start: start as int,
                    ..r
                };
                let got = filled.given(n);
                &&& 0 < got.len() <= n
                &&& got == file.subrange(r.pos, r.pos + got.len())
                &&& filled.advanced(got.len() as int).shows(file)
            },
            Need::Direct { start, end } => {
                let bytes = file.subrange(start as int, end + 1);
                let got = bytes.take(at_most(n, bytes.len() as int));
                &&& 0 < got.len() <= n
                &&& got == file.subrange(r.pos, r.pos + got.len())
                &&& r.advanced(got.len() as int).shows(file)
            },
        },
{
    match r.need(n) {
        Need::Nothing => {},
        Need::Ready => {
            let got = r.given(n);
            assert(got =~= file.subrange(r.pos, r.pos + got.len()));
        },
        Need::Window { start, end } => {
            let filled = ReaderView {
                buf: file.subrange(start as int, end + 1),
                buf_start: start as int,
                ..r
            };
            let got = filled.given(n);
            assert(got =~= file.subrange(r.pos, r.pos + got.len()));
        },
        Need::Direct { start, end } => {
            let bytes = file.subrange(start as int, end + 1);
            let got = bytes.take(at_most(n, bytes.len() as int));
            assert(got =~= file.subrange(r.pos, r.pos + got.len()));
        },
    }
}

/// What a read asks for. Nothing where there is nothing to read; from one mebibyte on
/// exactly the bytes that are wanted; else the mebibyte round the place, as far as the
/// file goes, unless the window has the place already.
pub proof fn law_what_a_read_asks_for(r: ReaderView, n: int)
    requires
        0 <= r.pos <= i64::MAX,
        0 <= r.len <= i64::MAX,
        0 <= n <= i64::MAX,
    ensures
        n == 0 || r.pos >= r.len <==> r.need(n) == Need::Nothing,
        0 < n && r.pos < r.len && n >= 1_048_576 ==> (r.need(n) matches Need::Direct { start, end }
            && start == r.pos && (if r.pos + n <= r.len {
            end + 1 == r.pos + n
        } else {
            end + 1 == r.len
        })),
        0 < n < 1_048_576 && r.pos < r.len && r.buf_start <= r.pos < r.buf_start + r.buf.len()
            ==> r.need(n) == Need::Ready,
        0 < n < 1_048_576 && r.pos < r.len && !(r.buf_start <= r.pos < r.buf_start + r.buf.len())
            ==> (r.need(n) matches Need::Window { start, end } && start % 1_048_576 == 0 && start
            <= r.pos < start + 1_048_576 && (if start + 1_048_576 <= r.len {
            end + 1 == start + 1_048_576
        } else {
            end + 1 == r.len
        })),
{
}

/// A read out of the window gives all it can: what was asked for, or what the window
/// still has.
pub proof fn law_a_read_gives_all_it_can(r: ReaderView, n: int)
    requires
        n >= 0,
        r.buf_start <= r.pos < r.buf_start + r.buf.len(),
    ensures
        ({
            let left = r.buf_start + r.buf.len() - r.pos;
            &&& n <= left ==> r.given(n).len() == n
            &&& n > left ==> r.given(n).len() == left
            &&& forall|i: int|
                0 <= i < r.given(n).len() ==> #[trigger] r.given(n)[i] == r.buf[r.pos - r.buf_start
                    + i]
        }),
{
}

/// Places are counted from the start, from the end or from where the reader is.
pub proof fn law_where_a_reader_goes(r: ReaderView, v: i64, w: u64)
    ensures
        place(r, Target::Start(w)) == w,
        place(r, Target::End(v)) - v == r.len,
        place(r, Target::Current(v)) - v == r.pos,
{
}

/// A reply to a range request is read where it gives part of the file or all of it, and
/// in no other case.
pub proof fn law_which_replies_are_read(status: u16, r: bool)
    requires
        call_ensures(range_accepted, (status,), r),
    ensures
        r <==> status == 200 || status == 206,
{
}

/// The header names the first byte and the last one.
pub proof fn law_how_a_range_is_asked_for(start: u64, end: u64, r: String)
    requires
        call_ensures(range_header, (start, end), r),
    ensures
        r@ == "bytes="@ + decimal(start as nat) + "-"@ + decimal(end as nat),
{
}

/// A remote file has a length where it reports a number above zero, and then that one.
pub proof fn law_which_length_a_file_has(header: Option<&str>, r: Option<u64>, n: u64)
    requires
        call_ensures(content_length, (header,), r),
    ensures
        header is None ==> r is None,
        header is Some && n > 0 && header->0@ == decimal(n as nat) ==> r == Some(n),
        header is Some && header->0@ == decimal(0) ==> r is None,
        r is Some ==> header is Some && r->0 > 0 && parse_nat(header->0@, u64::MAX as nat) == Some(
            r->0 as nat,
        ),
{
    crate::text::lemma_parse_decimal(n as nat, u64::MAX as nat);
    crate::text::lemma_parse_decimal(0, u64::MAX as nat);
}

} // verus!
