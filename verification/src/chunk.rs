//! The chunk source: a cursor over a byte source of known length that plans
//! bounded reads. It performs no read itself. Each call names the window of
//! the source to fetch and moves the cursor past it, so that every byte is
//! handed out once.

use crate::error::ConfigError;
use vstd::prelude::*;

verus! {

/// A window of the byte source: `len` bytes, the first at `offset`.
#[derive(Clone, Copy, Debug, PartialEq, Eq, Structural)]
pub struct ReadWindow {
    pub offset: usize,
    pub len: usize,
}

/// What a chunk source is: the length of its byte source, the size of a
/// regular read, and the cursor, which is the number of bytes handed out.
pub struct ReaderState {
    pub source_len: nat,
    pub chunk_size: nat,
    pub cursor: nat,
}

/// The smaller of two numbers.
pub open spec fn smaller(a: nat, b: nat) -> nat {
    if a <= b {
        a
    } else {
        b
    }
}

impl ReaderState {
    /// The cursor lies within the source, the source's length is one that
    /// a machine can hold, and the chunk size is above zero unless the
    /// source is empty.
    pub open spec fn well_formed(self) -> bool {
        &&& self.cursor <= self.source_len <= usize::MAX
        &&& self.source_len > 0 ==> self.chunk_size > 0
    }

    /// The number of bytes not handed out yet.
    pub open spec fn remaining(self) -> nat {
        (self.source_len - self.cursor) as nat
    }

    /// The number of bytes that a read of up to `limit` bytes hands out.
    pub open spec fn granted(self, limit: nat) -> nat {
        smaller(limit, self.remaining())
    }

    /// The window that a read of up to `limit` bytes hands out: none once
    /// the cursor has reached the end of the source, else the bytes from the
    /// cursor on, as many as the limit and the source allow.
    pub open spec fn window(self, limit: nat) -> Option<ReadWindow> {
        if self.cursor >= self.source_len {
            None
        } else {
            Some(ReadWindow { offset: self.cursor as usize, len: self.granted(limit) as usize })
        }
    }

    /// The state after a read of up to `limit` bytes: the cursor has moved
    /// past the bytes handed out.
    pub open spec fn after_read(self, limit: nat) -> ReaderState {
        ReaderState { cursor: self.cursor + self.granted(limit), ..self }
    }

    /// The windows that successive regular reads hand out from this state
    /// on, until the source is exhausted.
    pub open spec fn chunk_windows(self) -> Seq<ReadWindow>
        decreases self.remaining(),
    {
        if self.cursor >= self.source_len || self.chunk_size == 0 {
            Seq::empty()
        } else {
            seq![self.window(self.chunk_size).unwrap()] + self.after_read(
                self.chunk_size,
            ).chunk_windows()
        }
    }
}

/// The windows follow one another from `from` to `to` without a gap and
/// without an overlap, and none of them is empty.
pub open spec fn tiles(windows: Seq<ReadWindow>, from: int, to: int) -> bool
    decreases windows.len(),
{
    if windows.len() == 0 {
        from == to
    } else {
        &&& windows[0].offset == from
        &&& windows[0].len > 0
        &&& tiles(windows.drop_first(), from + windows[0].len, to)
    }
}

/// The bytes of `content` that the windows select, joined in the windows'
/// order.
pub open spec fn selected(content: Seq<u8>, windows: Seq<ReadWindow>) -> Seq<u8>
    decreases windows.len(),
{
    if windows.len() == 0 {
        Seq::empty()
    } else {
        content.subrange(windows[0].offset as int, windows[0].offset + windows[0].len) + selected(
            content,
            windows.drop_first(),
        )
    }
}

/// Windows that follow one another from `from` to `to` select the bytes of
/// that range, each once and in order.
pub proof fn lemma_tiles_select(content: Seq<u8>, windows: Seq<ReadWindow>, from: int, to: int)
    requires
        tiles(windows, from, to),
        0 <= from,
        to <= content.len(),
    ensures
        from <= to,
        selected(content, windows) == content.subrange(from, to),
    decreases windows.len(),
{
    if windows.len() == 0 {
        assert(selected(content, windows) =~= content.subrange(from, to));
    } else {
        lemma_tiles_select(content, windows.drop_first(), from + windows[0].len, to);
        assert(selected(content, windows) =~= content.subrange(from, to));
    }
}

/// Regular reads alone hand out the whole rest of the source exactly once.
/// The windows of successive reads follow one another from the cursor to
/// the end of the source with no gap and no overlap, and the bytes they
/// select, joined in order, are the source's bytes from the cursor on: for
/// a fresh chunk source, the whole content.
pub proof fn lemma_chunks_cover_source(state: ReaderState, content: Seq<u8>)
    requires
        state.well_formed(),
        content.len() == state.source_len,
    ensures
        tiles(state.chunk_windows(), state.cursor as int, state.source_len as int),
        selected(content, state.chunk_windows()) == content.subrange(
            state.cursor as int,
            state.source_len as int,
        ),
        state.cursor == 0 ==> selected(content, state.chunk_windows()) == content,
{
    lemma_chunk_windows_tile(state);
    lemma_tiles_select(
        content,
        state.chunk_windows(),
        state.cursor as int,
        state.source_len as int,
    );
    if state.cursor == 0 {
        assert(content.subrange(0, state.source_len as int) =~= content);
    }
}

/// The windows of successive regular reads follow one another from the
/// cursor to the end of the source.
proof fn lemma_chunk_windows_tile(state: ReaderState)
    requires
        state.well_formed(),
    ensures
        tiles(state.chunk_windows(), state.cursor as int, state.source_len as int),
    decreases state.remaining(),
{
    if state.cursor < state.source_len {
        let next = state.after_read(state.chunk_size);
        lemma_chunk_windows_tile(next);
        assert(state.chunk_windows().drop_first() =~= next.chunk_windows());
    }
}

/// A cursor over a byte source of known length. It hands out windows of the
/// source, each starting where the last one ended.
pub struct ChunkedReader {
    source_len: usize,
    chunk_size: usize,
    consumed_bytes: usize,
}

impl View for ChunkedReader {
    type V = ReaderState;

    closed spec fn view(&self) -> ReaderState {
        ReaderState {
            source_len: self.source_len as nat,
            chunk_size: self.chunk_size as nat,
            cursor: self.consumed_bytes as nat,
        }
    }
}

impl ChunkedReader {
    #[verifier::type_invariant]
    spec fn valid(self) -> bool {
        &&& self.consumed_bytes <= self.source_len
        &&& self.source_len > 0 ==> self.chunk_size > 0
    }

    /// A chunk source at the start of a byte source of `source_len` bytes.
    /// A chunk size of zero is refused. A chunk size above the source's
    /// length is lowered to that length, once, here.
    pub fn new(source_len: usize, chunk_size: usize) -> (made: Result<ChunkedReader, ConfigError>)
        ensures
            chunk_size == 0 ==> (made matches Err(error) && error is NonPositiveChunkSize),
            chunk_size > 0 ==> (made matches Ok(reader) && reader@ == (ReaderState {
                source_len: source_len as nat,
                chunk_size: smaller(chunk_size as nat, source_len as nat),
                cursor: 0,
            }) && reader@.well_formed()),
    {
        if chunk_size == 0 {
            return Err(ConfigError::NonPositiveChunkSize);
        }
        let clamped: usize = if source_len < chunk_size {
            source_len
        } else {
            chunk_size
        };
        Ok(ChunkedReader { source_len, chunk_size: clamped, consumed_bytes: 0 })
    }

    /// The size of a regular read.
    pub fn chunk_size(&self) -> (size: usize)
        ensures
            size == self@.chunk_size,
            self@.well_formed(),
    {
        proof {
            use_type_invariant(self);
        }
        self.chunk_size
    }

    /// The length of the byte source.
    pub fn source_len(&self) -> (len: usize)
        ensures
            len == self@.source_len,
            self@.well_formed(),
    {
        proof {
            use_type_invariant(self);
        }
        self.source_len
    }

    /// The cursor: the number of bytes handed out so far.
    pub fn consumed_bytes(&self) -> (consumed: usize)
        ensures
            consumed == self@.cursor,
            self@.well_formed(),
    {
        proof {
            use_type_invariant(self);
        }
        self.consumed_bytes
    }

    /// Hands out up to `limit` bytes from the cursor on and moves the cursor
    /// past them.
    fn advance(&mut self, limit: usize) -> (window: Option<ReadWindow>)
        ensures
            old(self)@.well_formed(),
            window == old(self)@.window(limit as nat),
            final(self)@ == old(self)@.after_read(limit as nat),
    {
        proof {
            use_type_invariant(&*self);
        }
        if self.consumed_bytes == self.source_len {
            return None;
        }
        let remaining: usize = self.source_len - self.consumed_bytes;
        let len: usize = if limit < remaining {
            limit
        } else {
            remaining
        };
        let window = ReadWindow { offset: self.consumed_bytes, len };
        self.consumed_bytes = self.consumed_bytes + len;
        Some(window)
    }

    /// The next chunk: up to `chunk_size` bytes from the cursor on. Returns
    /// the window to fetch and moves the cursor past it; returns `None`,
    /// and changes nothing, once the cursor has reached the end of the
    /// source. The cursor never moves back and never passes the end.
    pub fn read_next_chunk(&mut self) -> (window: Option<ReadWindow>)
        ensures
            old(self)@.well_formed(),
            window == old(self)@.window(old(self)@.chunk_size),
            final(self)@ == old(self)@.after_read(old(self)@.chunk_size),
            old(self)@.cursor <= final(self)@.cursor <= final(self)@.source_len,
    {
        let limit = self.chunk_size;
        self.advance(limit)
    }

    /// A look ahead that consumes: up to `num_bytes` bytes from the cursor
    /// on. Like a regular read it moves the cursor past the window it
    /// returns, so the bytes it hands out are never handed out again; it
    /// returns `None`, and changes nothing, at the end of the source.
    pub fn peek_next_n_bytes(&mut self, num_bytes: usize) -> (window: Option<ReadWindow>)
        ensures
            old(self)@.well_formed(),
            window == old(self)@.window(num_bytes as nat),
            final(self)@ == old(self)@.after_read(num_bytes as nat),
            old(self)@.cursor <= final(self)@.cursor <= final(self)@.source_len,
    {
        self.advance(num_bytes)
    }
}

} // verus!
