//! Shared, sliceable, read-only views over an immutable byte buffer.

use crate::error::StoreError;
use std::sync::Arc;
use vstd::prelude::*;
use vstd::slice::slice_subrange;
use vstd::slice::slice_to_vec;

verus! {

/// An immutable byte buffer behind a reference count: every clone shares the
/// same bytes, and the bytes live as long as any clone does.
pub struct BoxedData {
    bytes: Arc<Vec<u8>>,
}

impl View for BoxedData {
    type V = Seq<u8>;

    closed spec fn view(&self) -> Seq<u8> {
        self.bytes@
    }
}

impl BoxedData {
    pub fn new(data: Arc<Vec<u8>>) -> (r: Self)
        ensures
            r@ == data@,
    {
        BoxedData { bytes: data }
    }

    /// The number of bytes in the buffer.
    pub fn len(&self) -> (n: usize)
        ensures
            n == self@.len(),
    {
        self.bytes.len()
    }

    /// The reference-counted buffer itself, for what has to hold or watch
    /// it without going through a source.
    pub fn shared(&self) -> (shared: &Arc<Vec<u8>>)
        ensures
            shared@ == self@,
    {
        &self.bytes
    }

    /// The whole buffer.
    pub fn as_ref(&self) -> (s: &[u8])
        ensures
            s@ == self@,
    {
        self.bytes.as_slice()
    }
}

impl std::ops::Deref for BoxedData {
    type Target = [u8];

    fn deref(&self) -> (s: &[u8])
        ensures
            s@ == self@,
    {
        self.bytes.as_slice()
    }
}

impl Clone for BoxedData {
    /// Another handle on the same bytes; nothing is copied.
    fn clone(&self) -> (r: Self)
        ensures
            r@ == self@,
    {
        BoxedData { bytes: self.bytes.clone() }
    }
}

/// Where a seek starts from. `Start` counts from the start of the window,
/// `End` from its end, `Current` from the cursor.
#[derive(Clone, Copy, Debug, PartialEq, Eq, Structural)]
pub enum SeekFrom {
    Start(u64),
    End(i64),
    Current(i64),
}

/// A window `[start, stop)` into a shared buffer, with a cursor inside it.
///
/// Slicing gives a new window on the same buffer and copies nothing. The
/// bytes outside the window are never handed out.
pub struct ReadOnlySource {
    data: BoxedData,
    start: usize,
    stop: usize,
    pos: usize,
}

impl View for ReadOnlySource {
    type V = Seq<u8>;

    /// The bytes of the window.
    open spec fn view(&self) -> Seq<u8> {
        self.buffer().subrange(self.start(), self.stop())
    }
}

impl ReadOnlySource {
    /// The whole shared buffer.
    pub closed spec fn buffer(&self) -> Seq<u8> {
        self.data@
    }

    /// Where the window starts in the buffer.
    pub closed spec fn start(&self) -> int {
        self.start as int
    }

    /// Where the window stops in the buffer.
    pub closed spec fn stop(&self) -> int {
        self.stop as int
    }

    /// The cursor, counted from the start of the buffer.
    pub closed spec fn position(&self) -> int {
        self.pos as int
    }

    /// The window lies in the buffer and the cursor in the window.
    pub open spec fn wf(&self) -> bool {
        0 <= self.start() <= self.position() <= self.stop() <= self.buffer().len()
    }

    /// `self` is the window `[from, to)` of `parent`, counted from the start
    /// of `parent`'s window, with the cursor at its start.
    pub open spec fn is_slice_of(&self, parent: &ReadOnlySource, from: int, to: int) -> bool {
        &&& self.buffer() == parent.buffer()
        &&& self.start() == parent.start() + from
        &&& self.stop() == parent.start() + to
        &&& self.position() == self.start()
    }

    /// `self` differs from `other` by the cursor at most.
    pub open spec fn same_window(&self, other: &ReadOnlySource) -> bool {
        &&& self.buffer() == other.buffer()
        &&& self.start() == other.start()
        &&& self.stop() == other.stop()
    }

    /// Where a seek from `origin` leads, counted from the start of the buffer.
    pub open spec fn seek_target(&self, origin: SeekFrom) -> int {
        match origin {
            SeekFrom::Start(n) => self.start() + n,
            SeekFrom::End(n) => self.stop() + n,
            SeekFrom::Current(n) => self.position() + n,
        }
    }

    /// A source over the whole of `data`.
    pub fn new(data: Vec<u8>) -> (r: ReadOnlySource)
        ensures
            r.wf(),
            r.buffer() == data@,
            r.start() == 0,
            r.stop() == data@.len(),
            r.position() == 0,
            r@ == data@,
    {
        let len = data.len();
        ReadOnlySource { data: BoxedData::new(Arc::new(data)), start: 0, stop: len, pos: 0 }
    }

    /// A source over no bytes: an empty buffer, with the empty window and
    /// the cursor at its start.
    pub fn empty() -> (r: ReadOnlySource)
        ensures
            r.wf(),
            r.buffer() == Seq::<u8>::empty(),
            r.start() == 0,
            r.stop() == 0,
            r.position() == 0,
            r@ == Seq::<u8>::empty(),
    {
        ReadOnlySource::new(Vec::new())
    }

    /// The number of bytes in the window.
    pub fn len(&self) -> (n: usize)
        requires
            self.wf(),
        ensures
            n == self@.len(),
            n == self.stop() - self.start(),
    {
        self.stop - self.start
    }

    /// The bytes of the window.
    pub fn as_slice(&self) -> (s: &[u8])
        requires
            self.wf(),
        ensures
            s@ == self@,
    {
        slice_subrange(self.data.as_ref(), self.start, self.stop)
    }

    /// The window `[start, stop)` of this one, on the same buffer.
    pub fn slice(&self, start: usize, stop: usize) -> (r: ReadOnlySource)
        requires
            self.wf(),
            start <= stop <= self@.len(),
        ensures
            r.wf(),
            r.is_slice_of(self, start as int, stop as int),
            r@ == self@.subrange(start as int, stop as int),
    {
        let r = ReadOnlySource {
            data: self.data.clone(),
            start: self.start + start,
            stop: self.start + stop,
            pos: self.start + start,
        };
        assert(r@ =~= self@.subrange(start as int, stop as int));
        r
    }

    /// The window from `from_offset` to the end of this one.
    pub fn slice_from(&self, from_offset: usize) -> (r: ReadOnlySource)
        requires
            self.wf(),
            from_offset <= self@.len(),
        ensures
            r.wf(),
            r.is_slice_of(self, from_offset as int, self@.len() as int),
            r@ == self@.skip(from_offset as int),
    {
        self.slice(from_offset, self.len())
    }

    /// The window from the start of this one to `to_offset`.
    pub fn slice_to(&self, to_offset: usize) -> (r: ReadOnlySource)
        requires
            self.wf(),
            to_offset <= self@.len(),
        ensures
            r.wf(),
            r.is_slice_of(self, 0, to_offset as int),
            r@ == self@.take(to_offset as int),
    {
        self.slice(0, to_offset)
    }

    /// The two windows on either side of `addr`.
    pub fn split(self, addr: usize) -> (r: (ReadOnlySource, ReadOnlySource))
        requires
            self.wf(),
            addr <= self@.len(),
        ensures
            r.0.wf(),
            r.1.wf(),
            r.0.is_slice_of(&self, 0, addr as int),
            r.1.is_slice_of(&self, addr as int, self@.len() as int),
            r.0@ == self@.take(addr as int),
            r.1@ == self@.skip(addr as int),
            r.0@ + r.1@ == self@,
    {
        let left = self.slice(0, addr);
        let right = self.slice_from(addr);
        assert(left@ + right@ =~= self@);
        (left, right)
    }

    /// Copies bytes from the cursor on into the front of `buf`, as many as
    /// `buf` takes and the window still has, and moves the cursor past them.
    pub fn read(&mut self, buf: &mut [u8]) -> (r: Result<usize, StoreError>)
        requires
            old(self).wf(),
        ensures
            final(self).wf(),
            final(self).same_window(old(self)),
            r matches Ok(n) && {
                &&& n == if old(buf)@.len() <= old(self).stop() - old(self).position() {
                    old(buf)@.len() as int
                } else {
                    old(self).stop() - old(self).position()
                }
                &&& final(self).position() == old(self).position() + n
                &&& final(buf)@ == old(self).buffer().subrange(
                    old(self).position(),
                    old(self).position() + n,
                ) + old(buf)@.skip(n as int)
            },
    {
        let left = self.stop - self.pos;
        let n: usize = if buf.len() <= left { buf.len() } else { left };
        let src = self.data.as_ref();
        let mut k: usize = 0;
        while k < n
            invariant
                k <= n <= buf@.len(),
                buf@.len() == old(buf)@.len(),
                self.pos + n <= self.stop <= src@.len(),
                src@ == self.data@,
                *self == *old(self),
                buf@ == src@.subrange(self.pos as int, self.pos + k) + old(buf)@.skip(k as int),
            decreases n - k,
        {
            buf[k] = src[self.pos + k];
            k = k + 1;
            assert(buf@ =~= src@.subrange(self.pos as int, self.pos + k) + old(buf)@.skip(
                k as int,
            ));
        }
        self.pos = self.pos + n;
        Ok(n)
    }

    /// Moves the cursor. The target must lie in the window, its end included;
    /// the result is the new cursor, counted from the start of the buffer.
    pub fn seek(&mut self, origin: SeekFrom) -> (r: Result<u64, StoreError>)
        requires
            old(self).wf(),
        ensures
            final(self).wf(),
            final(self).same_window(old(self)),
            match r {
                Ok(p) => {
                    &&& old(self).start() <= old(self).seek_target(origin) <= old(self).stop()
                    &&& p == old(self).seek_target(origin)
                    &&& final(self).position() == old(self).seek_target(origin)
                },
                Err(e) => {
                    &&& e == StoreError::BoundsViolation
                    &&& !(old(self).start() <= old(self).seek_target(origin) <= old(self).stop())
                    &&& *final(self) == *old(self)
                },
            },
    {
        match origin {
            SeekFrom::Start(n) => {
                if n > (self.stop - self.start) as u64 {
                    return Err(StoreError::BoundsViolation);
                }
                self.pos = self.start + n as usize;
            },
            SeekFrom::End(n) => {
                if n > 0 {
                    return Err(StoreError::BoundsViolation);
                }
                let back: u64 = if n == 0 { 0 } else { (-(n + 1)) as u64 + 1 };
                if back > (self.stop - self.start) as u64 {
                    return Err(StoreError::BoundsViolation);
                }
                self.pos = self.stop - back as usize;
            },
            SeekFrom::Current(n) => {
                if n >= 0 {
                    if n as u64 > (self.stop - self.pos) as u64 {
                        return Err(StoreError::BoundsViolation);
                    }
                    self.pos = self.pos + n as usize;
                } else {
                    let back: u64 = (-(n + 1)) as u64 + 1;
                    if back > (self.pos - self.start) as u64 {
                        return Err(StoreError::BoundsViolation);
                    }
                    self.pos = self.pos - back as usize;
                }
            },
        }
        Ok(self.pos as u64)
    }

    /// The bytes from the cursor to the end of the window; the cursor goes
    /// back to the start of the window.
    pub fn read_all(&mut self) -> (r: Result<Vec<u8>, StoreError>)
        requires
            old(self).wf(),
        ensures
            final(self).wf(),
            final(self).same_window(old(self)),
            final(self).position() == old(self).start(),
            r matches Ok(bytes) && bytes@ == old(self).buffer().subrange(
                old(self).position(),
                old(self).stop(),
            ),
    {
        let bytes = slice_to_vec(slice_subrange(self.data.as_ref(), self.pos, self.stop));
        self.pos = self.start;
        Ok(bytes)
    }

    /// The bytes of the window from `size` on; the cursor stays.
    pub fn read_after_skip(&mut self, size: usize) -> (r: Result<Vec<u8>, StoreError>)
        requires
            old(self).wf(),
        ensures
            *final(self) == *old(self),
            match r {
                Ok(bytes) => size <= old(self)@.len() && bytes@ == old(self)@.skip(size as int),
                Err(e) => e == StoreError::BoundsViolation && size > old(self)@.len(),
            },
    {
        if size > self.stop - self.start {
            return Err(StoreError::BoundsViolation);
        }
        let bytes = slice_to_vec(slice_subrange(self.data.as_ref(), self.start + size, self.stop));
        assert(bytes@ =~= self@.skip(size as int));
        Ok(bytes)
    }

    /// The byte at `idx` of the window; the cursor stays.
    pub fn get(&mut self, idx: usize) -> (r: Result<u8, StoreError>)
        requires
            old(self).wf(),
        ensures
            *final(self) == *old(self),
            match r {
                Ok(b) => idx < old(self)@.len() && b == old(self)@[idx as int],
                Err(e) => e == StoreError::BoundsViolation && idx >= old(self)@.len(),
            },
    {
        if idx >= self.stop - self.start {
            return Err(StoreError::BoundsViolation);
        }
        let src = self.data.as_ref();
        Ok(src[self.start + idx])
    }
}

impl Clone for ReadOnlySource {
    /// The same window on the same buffer, with a cursor of its own at the
    /// start of the window.
    fn clone(&self) -> (r: Self)
        ensures
            r.same_window(self),
            r.position() == r.start(),
            self.wf() ==> r.wf(),
            r@ == self@,
    {
        ReadOnlySource {
            data: self.data.clone(),
            start: self.start,
            stop: self.stop,
            pos: self.start,
        }
    }
}

impl From<BoxedData> for ReadOnlySource {
    /// A source over the whole of `data`.
    fn from(data: BoxedData) -> (r: ReadOnlySource)
        ensures
            r.wf(),
            r.buffer() == data@,
            r.start() == 0,
            r.stop() == data@.len(),
            r.position() == 0,
            r@ == data@,
    {
        let len = data.len();
        ReadOnlySource { data, start: 0, stop: len, pos: 0 }
    }
}

impl vstd::std_specs::convert::FromSpecImpl<BoxedData> for ReadOnlySource {
    open spec fn obeys_from_spec() -> bool {
        true
    }

    closed spec fn from_spec(data: BoxedData) -> ReadOnlySource {
        ReadOnlySource { data, start: 0, stop: data@.len() as usize, pos: 0 }
    }
}

impl From<Vec<u8>> for ReadOnlySource {
    /// A source over the whole of `data`.
    fn from(data: Vec<u8>) -> (r: ReadOnlySource)
        ensures
            r.wf(),
            r.buffer() == data@,
            r.start() == 0,
            r.stop() == data@.len(),
            r.position() == 0,
            r@ == data@,
    {
        ReadOnlySource::new(data)
    }
}

/// What `from` gives for a vector is stated by its own `ensures`: the buffer
/// it allocates has no spec-level constructor to name it by.
impl vstd::std_specs::convert::FromSpecImpl<Vec<u8>> for ReadOnlySource {
    open spec fn obeys_from_spec() -> bool {
        false
    }

    closed spec fn from_spec(data: Vec<u8>) -> ReadOnlySource {
        arbitrary()
    }
}

/// Slicing a slice is slicing the source: for `a <= b <= c <= d` within `s`,
/// the window `[b - a, c - a)` of the window `[a, d)` of `s` is the window
/// `[b, c)` of `s`, with the same bytes.
pub proof fn lemma_slice_composition(
    s: ReadOnlySource,
    outer: ReadOnlySource,
    inner: ReadOnlySource,
    direct: ReadOnlySource,
    a: int,
    b: int,
    c: int,
    d: int,
)
    requires
        s.wf(),
        0 <= a <= b <= c <= d <= s@.len(),
        outer.is_slice_of(&s, a, d),
        inner.is_slice_of(&outer, b - a, c - a),
        direct.is_slice_of(&s, b, c),
    ensures
        inner.same_window(&direct),
        inner.position() == direct.position(),
        inner@ == direct@,
        inner@ == s@.subrange(b, c),
{
    assert(inner@ =~= s@.subrange(b, c));
}

/// A source that consumes what it reads: every read moves the start of the
/// window past the bytes it returned, so they cannot be read again.
pub struct AdvancingReadOnlySource(ReadOnlySource);

impl View for AdvancingReadOnlySource {
    type V = Seq<u8>;

    /// The bytes that are left.
    open spec fn view(&self) -> Seq<u8> {
        self.source()@
    }
}

impl AdvancingReadOnlySource {
    /// The window that is left, as a plain source.
    pub closed spec fn source(&self) -> ReadOnlySource {
        self.0
    }

    pub open spec fn wf(&self) -> bool {
        self.source().wf()
    }

    /// `self` is `earlier` with the first `n` bytes of its window gone and
    /// the cursor at the new start.
    pub open spec fn is_advanced_from(&self, earlier: &AdvancingReadOnlySource, n: int) -> bool {
        &&& self.source().buffer() == earlier.source().buffer()
        &&& self.source().start() == earlier.source().start() + n
        &&& self.source().stop() == earlier.source().stop()
        &&& self.source().position() == self.source().start()
    }

    /// A consuming source with nothing left: an empty buffer, with the
    /// empty window and the cursor at its start.
    pub fn empty() -> (r: AdvancingReadOnlySource)
        ensures
            r.wf(),
            r.source().buffer() == Seq::<u8>::empty(),
            r.source().start() == 0,
            r.source().stop() == 0,
            r.source().position() == 0,
            r@ == Seq::<u8>::empty(),
    {
        AdvancingReadOnlySource(ReadOnlySource::empty())
    }

    /// The bytes that are left.
    pub fn as_ref(&self) -> (s: &[u8])
        requires
            self.wf(),
        ensures
            s@ == self@,
    {
        self.0.as_slice()
    }

    /// The number of bytes that are left.
    pub fn len(&self) -> (n: usize)
        requires
            self.wf(),
        ensures
            n == self@.len(),
    {
        self.0.len()
    }

    /// Drops the first `clip_len` bytes of the window and puts the cursor at
    /// the new start.
    pub fn advance(&mut self, clip_len: usize)
        requires
            old(self).wf(),
            clip_len <= old(self)@.len(),
        ensures
            final(self).wf(),
            final(self).is_advanced_from(old(self), clip_len as int),
            final(self)@ == old(self)@.skip(clip_len as int),
    {
        self.0.start = self.0.start + clip_len;
        self.0.pos = self.0.start;
        assert(self@ =~= old(self)@.skip(clip_len as int));
    }

    /// The two consuming sources on either side of `addr`.
    pub fn split(self, addr: usize) -> (r: (AdvancingReadOnlySource, AdvancingReadOnlySource))
        requires
            self.wf(),
            addr <= self@.len(),
        ensures
            r.0.wf(),
            r.1.wf(),
            r.0.source().is_slice_of(&self.source(), 0, addr as int),
            r.1.source().is_slice_of(&self.source(), addr as int, self@.len() as int),
            r.0@ == self@.take(addr as int),
            r.1@ == self@.skip(addr as int),
    {
        let (left, right) = self.0.split(addr);
        (AdvancingReadOnlySource(left), AdvancingReadOnlySource(right))
    }

    /// The byte at `idx` of what is left; nothing is consumed.
    pub fn get(&mut self, idx: usize) -> (b: u8)
        requires
            old(self).wf(),
            idx < old(self)@.len(),
        ensures
            *final(self) == *old(self),
            b == old(self)@[idx as int],
    {
        match self.0.get(idx) {
            Ok(b) => b,
            Err(_) => 0,
        }
    }

    /// The bytes from the cursor to the end of the window; nothing is
    /// consumed, and the cursor goes back to the start of the window.
    pub fn read_all(&mut self) -> (r: Result<Vec<u8>, StoreError>)
        requires
            old(self).wf(),
        ensures
            final(self).wf(),
            final(self).is_advanced_from(old(self), 0),
            r matches Ok(bytes) && bytes@ == old(self).source().buffer().subrange(
                old(self).source().position(),
                old(self).source().stop(),
            ),
    {
        self.0.read_all()
    }

    /// Copies bytes from the cursor on into the front of `buf`, as `read`
    /// does, and consumes nothing: the source is left as it was.
    pub fn read_without_advancing(&mut self, buf: &mut [u8]) -> (r: Result<usize, StoreError>)
        requires
            old(self).wf(),
        ensures
            final(self).source().same_window(&old(self).source()),
            final(self).source().position() == old(self).source().position(),
            r matches Ok(n) && {
                &&& n == if old(buf)@.len() <= old(self).source().stop() - old(
                    self,
                ).source().position() {
                    old(buf)@.len() as int
                } else {
                    old(self).source().stop() - old(self).source().position()
                }
                &&& final(buf)@ == old(self).source().buffer().subrange(
                    old(self).source().position(),
                    old(self).source().position() + n,
                ) + old(buf)@.skip(n as int)
            },
    {
        let at = self.0.pos;
        let r = self.0.read(buf);
        self.0.pos = at;
        r
    }

    /// Whether nothing is left.
    pub fn is_empty(&self) -> (b: bool)
        requires
            self.wf(),
        ensures
            b <==> self@.len() == 0,
    {
        self.0.start == self.0.stop
    }

    /// Copies bytes from the cursor on into the front of `buf`, as many as
    /// `buf` takes and the window still has, and consumes as many bytes from
    /// the start of the window.
    pub fn read(&mut self, buf: &mut [u8]) -> (r: Result<usize, StoreError>)
        requires
            old(self).wf(),
        ensures
            final(self).wf(),
            r matches Ok(n) && {
                &&& n == if old(buf)@.len() <= old(self).source().stop() - old(
                    self,
                ).source().position() {
                    old(buf)@.len() as int
                } else {
                    old(self).source().stop() - old(self).source().position()
                }
                &&& final(self).is_advanced_from(old(self), n as int)
                &&& final(self)@ == old(self)@.skip(n as int)
                &&& final(buf)@ == old(self).source().buffer().subrange(
                    old(self).source().position(),
                    old(self).source().position() + n,
                ) + old(buf)@.skip(n as int)
            },
    {
        match self.0.read(buf) {
            Ok(n) => {
                self.advance(n);
                Ok(n)
            },
            Err(e) => Err(e),
        }
    }
}

impl Clone for AdvancingReadOnlySource {
    /// The same window on the same buffer, consumed independently.
    fn clone(&self) -> (r: Self)
        ensures
            r.is_advanced_from(self, 0),
            self.wf() ==> r.wf(),
            r@ == self@,
    {
        AdvancingReadOnlySource(self.0.clone())
    }
}

impl From<ReadOnlySource> for AdvancingReadOnlySource {
    fn from(source: ReadOnlySource) -> (r: AdvancingReadOnlySource)
        ensures
            r.source() == source,
    {
        AdvancingReadOnlySource(source)
    }
}

impl vstd::std_specs::convert::FromSpecImpl<ReadOnlySource> for AdvancingReadOnlySource {
    open spec fn obeys_from_spec() -> bool {
        true
    }

    closed spec fn from_spec(source: ReadOnlySource) -> AdvancingReadOnlySource {
        AdvancingReadOnlySource(source)
    }
}

impl From<Vec<u8>> for AdvancingReadOnlySource {
    fn from(data: Vec<u8>) -> (r: AdvancingReadOnlySource)
        ensures
            r.wf(),
            r@ == data@,
            r.source().position() == r.source().start(),
    {
        AdvancingReadOnlySource(ReadOnlySource::new(data))
    }
}

/// What `from` gives for a vector is stated by its own `ensures`.
impl vstd::std_specs::convert::FromSpecImpl<Vec<u8>> for AdvancingReadOnlySource {
    open spec fn obeys_from_spec() -> bool {
        false
    }

    closed spec fn from_spec(data: Vec<u8>) -> AdvancingReadOnlySource {
        arbitrary()
    }
}

} // verus!
