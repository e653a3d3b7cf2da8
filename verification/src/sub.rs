//! A window on a stream, seen as a stream of its own.
use crate::error::{Error, ErrorKind, ErrorView, IoError, IoErrorView};
use crate::stream::{BytesSource, Content, SeekFrom, Source};
use crate::stream;
use crate::text;
use vstd::prelude::*;
use vstd::string::StringExecFns;

verus! {

/// Why `[base, base + len)` is no window on a stream of `total` bytes.
pub open spec fn window_fault(base: u64, len: u64, total: int) -> Option<ErrorView> {
    if base + len > u64::MAX {
        Some(ErrorView::InvalidData("SubSource: base + len overflows u64"@))
    } else if base + len > total {
        Some(
            ErrorView::InvalidData(
                "SubSource: window ["@ + text::letters(text::decimal(base as nat)) + ", "@
                    + text::letters(text::decimal((base + len) as nat))
                    + ") extends past inner length "@ + text::letters(text::decimal(total as nat)),
            ),
        )
    } else {
        None
    }
}

/// Why a window cannot be set up on a stream with its cursor at `pos`: it does
/// not lie inside, or the stream fails where it is asked for its length or
/// moved to the start of the window.
pub open spec fn setup_fault(c: Content, pos: nat, base: u64, len: u64) -> Option<ErrorView> {
    let total = c.bytes.len();
    if base + len > u64::MAX {
        window_fault(base, len, total as int)
    } else if let Some(e) = c.length_fault(pos) {
        Some(ErrorView::InvalidData("SubSource: cannot probe inner length: "@ + e.message))
    } else if base + len > total {
        window_fault(base, len, total as int)
    } else if let Some(e) = c.seek_fault(base as nat) {
        Some(
            ErrorView::InvalidData(
                "SubSource: cannot seek inner to "@ + text::letters(text::decimal(base as nat))
                    + ": "@ + e.message,
            ),
        )
    } else {
        None
    }
}

/// What a window shows: the bytes that lie in it, which cannot be read where
/// the stream cannot be reached or read.
pub open spec fn view_of(c: Content, base: u64, len: u64) -> Content {
    Content {
        bytes: c.bytes.subrange(base as int, base + len),
        read_faults: |at: nat|
            if at < len {
                c.reach_fault(base as nat + at)
            } else {
                None
            },
        seek_faults: |to: nat| None,
    }
}

/// What a window on a stream at its start gives.
pub open spec fn windowed(c: Content, base: u64, len: u64) -> Result<Content, ErrorView> {
    match setup_fault(c, 0, base, len) {
        Some(e) => Err(e),
        None => Ok(view_of(c, base, len)),
    }
}

/// Where a window lies, and where its cursor stands in it.
struct Window {
    base: u64,
    len: u64,
    pos: u64,
}

impl Window {
    #[verifier::type_invariant]
    spec fn ends_in_range(self) -> bool {
        self.base + self.len <= u64::MAX
    }

    /// The position in the inner stream and the number of bytes to ask for on
    /// behalf of a read with room for `room` bytes.
    fn plan(&self, room: usize) -> (r: Option<(u64, usize)>)
        ensures
            match r {
                Some((off, want)) => {
                    &&& off == self.base + self.pos
                    &&& 0 < want <= room
                    &&& self.pos + want <= self.len
                    &&& want == room || want == self.len - self.pos
                },
                None => room == 0 || self.pos >= self.len,
            },
    {
        proof {
            use_type_invariant(self);
        }
        if room == 0 || self.pos >= self.len {
            return None;
        }
        let left: u64 = self.len - self.pos;
        let want: usize = if room as u64 <= left {
            room
        } else {
            left as usize
        };
        Some((self.base + self.pos, want))
    }

    /// Moves the cursor past `n` bytes.
    fn advance(&mut self, n: usize)
        requires
            old(self).pos + n <= old(self).len,
        ensures
            final(self).base == old(self).base,
            final(self).len == old(self).len,
            final(self).pos == old(self).pos + n,
    {
        proof {
            use_type_invariant(&*self);
        }
        self.pos = self.pos + n as u64;
    }

    /// Moves the cursor.
    fn go(&mut self, pos: u64)
        ensures
            final(self).base == old(self).base,
            final(self).len == old(self).len,
            final(self).pos == pos,
    {
        proof {
            use_type_invariant(&*self);
        }
        self.pos = pos;
    }
}

/// A stream over the bytes `[base, base + len)` of an inner stream.
pub struct SubSource {
    inner: Source,
    window: Window,
}

/// A stream that never fails leaves only the window itself to go wrong.
pub proof fn lemma_window_on_sound_content(data: Seq<u8>, base: u64, len: u64)
    ensures
        windowed(Content::sound(data), base, len) == match window_fault(
            base,
            len,
            data.len() as int,
        ) {
            Some(e) => Err(e),
            None => Ok::<_, ErrorView>(
                Content::sound(data.subrange(base as int, base + len)),
            ),
        },
{
    let c = Content::sound(data);
    stream::lemma_same_content(
        view_of(c, base, len),
        Content::sound(data.subrange(base as int, base + len)),
    );
}

impl SubSource {
    /// The inner stream.
    pub closed spec fn inner_source(&self) -> Source {
        self.inner
    }

    /// Where the window starts in the inner stream.
    pub closed spec fn start(&self) -> u64 {
        self.window.base
    }

    /// How many bytes the window covers.
    pub closed spec fn length(&self) -> u64 {
        self.window.len
    }

    /// A window on `inner`. It has to lie inside.
    pub fn new(inner: Source, base: u64, len: u64) -> (r: Result<Self, Error>)
        ensures
            r matches Ok(s) ==> {
                &&& base + len <= u64::MAX
                &&& s.start() == base
                &&& s.length() == len
                &&& s.pos() == 0
            },
            r matches Err(e) ==> e@ is InvalidData,
            base + len > u64::MAX ==> {
                &&& r matches Err(e)
                &&& Some(e@) == window_fault(base, len, 0)
            },
            inner.is_steady() ==> match setup_fault(
                stream::content(&inner),
                inner.pos(),
                base,
                len,
            ) {
                None => {
                    &&& r matches Ok(s)
                    &&& s.is_steady()
                    &&& stream::content(&s) == view_of(stream::content(&inner), base, len)
                    &&& stream::same_stream(&s.inner_source(), &inner)
                    &&& s.inner_source().pos() == base
                },
                Some(v) => {
                    &&& r matches Err(e)
                    &&& e@ == v
                },
            },
    {
        let ghost given = inner;
        let mut inner = inner;
        let end: u64 = match base.checked_add(len) {
            Some(end) => end,
            None => {
                return Err(Error::invalid("SubSource: base + len overflows u64"));
            },
        };
        let total: u64 = match stream::stream_len(&mut inner) {
            Ok(n) => n,
            Err(e) => {
                let mut m = "SubSource: cannot probe inner length: ".to_owned();
                m.append(e.message.as_str());
                return Err(Error::InvalidData(m));
            },
        };
        if end > total {
            let mut m = "SubSource: window [".to_owned();
            let b = text::decimal_string(base as u128);
            let e = text::decimal_string(end as u128);
            let t = text::decimal_string(total as u128);
            m.append(b.as_str());
            m.append(", ");
            m.append(e.as_str());
            m.append(") extends past inner length ");
            m.append(t.as_str());
            return Err(Error::InvalidData(m));
        }
        match inner.seek(SeekFrom::Start(base)) {
            Ok(_) => {},
            Err(e) => {
                let mut m = "SubSource: cannot seek inner to ".to_owned();
                let b = text::decimal_string(base as u128);
                m.append(b.as_str());
                m.append(": ");
                m.append(e.message.as_str());
                return Err(Error::InvalidData(m));
            },
        }
        let s = SubSource { inner, window: Window { base, len, pos: 0 } };
        proof {
            if given.is_steady() {
                stream::lemma_same_stream_same_content(&s.inner_source(), &given);
                stream::lemma_same_content(
                    stream::content(&s),
                    view_of(stream::content(&given), base, len),
                );
            }
        }
        Ok(s)
    }

    /// How many bytes the window covers.
    pub fn len(&self) -> (r: u64)
        ensures
            r == self.length(),
    {
        self.window.len
    }

    /// True iff the window covers nothing.
    pub fn is_empty(&self) -> (r: bool)
        ensures
            r == (self.length() == 0),
    {
        self.window.len == 0
    }

    /// Where the window starts in the inner stream.
    pub fn base(&self) -> (r: u64)
        ensures
            r == self.start(),
    {
        self.window.base
    }

    /// The inner stream, with its cursor wherever the last read left it.
    pub fn into_inner(self) -> (r: Source)
        ensures
            r == self.inner_source(),
    {
        self.inner
    }
}

impl BytesSource for SubSource {
    open spec fn bytes(&self) -> Seq<u8> {
        self.inner_source().bytes().subrange(self.start() as int, self.start() + self.length())
    }

    closed spec fn pos(&self) -> nat {
        self.window.pos as nat
    }

    open spec fn is_steady(&self) -> bool {
        &&& self.inner_source().is_steady()
        &&& self.start() + self.length() <= self.inner_source().bytes().len()
    }

    open spec fn fills(&self) -> bool {
        self.inner_source().fills()
    }

    open spec fn read_fault(&self, at: nat) -> Option<IoErrorView> {
        if at < self.length() {
            stream::content(&self.inner_source()).reach_fault(self.start() as nat + at)
        } else {
            None
        }
    }

    open spec fn seek_fault(&self, to: nat) -> Option<IoErrorView> {
        None
    }

    fn read(&mut self, buf: &mut [u8]) -> (r: Result<usize, IoError>)
        ensures
            final(self).start() == old(self).start(),
            final(self).length() == old(self).length(),
            r matches Ok(n) ==> final(self).pos() == old(self).pos() + n,
            r is Err ==> final(self).pos() == old(self).pos(),
            old(buf)@.len() == 0 || old(self).pos() >= old(self).length() ==> {
                &&& r == Ok::<usize, IoError>(0)
                &&& final(self).inner_source() == old(self).inner_source()
                &&& final(buf)@ == old(buf)@
            },
            old(self).inner_source().is_steady() ==> stream::same_stream(
                &final(self).inner_source(),
                &old(self).inner_source(),
            ),
            old(self).inner_source().is_steady() && old(buf)@.len() > 0 && old(self).pos()
                < old(self).length() ==> (stream::content(
                &old(self).inner_source(),
            ).reach_fault(old(self).start() as nat + old(self).pos()) matches Some(v) ==> r matches Err(e) && e@ == v),
            r matches Ok(n) ==> n == 0 || old(self).pos() + n <= old(self).length(),
            old(self).inner_source().is_steady() ==> (r matches Ok(n) ==> n == 0
                || final(self).inner_source().pos() == old(self).start() + old(self).pos() + n),
            forall|i: int|
                old(self).length() - old(self).pos() <= i < old(buf)@.len() && 0 <= i
                    ==> #[trigger] final(buf)@[i] == old(buf)@[i],
    {
        match self.window.plan(buf.len()) {
            None => Ok(0),
            Some((off, want)) => {
                let ghost before = buf@;
                self.inner.seek(SeekFrom::Start(off))?;
                let (head, tail) = buf.split_at_mut(want);
                let n = self.inner.read(head)?;
                self.window.advance(n);
                proof {
                    if old(self).is_steady() {
                        assert(buf@ =~= if n > 0 {
                            self.bytes().subrange(
                                old(self).pos() as int,
                                old(self).pos() + n,
                            ) + before.skip(n as int)
                        } else {
                            before
                        });
                    }
                }
                Ok(n)
            },
        }
    }

    fn seek(&mut self, from: SeekFrom) -> (r: Result<u64, IoError>)
        ensures
            final(self).inner_source() == old(self).inner_source(),
            final(self).start() == old(self).start(),
            final(self).length() == old(self).length(),
            stream::seeks(
                old(self).length() as nat,
                old(self).pos(),
                from,
                r,
                final(self).pos(),
            ),
            r matches Err(e) ==> e@.message
                == "SubSource: seek resolves to a negative or overflowing position"@,
    {
        match stream::seek_target(self.window.len, self.window.pos, from) {
            Some(p) => {
                self.window.go(p);
                Ok(p)
            },
            None => Err(
                IoError::new(
                    ErrorKind::InvalidInput,
                    "SubSource: seek resolves to a negative or overflowing position".to_owned(),
                ),
            ),
        }
    }
}

/// A window on a window is a window on the stream itself, where the stream can
/// be moved to its start.
pub proof fn lemma_windows_compose(c: Content, base: u64, len: u64, off: u64, n: u64)
    requires
        windowed(c, base, len) is Ok,
        windowed(windowed(c, base, len)->Ok_0, off, n) is Ok,
        c.seek_fault((base + off) as nat) is None,
    ensures
        base + off <= u64::MAX,
        windowed(windowed(c, base, len)->Ok_0, off, n) == windowed(c, (base + off) as u64, n),
{
    let outer = view_of(c, base, len);
    let flat = view_of(c, (base + off) as u64, n);
    assert(outer.bytes.subrange(off as int, off + n) =~= c.bytes.subrange(
        base + off,
        base + off + n,
    ));
    stream::lemma_same_content(view_of(outer, off, n), flat);
}

/// A window shows exactly the bytes of the stream that lie in it, and exists
/// on a stream that never fails exactly where it ends inside the stream.
pub proof fn lemma_window_shows_its_bytes(c: Content, base: u64, len: u64)
    requires
        stream::representable(c.bytes.len() as int),
    ensures
        windowed(c, base, len) matches Ok(w) ==> w.bytes.len() == len && forall|i: int|
            0 <= i < len ==> w.bytes[i] == c.bytes[base + i],
        c == Content::sound(c.bytes) ==> (windowed(c, base, len) is Ok <==> base + len
            <= c.bytes.len()),
{
}

} // verus!
