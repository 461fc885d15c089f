//! Response bodies that carry a size hint: an exact size when it is known
//! (a cached file, an upstream `Content-Length`), else what the body says.
use vstd::prelude::*;

verus! {

/// Bounds on the number of bytes a body will yield: at least `lower`, at
/// most `upper` when that is known. The lower bound never exceeds the upper.
#[derive(Clone, Copy, Debug, PartialEq, Eq)]
pub struct BodySizeHint {
    lower: u64,
    upper: Option<u64>,
}

impl View for BodySizeHint {
    type V = (u64, Option<u64>);

    closed spec fn view(&self) -> (u64, Option<u64>) {
        (self.lower, self.upper)
    }
}

impl BodySizeHint {
    /// No knowledge: at least nothing, no upper bound.
    pub fn new() -> (h: BodySizeHint)
        ensures
            h@ == (0u64, None::<u64>),
    {
        BodySizeHint { lower: 0, upper: None }
    }

    /// Exactly `value` bytes.
    pub fn with_exact(value: u64) -> (h: BodySizeHint)
        ensures
            h@ == (value, Some(value)),
    {
        BodySizeHint { lower: value, upper: Some(value) }
    }

    /// The lower bound.
    pub fn lower(&self) -> (n: u64)
        ensures
            n == self@.0,
    {
        self.lower
    }

    /// The upper bound, if known.
    pub fn upper(&self) -> (n: Option<u64>)
        ensures
            n == self@.1,
    {
        self.upper
    }

    /// The exact size, when both bounds agree.
    pub fn exact(&self) -> (n: Option<u64>)
        ensures
            n == if self@.1 == Some(self@.0) {
                Some(self@.0)
            } else {
                None::<u64>
            },
    {
        match self.upper {
            Some(upper) => if upper == self.lower {
                Some(upper)
            } else {
                None
            },
            None => None,
        }
    }

    /// Sets the lower bound, which may not exceed the upper one.
    pub fn set_lower(&mut self, value: u64)
        requires
            old(self)@.1 matches Some(upper) ==> value <= upper,
        ensures
            final(self)@ == (value, old(self)@.1),
    {
        self.lower = value;
    }

    /// Sets the upper bound, which may not be below the lower one.
    pub fn set_upper(&mut self, value: u64)
        requires
            value >= old(self)@.0,
        ensures
            final(self)@ == (old(self)@.0, Some(value)),
    {
        self.upper = Some(value);
    }
}

/// A body with a size hint that, when set, overrides the body's own.
pub struct BodyWithSize<B> {
    body: B,
    size_hint: Option<BodySizeHint>,
}

impl<B> BodyWithSize<B> {
    /// Wraps `body` with no size hint of its own.
    pub fn new(body: B) -> (r: Self)
        ensures
            r.body() == body,
            r.own_size_hint() == None::<BodySizeHint>,
    {
        BodyWithSize { body, size_hint: None }
    }

    /// The wrapped body.
    pub closed spec fn body(&self) -> B {
        self.body
    }

    /// The hint set on the wrapper, if any.
    pub closed spec fn own_size_hint(&self) -> Option<BodySizeHint> {
        self.size_hint
    }

    /// The same body with `size_hint` as its hint.
    pub fn with_size_hint(self, size_hint: Option<BodySizeHint>) -> (r: Self)
        ensures
            r.body() == self.body(),
            r.own_size_hint() == size_hint,
    {
        BodyWithSize { body: self.body, size_hint }
    }

    /// The hint to report, given the wrapped body's own hint `inner`.
    pub fn size_hint(&self, inner: BodySizeHint) -> (h: BodySizeHint)
        ensures
            h == match self.own_size_hint() {
                Some(own) => own,
                None => inner,
            },
    {
        match self.size_hint {
            Some(own) => own,
            None => inner,
        }
    }

    /// The body and the hint set on the wrapper.
    pub fn into_parts(self) -> (r: (B, Option<BodySizeHint>))
        ensures
            r.0 == self.body(),
            r.1 == self.own_size_hint(),
    {
        (self.body, self.size_hint)
    }
}

/// A body made of the items of a stream.
pub struct StreamBody<S> {
    stream: S,
}

impl<S> StreamBody<S> {
    /// The body of `stream`'s items.
    pub fn new(stream: S) -> (r: Self)
        ensures
            r.stream() == stream,
    {
        StreamBody { stream }
    }

    /// The stream.
    pub closed spec fn stream(&self) -> S {
        self.stream
    }

    /// The stream back.
    pub fn into_stream(self) -> (s: S)
        ensures
            s == self.stream(),
    {
        self.stream
    }
}

/// The size hint of a stream body, from the stream's own bounds on how many
/// items it will yield (a stream whose upper bound is below its lower one
/// breaks the stream contract).
pub fn stream_size_hint(lower: usize, upper: Option<usize>) -> (h: BodySizeHint)
    requires
        upper matches Some(u) ==> lower <= u,
    ensures
        h@.0 == lower,
        h@.1 == match upper {
            Some(u) => Some(u as u64),
            None => None::<u64>,
        },
{
    let mut hint = BodySizeHint::new();
    hint.set_lower(lower as u64);
    match upper {
        Some(u) => hint.set_upper(u as u64),
        None => {},
    }
    hint
}

/// Where reading a file continues after a read at `offset` gave `read`
/// bytes: nowhere once a read gives none (the end of the file), else just
/// past what was read.
pub fn next_read_offset(offset: u64, read: usize) -> (next: Option<u64>)
    requires
        offset + read <= u64::MAX,
    ensures
        read == 0 ==> next is None,
        read > 0 ==> next == Some((offset + read) as u64),
{
    if read == 0 {
        None
    } else {
        Some(offset + read as u64)
    }
}

} // verus!
