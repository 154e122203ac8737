//! Spans of time, to the nanosecond.

use vstd::prelude::*;

verus! {

/// Nanoseconds in one second.
pub const NANOS_PER_SEC: u32 = 1_000_000_000;

/// A span of time: whole seconds, and the nanoseconds past them.
#[derive(Clone, Copy, Debug, PartialEq, Eq, PartialOrd, Ord, Hash, Structural)]
pub struct Duration {
    secs: u64,
    nanos: u32,
}

impl View for Duration {
    type V = nat;

    /// The span in nanoseconds.
    closed spec fn view(&self) -> nat {
        (self.secs * NANOS_PER_SEC + self.nanos) as nat
    }
}

impl DeepView for Duration {
    type V = Duration;

    open spec fn deep_view(&self) -> Duration {
        *self
    }
}

/// How `std` spells a span of whole seconds and the nanoseconds past them for
/// debugging, such as `1.5s` or `250ms`.
pub uninterp spec fn span_spelling(secs: u64, nanos: u32) -> Seq<char>;

/// The span as `std::time::Duration`'s `Debug` spells it. The spelling is a
/// function of the seconds and nanoseconds alone; which one is not stated.
#[verifier::external_body]
fn debug_span(secs: u64, nanos: u32) -> (r: String)
    requires
        nanos < NANOS_PER_SEC,
    ensures
        r@ == span_spelling(secs, nanos),
{
    format!("{:?}", std::time::Duration::new(secs, nanos))
}

impl Duration {
    #[verifier::type_invariant]
    closed spec fn normal(self) -> bool {
        self.nanos < NANOS_PER_SEC
    }

    /// The whole seconds of the span.
    pub closed spec fn spec_secs(self) -> u64 {
        self.secs
    }

    /// The nanoseconds past the whole seconds.
    pub closed spec fn spec_nanos(self) -> u32 {
        self.nanos
    }

    /// How the span is written in a verdict.
    pub open spec fn spelling(self) -> Seq<char> {
        span_spelling(self.spec_secs(), self.spec_nanos())
    }

    /// A span of whole seconds.
    pub closed spec fn of_secs(secs: u64) -> Duration {
        Duration { secs, nanos: 0 }
    }

    /// A span of whole milliseconds.
    pub closed spec fn of_millis(millis: u64) -> Duration {
        Duration { secs: millis / 1000, nanos: ((millis % 1000) * 1_000_000) as u32 }
    }

    /// A span of whole seconds and some nanoseconds. Those that make up a second
    /// are carried over into the seconds.
    pub fn new(secs: u64, nanos: u32) -> (r: Duration)
        requires
            secs + nanos / NANOS_PER_SEC <= u64::MAX,
        ensures
            r.spec_secs() == secs + nanos / NANOS_PER_SEC,
            r.spec_nanos() == nanos % NANOS_PER_SEC,
            r@ == secs * 1_000_000_000 + nanos,
    {
        Duration { secs: secs + (nanos / NANOS_PER_SEC) as u64, nanos: nanos % NANOS_PER_SEC }
    }

    /// A span of whole seconds.
    pub fn from_secs(secs: u64) -> (r: Duration)
        ensures
            r == Duration::of_secs(secs),
            r@ == secs * 1_000_000_000,
    {
        Duration { secs, nanos: 0 }
    }

    /// A span of whole milliseconds.
    pub fn from_millis(millis: u64) -> (r: Duration)
        ensures
            r == Duration::of_millis(millis),
            r@ == millis * 1_000_000,
    {
        Duration { secs: millis / 1000, nanos: ((millis % 1000) * 1_000_000) as u32 }
    }

    /// The whole seconds of the span.
    pub fn as_secs(&self) -> (r: u64)
        ensures
            r == self.spec_secs(),
    {
        self.secs
    }

    /// The nanoseconds past the whole seconds.
    pub fn subsec_nanos(&self) -> (r: u32)
        ensures
            r == self.spec_nanos(),
    {
        self.nanos
    }

    /// The span in nanoseconds.
    pub fn as_nanos(&self) -> (r: u128)
        ensures
            r == self@,
    {
        self.secs as u128 * 1_000_000_000 + self.nanos as u128
    }

    /// Whether this span is the shorter of the two.
    pub fn shorter(&self, other: &Duration) -> (r: bool)
        ensures
            r == (self@ < other@),
    {
        self.as_nanos() < other.as_nanos()
    }

    /// Whether the two spans are of one length.
    pub fn same(&self, other: &Duration) -> (r: bool)
        ensures
            r == (*self == *other),
            r == (self@ == other@),
    {
        proof {
            use_type_invariant(self);
            use_type_invariant(other);
        }
        self.secs == other.secs && self.nanos == other.nanos
    }

    /// The span as a verdict writes it.
    pub fn spell(&self) -> (r: String)
        ensures
            r@ == self.spelling(),
    {
        proof {
            use_type_invariant(self);
        }
        debug_span(self.secs, self.nanos)
    }
}

/// A span made of seconds or of milliseconds is that long.
pub proof fn lemma_spans_made(n: u64)
    ensures
        Duration::of_secs(n)@ == n * 1_000_000_000,
        Duration::of_millis(n)@ == n * 1_000_000,
{
    assert(n == (n / 1000) * 1000 + n % 1000);
}

/// A span is its seconds and the nanoseconds past them.
pub proof fn lemma_span_is_its_parts(a: Duration, b: Duration)
    ensures
        a.spec_secs() == b.spec_secs() && a.spec_nanos() == b.spec_nanos() ==> a == b,
{
}

} // verus!
