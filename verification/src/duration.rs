//! A span of time with nanosecond precision, as used by subtitle timings.

use vstd::prelude::*;

verus! {

/// Nanoseconds in one second.
pub const NANOS_PER_SEC: u32 = 1_000_000_000;

/// Nanoseconds in one millisecond.
pub const NANOS_PER_MILLI: u32 = 1_000_000;

/// A span of time: whole seconds and the nanoseconds of the second under way.
#[derive(Clone, Copy, Debug, PartialEq, Eq, Structural)]
pub struct Duration {
    pub(crate) secs: u64,
    pub(crate) nanos: u32,
}

impl Duration {
    #[verifier::type_invariant]
    spec fn inv(self) -> bool {
        self.nanos < NANOS_PER_SEC
    }

    /// The whole span in nanoseconds (the nanoseconds field is always below a
    /// second, by the type invariant).
    pub closed spec fn total_nanos(self) -> nat {
        self.secs as nat * 1_000_000_000 + self.nanos as nat % 1_000_000_000
    }
}

impl View for Duration {
    type V = nat;

    open spec fn view(&self) -> nat {
        self.total_nanos()
    }
}

impl Duration {
    /// The span of `secs` seconds and `nanos` nanoseconds. Nanoseconds beyond a
    /// second carry into the seconds.
    pub fn new(secs: u64, nanos: u32) -> (d: Duration)
        requires
            secs as int + nanos as int / 1_000_000_000int <= u64::MAX,
        ensures
            d@ == secs as nat * 1_000_000_000 + nanos as nat,
    {
        if nanos < NANOS_PER_SEC {
            Duration { secs, nanos }
        } else {
            let extra: u64 = (nanos / NANOS_PER_SEC) as u64;
            let rest: u32 = nanos % NANOS_PER_SEC;
            assert(nanos == extra * NANOS_PER_SEC + rest) by (nonlinear_arith)
                requires extra == nanos / NANOS_PER_SEC, rest == nanos % NANOS_PER_SEC;
            Duration { secs: secs + extra, nanos: rest }
        }
    }

    /// The empty span.
    pub fn zero() -> (d: Duration)
        ensures
            d@ == 0,
    {
        Duration { secs: 0, nanos: 0 }
    }

    /// The whole seconds of the span.
    pub fn as_secs(&self) -> (s: u64)
        ensures
            s == self@ / 1_000_000_000nat,
    {
        proof {
            use_type_invariant(self);
            lemma_split_nanos(self.secs as nat, self.nanos as nat);
        }
        self.secs
    }

    /// The nanoseconds beyond the whole seconds.
    pub fn subsec_nanos(&self) -> (n: u32)
        ensures
            n == self@ % 1_000_000_000nat,
    {
        proof {
            use_type_invariant(self);
            lemma_split_nanos(self.secs as nat, self.nanos as nat);
        }
        self.nanos
    }

    /// The whole milliseconds beyond the whole seconds.
    pub fn subsec_millis(&self) -> (m: u32)
        ensures
            m == (self@ % 1_000_000_000nat) / 1_000_000nat,
    {
        let n = self.subsec_nanos();
        n / NANOS_PER_MILLI
    }

    /// Whether the span is empty.
    pub fn is_zero(&self) -> (b: bool)
        ensures
            b == (self@ == 0),
    {
        proof {
            use_type_invariant(self);
        }
        self.secs == 0 && self.nanos == 0
    }

    /// Whether `self` is at least as long as `other`.
    pub fn ge(&self, other: &Duration) -> (b: bool)
        ensures
            b == (self@ >= other@),
    {
        proof {
            use_type_invariant(self);
            use_type_invariant(other);
            lemma_split_nanos(self.secs as nat, self.nanos as nat);
            lemma_split_nanos(other.secs as nat, other.nanos as nat);
        }
        self.secs > other.secs || (self.secs == other.secs && self.nanos >= other.nanos)
    }

    /// The difference `self - other`; `other` must not be longer than `self`.
    pub fn sub(&self, other: &Duration) -> (d: Duration)
        requires
            self@ >= other@,
        ensures
            d@ == self@ - other@,
    {
        proof {
            use_type_invariant(self);
            use_type_invariant(other);
            lemma_split_nanos(self.secs as nat, self.nanos as nat);
            lemma_split_nanos(other.secs as nat, other.nanos as nat);
        }
        if self.nanos >= other.nanos {
            Duration { secs: self.secs - other.secs, nanos: self.nanos - other.nanos }
        } else {
            Duration { secs: self.secs - other.secs - 1, nanos: self.nanos + NANOS_PER_SEC - other.nanos }
        }
    }
}

/// Every span has at most `u64::MAX` whole seconds.
pub proof fn lemma_duration_secs_fit(d: Duration)
    ensures
        d@ / 1_000_000_000 <= u64::MAX,
{
    let secs = d.secs as nat;
    let r = d.nanos as nat % 1_000_000_000;
    assert((secs * 1_000_000_000 + r) / 1_000_000_000 == secs) by (nonlinear_arith)
        requires r < 1_000_000_000;
}

/// A span stored as whole seconds and a remainder below a second splits back into both.
proof fn lemma_split_nanos(secs: nat, nanos: nat)
    requires
        nanos < 1_000_000_000,
    ensures
        (secs * 1_000_000_000 + nanos) / 1_000_000_000nat == secs,
        (secs * 1_000_000_000 + nanos) % 1_000_000_000nat == nanos,
{
    assert((secs * 1_000_000_000 + nanos) / 1_000_000_000nat == secs) by (nonlinear_arith)
        requires nanos < 1_000_000_000;
    assert((secs * 1_000_000_000 + nanos) % 1_000_000_000nat == nanos) by (nonlinear_arith)
        requires nanos < 1_000_000_000;
}

} // verus!
