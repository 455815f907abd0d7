use vstd::prelude::*;

verus! {

/// Width of a tumbling window, in nanoseconds of event time.
///
/// Bin `b` covers the half-open interval `[b * width, b * width + width)`.
pub struct WindowSpec {
    pub width_nanos: u64,
}

/// What is attached to every row that a closed bin emits.
#[derive(Clone, Copy, Debug, PartialEq, Eq, Structural)]
pub struct WindowMeta {
    pub window_start: u64,
    pub window_end: u64,
    /// The last instant inside the window, `window_end - 1`.
    pub timestamp: u64,
}

/// The bin that an event time falls in.
pub open spec fn bin_of(width: nat, time: nat) -> nat
    recommends
        width > 0,
{
    time / width
}

impl WindowSpec {
    pub open spec fn wf(&self) -> bool {
        self.width_nanos > 0
    }

    pub open spec fn width(&self) -> nat {
        self.width_nanos as nat
    }

    /// A window of the given width; `None` for a zero width.
    pub fn new(width_nanos: u64) -> (r: Option<WindowSpec>)
        ensures
            width_nanos == 0 <==> r.is_none(),
            r matches Some(s) ==> s.wf() && s.width_nanos == width_nanos,
    {
        if width_nanos == 0 {
            None
        } else {
            Some(WindowSpec { width_nanos })
        }
    }

    /// The bin of an event time: `floor(time / width)`.
    pub fn time_to_bin(&self, time_nanos: u64) -> (r: u64)
        requires
            self.wf(),
        ensures
            r == bin_of(self.width(), time_nanos as nat),
    {
        time_nanos / self.width_nanos
    }

    /// The start of a bin, `bin * width`; `None` where it does not fit in 64 bits.
    pub fn bin_start(&self, bin: u64) -> (r: Option<u64>)
        ensures
            r.is_some() <==> bin * self.width() <= u64::MAX,
            r matches Some(s) ==> s == bin * self.width(),
    {
        bin.checked_mul(self.width_nanos)
    }

    /// The window of a bin: start `bin * width`, end `start + width`, and the
    /// synthesized event time `end - 1`. `None` where the end does not fit in
    /// 64 bits.
    pub fn window_meta(&self, bin: u64) -> (r: Option<WindowMeta>)
        requires
            self.wf(),
        ensures
            r.is_some() <==> bin * self.width() + self.width() <= u64::MAX,
            r matches Some(m) ==> {
                &&& m.window_start == bin * self.width()
                &&& m.window_end == bin * self.width() + self.width()
                &&& m.timestamp == m.window_end - 1
            },
    {
        match bin.checked_mul(self.width_nanos) {
            None => {
                proof {
                    assert(bin * self.width() + self.width() > u64::MAX) by (nonlinear_arith)
                        requires
                            bin * self.width() > u64::MAX,
                    ;
                }
                None
            },
            Some(start) => match start.checked_add(self.width_nanos) {
                None => None,
                Some(end) => Some(WindowMeta { window_start: start, window_end: end, timestamp: end - 1 }),
            },
        }
    }
}

/// A bin id is never larger than the event time it was taken from.
pub proof fn lemma_bin_le_time(width: nat, time: nat)
    requires
        width > 0,
    ensures
        bin_of(width, time) <= time,
{
    vstd::arithmetic::div_mod::lemma_div_nonincreasing(time as int, width as int);
}

/// An event time lies inside the window of its own bin:
/// `bin * width <= time < bin * width + width`.
pub proof fn lemma_time_in_own_window(width: nat, time: nat)
    requires
        width > 0,
    ensures
        bin_of(width, time) * width <= time,
        time < bin_of(width, time) * width + width,
{
    let b = time / width;
    assert(time == width * b + time % width) by {
        vstd::arithmetic::div_mod::lemma_fundamental_div_mod(time as int, width as int);
    }
    assert(b * width == width * b) by (nonlinear_arith);
}

} // verus!
