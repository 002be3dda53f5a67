//! Admission of requests, until the gateway shuts down.
use vstd::prelude::*;

verus! {

/// Lets requests in while it is open, and counts those that have neither become
/// a forwarded request nor been answered.
pub struct RequestGate {
    pub closed: bool,
    pub admitted: usize,
    /// When the last admission was given back.
    pub last_released: u128,
}

/// What closing makes of it: no more requests are let in, those that are in stay in.
pub open spec fn closed_gate(gate: RequestGate) -> RequestGate {
    RequestGate { closed: true, ..gate }
}

/// The right of one request to be handled.
pub struct RequestAdmission {
    _token: (),
}

impl RequestGate {
    /// An open gate.
    pub fn new() -> (gate: RequestGate)
        ensures
            !gate.closed,
            gate.admitted == 0,
            gate.last_released == 0,
    {
        RequestGate { closed: false, admitted: 0, last_released: 0 }
    }

    /// Lets one request in, unless admission is closed.
    pub fn try_enter(&mut self) -> (admission: Option<RequestAdmission>)
        requires
            old(self).admitted < usize::MAX,
        ensures
            admission is Some <==> !old(self).closed,
            final(self).closed == old(self).closed,
            final(self).last_released == old(self).last_released,
            final(self).admitted == old(self).admitted + if old(self).closed {
                0int
            } else {
                1int
            },
    {
        if self.closed {
            return None;
        }
        self.admitted = self.admitted + 1;
        Some(RequestAdmission { _token: () })
    }

    /// Takes an admission back.
    pub fn release(&mut self, _admission: RequestAdmission, now: u128)
        requires
            old(self).admitted > 0,
        ensures
            final(self).closed == old(self).closed,
            final(self).admitted == old(self).admitted - 1,
            final(self).last_released == now,
    {
        self.admitted = self.admitted - 1;
        self.last_released = now;
    }

    /// Lets no more requests in. Those that are in stay in.
    pub fn close(&mut self)
        ensures
            *final(self) == closed_gate(*old(self)),
    {
        self.closed = true;
    }
}

/// Requests are let in until admission is closed, and none after it; each that is let
/// in is counted until it gives its admission back.
pub proof fn law_admission_ends_when_closed(
    opened: RequestGate,
    first: &mut RequestGate,
    admitted: Option<RequestAdmission>,
    second: &mut RequestGate,
    third: &mut RequestGate,
    late: Option<RequestAdmission>,
    fourth: &mut RequestGate,
    now: u128,
)
    requires
        call_ensures(RequestGate::new, (), opened),
        *old(first) == opened,
        call_ensures(RequestGate::try_enter, (first,), admitted),
        *old(second) == *final(first),
        call_ensures(RequestGate::close, (second,), ()),
        *old(third) == *final(second),
        call_ensures(RequestGate::try_enter, (third,), late),
        *old(fourth) == *final(third),
        admitted is Some ==> call_ensures(RequestGate::release, (fourth, admitted->0, now), ()),
    ensures
        opened.admitted == 0,
        admitted is Some,
        final(first).admitted == 1,
        final(second).admitted == 1,
        late is None,
        final(third).admitted == 1,
        final(fourth).admitted == 0,
        final(fourth).last_released == now,
        final(fourth).closed,
{
}

/// What is counted changes by one with each request that is let in or gives its
/// admission back; closing leaves it as it is.
pub proof fn law_admissions_are_counted_one_by_one(
    entered: &mut RequestGate,
    admission: Option<RequestAdmission>,
    left: &mut RequestGate,
    given: RequestAdmission,
    now: u128,
    closed: &mut RequestGate,
)
    requires
        old(entered).admitted < usize::MAX,
        call_ensures(RequestGate::try_enter, (entered,), admission),
        old(left).admitted > 0,
        call_ensures(RequestGate::release, (left, given, now), ()),
        call_ensures(RequestGate::close, (closed,), ()),
    ensures
        admission is Some <==> !old(entered).closed,
        final(entered).admitted == old(entered).admitted + (if admission is Some {
            1int
        } else {
            0int
        }),
        final(entered).closed == old(entered).closed,
        final(entered).last_released == old(entered).last_released,
        final(left).admitted == old(left).admitted - 1,
        final(left).closed == old(left).closed,
        final(left).last_released == now,
        final(closed).closed,
        final(closed).admitted == old(closed).admitted,
        final(closed).last_released == old(closed).last_released,
{
}

} // verus!
