//! Whether the one who asks wants no validation. A request is worked on under a state
//! of its own; the state outside stays what it was, however the work ends.

use vstd::prelude::*;

verus! {

/// Whether the wish for no validation is honoured.
pub struct HonorCd {
    pub active: bool,
}

/// The state for one request. What was there before is only looked at, never changed:
/// it is back as soon as the scope is gone, and also where the work in it panics.
pub struct HonorCdScope<'a> {
    pub previous: &'a HonorCd,
    pub state: HonorCd,
}

impl<'a> HonorCdScope<'a> {
    /// A scope in which the state is `honor`.
    pub fn enter(previous: &'a HonorCd, honor: bool) -> (r: Self)
        ensures
            r.state.active == honor,
            *r.previous == *previous,
    {
        HonorCdScope { previous, state: HonorCd { active: honor } }
    }

    /// Leaves the scope: what counts from now on is what was there before.
    pub fn leave(self) -> (r: &'a HonorCd)
        ensures
            *r == *self.previous,
    {
        self.previous
    }
}

/// Whether the wish for no validation is honoured.
pub fn honor_cd_active(state: &HonorCd) -> (r: bool)
    ensures
        r == state.active,
{
    state.active
}

/// Works on a request under a state that is `honor`. The state of the caller is only
/// looked at, so that it is the same after the work, after a panic in it, and after
/// another request within this one.
pub fn with_honor_cd<T, F: FnOnce(&HonorCd) -> T>(state: &HonorCd, honor: bool, work: F) -> (r: T)
    requires
        forall|s: &HonorCd| s.active == honor ==> #[trigger] work.requires((s,)),
    ensures
        work.ensures((&HonorCd { active: honor },), r),
{
    let scope = HonorCdScope::enter(state, honor);
    assert(scope.state == HonorCd { active: honor });
    let r = work(&scope.state);
    let _ = scope.leave();
    r
}

} // verus!
