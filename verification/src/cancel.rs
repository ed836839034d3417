//! The flag by which a scan is cancelled, and what becomes of it.
use vstd::prelude::*;

use crate::errors::{checked, ScanError};

verus! {

/// What happens to the flag.
#[derive(Debug, Clone, Copy, PartialEq, Eq, Structural)]
pub enum CancelEvent {
    /// Cancelling is asked for.
    Requested,
    /// A scan starts.
    Started,
    /// The flag is looked at.
    Checked,
}

/// The flag after an event.
pub open spec fn flag_step(flag: bool, event: CancelEvent) -> bool {
    match event {
        CancelEvent::Requested => true,
        CancelEvent::Started => false,
        CancelEvent::Checked => flag,
    }
}

/// The flag after events, from the start of the program. It starts out clear.
pub open spec fn flag_after(events: Seq<CancelEvent>) -> bool
    decreases events.len(),
{
    if events.len() == 0 {
        false
    } else {
        flag_step(flag_after(events.drop_last()), events.last())
    }
}

/// Whether cancelling was asked for since the last start of a scan.
pub open spec fn is_requested(events: Seq<CancelEvent>) -> bool {
    exists|i: int|
        0 <= i < events.len() && (#[trigger] events[i]) is Requested && no_start_from(events, i)
}

/// Whether no scan starts from an event on.
pub open spec fn no_start_from(events: Seq<CancelEvent>, i: int) -> bool {
    forall|j: int| i <= j < events.len() ==> !((#[trigger] events[j]) is Started)
}

/// The flag after an event.
pub fn next_flag(flag: bool, event: CancelEvent) -> (next: bool)
    ensures
        next == flag_step(flag, event),
{
    match event {
        CancelEvent::Requested => true,
        CancelEvent::Started => false,
        CancelEvent::Checked => flag,
    }
}

/// A check fails exactly if cancelling was asked for since the last start of a scan.
pub proof fn law_check_fails_iff_requested(events: Seq<CancelEvent>)
    ensures
        flag_after(events) <==> is_requested(events),
        checked(flag_after(events)) == if is_requested(events) {
            Err::<(), ScanError>(ScanError::Cancelled)
        } else {
            Ok(())
        },
    decreases events.len(),
{
    if events.len() > 0 {
        let before = events.drop_last();
        let last = events.len() - 1;
        law_check_fails_iff_requested(before);
        match events[last] {
            CancelEvent::Requested => {
                assert(no_start_from(events, last));
            },
            CancelEvent::Started => {
                if is_requested(events) {
                    let i = choose|i: int|
                        0 <= i < events.len() && (#[trigger] events[i]) is Requested
                            && no_start_from(events, i);
                    assert(!(events[last] is Started));
                }
            },
            CancelEvent::Checked => {
                if is_requested(before) {
                    let i = choose|i: int|
                        0 <= i < before.len() && (#[trigger] before[i]) is Requested
                            && no_start_from(before, i);
                    assert forall|j: int| i <= j < events.len() implies !((
                    #[trigger] events[j]) is Started) by {
                        if j < last {
                            assert(before[j] == events[j]);
                        }
                    }
                    assert(events[i] is Requested && no_start_from(events, i));
                }
                if is_requested(events) {
                    let i = choose|i: int|
                        0 <= i < events.len() && (#[trigger] events[i]) is Requested
                            && no_start_from(events, i);
                    assert forall|j: int| i <= j < before.len() implies !((
                    #[trigger] before[j]) is Started) by {
                        assert(before[j] == events[j]);
                    }
                    assert(before[i] is Requested && no_start_from(before, i));
                }
            },
        }
    }
}

/// Without a new start of a scan, a check that fails goes on failing, whatever is asked or
/// checked.
pub proof fn law_cancelling_lasts(events: Seq<CancelEvent>, later: Seq<CancelEvent>)
    requires
        flag_after(events),
        no_start_from(later, 0),
    ensures
        flag_after(events + later),
        checked(flag_after(events + later)) == Err::<(), ScanError>(ScanError::Cancelled),
    decreases later.len(),
{
    if later.len() == 0 {
        assert(events + later =~= events);
    } else {
        let shorter = later.drop_last();
        assert forall|j: int| 0 <= j < shorter.len() implies !((
        #[trigger] shorter[j]) is Started) by {
            assert(shorter[j] == later[j]);
        }
        law_cancelling_lasts(events, shorter);
        assert((events + later).drop_last() =~= events + shorter);
        assert(!(later[later.len() - 1] is Started));
    }
}

/// Looking at the flag leaves it as it is, and asking twice is asking once.
pub proof fn law_checking_and_asking_again_change_nothing(events: Seq<CancelEvent>)
    ensures
        flag_after(events.push(CancelEvent::Checked)) == flag_after(events),
        flag_after(events.push(CancelEvent::Requested).push(CancelEvent::Requested)) == flag_after(
            events.push(CancelEvent::Requested),
        ),
{
    assert(events.push(CancelEvent::Checked).drop_last() =~= events);
}

/// The flag is clear at first. Asking sets it, a start of a scan clears it, and looking at it
/// leaves it, whatever came before.
pub proof fn law_flag_after_each_event(events: Seq<CancelEvent>, flag: bool)
    ensures
        !flag_after(Seq::empty()),
        flag_after(events.push(CancelEvent::Requested)),
        !flag_after(events.push(CancelEvent::Started)),
        flag_after(events.push(CancelEvent::Checked)) == flag_after(events),
        flag_step(flag, CancelEvent::Requested),
        !flag_step(flag, CancelEvent::Started),
        flag_step(flag, CancelEvent::Checked) == flag,
{
    law_checking_and_asking_again_change_nothing(events);
}

} // verus!
