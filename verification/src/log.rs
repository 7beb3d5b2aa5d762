//! The event log that stands behind every aggregate: `libocc`'s projector.
//!
//! What this file says of the projector is taken for granted, not proved:
//! the rest of the library rests on it. Only `projection_entries`, which
//! copies what the projector hands out, is verified.

use crate::entry::{
    entry_views, projects_to, EntryView, EventKind, EventView, ProjectionEntry, ProjectionEvent,
};
use libocc::{Event, Projector, Segment};
use std::borrow::Cow;
use vstd::prelude::*;

verus! {

/// `libocc::Projector`: an append-only event log in one or more segments,
/// together with the projection of its events.
#[verifier::external_type_specification]
#[verifier::external_body]
#[verifier::reject_recursive_types(T)]
pub struct ExProjector<'a, T: Clone + PartialEq>(Projector<'a, T>);

/// `libocc::Segment`: one stretch of a projector's log. The library never
/// looks into one.
#[verifier::external_type_specification]
#[verifier::external_body]
#[verifier::reject_recursive_types(T)]
pub struct ExSegment<'a, T: Clone + PartialEq>(Segment<'a, T>);

/// The projection that the log holds: the payloads of the snapshot of its
/// last segment, in the snapshot's order.
pub uninterp spec fn log_projection(log: Projector<'static, ProjectionEntry>) -> Seq<EntryView>;

/// The events that the log holds: those of all its segments, oldest first,
/// each without its timestamp.
pub uninterp spec fn log_events(log: Projector<'static, ProjectionEntry>) -> Seq<EventView>;

/// The number of segments of the log.
pub uninterp spec fn log_segments(log: Projector<'static, ProjectionEntry>) -> nat;

/// `Projector::new`: a log of one segment, which holds no event and
/// projects to nothing.
#[verifier::external_body]
pub(crate) fn new_log() -> (log: Projector<'static, ProjectionEntry>)
    ensures
        log_projection(log) == Seq::<EntryView>::empty(),
        log_events(log) == Seq::<EventView>::empty(),
        log_segments(log) == 1,
{
    Projector::new()
}

/// `Projector::get_segments`, for its length: the number of segments.
#[verifier::external_body]
pub(crate) fn segment_count(log: &Projector<'static, ProjectionEntry>) -> (count: usize)
    ensures
        count == log_segments(*log),
{
    log.get_segments().len()
}

/// The views of the payloads of a projection, in the same order.
pub open spec fn payload_views(payloads: Seq<Cow<'static, ProjectionEntry>>) -> Seq<EntryView> {
    payloads.map_values(|payload: Cow<'static, ProjectionEntry>| payload@)
}

/// `Projector::get_projection`: the payloads of the projection, in order.
/// The projector reads its last segment, so it must have one.
#[verifier::external_body]
pub(crate) fn projection_of<'a>(log: &'a Projector<'static, ProjectionEntry>) -> (payloads: &'a Vec<
    Cow<'static, ProjectionEntry>,
>)
    requires
        log_segments(*log) > 0,
    ensures
        payload_views(payloads@) == log_projection(*log),
{
    log.get_projection()
}

/// A copy of each payload of the projection of `log`, in order.
pub(crate) fn projection_entries(log: &Projector<'static, ProjectionEntry>) -> (entries: Vec<
    ProjectionEntry,
>)
    requires
        log_segments(*log) > 0,
    ensures
        entry_views(entries@) == log_projection(*log),
{
    let payloads = projection_of(log);
    let mut entries: Vec<ProjectionEntry> = Vec::new();
    let mut k: usize = 0;
    while k < payloads.len()
        invariant
            k <= payloads.len(),
            entries.len() == k,
            forall|j: int| 0 <= j < k ==> (#[trigger] entries@[j])@ == payloads@[j]@,
        decreases payloads.len() - k,
    {
        let entry = match &payloads[k] {
            Cow::Borrowed(shared) => (*shared).clone(),
            Cow::Owned(owned) => owned.clone(),
        };
        entries.push(entry);
        k += 1;
    }
    assert(entry_views(entries@) =~= payload_views(payloads@));
    entries
}

/// `Projector::push` of the event that `Event::create`, `Event::update` or
/// `Event::delete` makes of the payload, stamped with the time of the call.
///
/// The log may turn any event down: one that its clock dates before an
/// earlier one, a creation of an entity that the projection holds, an update
/// or a deletion of one that it does not hold. Then nothing has changed.
/// Where it accepts, the event is the last of the log and the projection has
/// changed as `projects_to` says, payloads being compared with the `==` of
/// `ProjectionEntry`. The projector writes to its last segment, so it must
/// have one. The event is stamped from the system clock, which is taken to
/// stand at or after the start of 1970, as `chrono` takes it.
#[verifier::external_body]
pub(crate) fn push_event(log: &mut Projector<'static, ProjectionEntry>, event: ProjectionEvent) -> (outcome:
    Result<(), anyhow::Error>)
    requires
        log_segments(*old(log)) > 0,
    ensures
        log_segments(*final(log)) == log_segments(*old(log)),
        outcome is Ok ==> log_events(*final(log)) == log_events(*old(log)).push(event@),
        outcome is Ok ==> projects_to(log_projection(*old(log)), event@, log_projection(*final(log))),
        outcome is Err ==> log_events(*final(log)) == log_events(*old(log)),
        outcome is Err ==> log_projection(*final(log)) == log_projection(*old(log)),
{
    let payload = Cow::Owned(event.entry);
    log.push(
        match event.kind {
            EventKind::Create => Event::create(payload),
            EventKind::Update => Event::update(payload),
            EventKind::Delete => Event::delete(payload),
        },
    )
}

} // verus!
