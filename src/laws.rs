use vstd::prelude::*;

use crate::database::{event_registered, is_sorted_listing, tag_registered, RowView, StoreView};
use crate::error::StoreError;
use crate::order::lemma_text_lt_irreflexive;

verus! {

/// Registering the same text twice gives the same id both times and leaves the
/// registry as the first call left it; a tag listing afterwards holds the text
/// exactly once.
pub proof fn law_register_tag_idempotent(
    s0: StoreView,
    t: Seq<char>,
    s1: StoreView,
    r1: Result<i64, StoreError>,
    s2: StoreView,
    r2: Result<i64, StoreError>,
    listing: Seq<Seq<char>>,
)
    requires
        s0.wf(),
        s1.wf(),
        tag_registered(s0, t, s1, r1),
        tag_registered(s1, t, s2, r2),
        r1 is Ok,
        is_sorted_listing(s2.tags, listing),
    ensures
        r2 == r1,
        s2 == s1,
        listing.contains(t),
        forall|i: int, j: int|
            0 <= i < listing.len() && 0 <= j < listing.len() && listing[i] == t && listing[j] == t
                ==> i == j,
{
    assert(s1.tags.contains(t)) by {
        if s0.tags.contains(t) {
        } else {
            assert(s1.tags[s1.tags.len() - 1] == t);
        }
    }
    assert(s1.tag_id(t, r1->Ok_0 as int));
    assert(s1.tag_id(t, r2->Ok_0 as int));
    assert forall|i: int, j: int|
        0 <= i < listing.len() && 0 <= j < listing.len() && listing[i] == t && listing[j] == t
            implies i == j by {
        lemma_text_lt_irreflexive(t);
    }
}

/// The id that the store assigns to the `i`-th event of a run of
/// registrations through the states `states`.
pub open spec fn assigned_id(states: Seq<StoreView>, i: int) -> int {
    states[i].events.len() as int + 1
}

/// A run of registrations: each event of `rows` is registered, with success,
/// on the store that the one before left.
pub open spec fn registration_run(states: Seq<StoreView>, rows: Seq<RowView>) -> bool {
    &&& states.len() == rows.len() + 1
    &&& forall|i: int|
        0 <= i < rows.len() ==> event_registered(
            #[trigger] states[i],
            rows[i],
            states[i + 1],
            Ok::<(), StoreError>(()),
        )
}

proof fn lemma_run_grows(states: Seq<StoreView>, rows: Seq<RowView>, i: int, j: int)
    requires
        registration_run(states, rows),
        0 <= i <= j < states.len(),
    ensures
        states[j].events.len() == states[i].events.len() + (j - i),
        i < j ==> states[j].events.subrange(0, states[i].events.len() + 1int) == states[i].events.push(rows[i]),
    decreases j - i,
{
    if i < j {
        lemma_run_grows(states, rows, i, j - 1);
        assert(event_registered(states[j - 1], rows[j - 1], states[j], Ok::<(), StoreError>(())));
        assert(event_registered(states[i], rows[i], states[i + 1], Ok::<(), StoreError>(())));
        if i < j - 1 {
            assert(states[j].events.subrange(0, states[i].events.len() + 1int) =~= states[j - 1].events.subrange(0, states[i].events.len() + 1int));
        } else {
            assert(states[j].events.subrange(0, states[i].events.len() + 1int) =~= states[j].events);
        }
    }
}

/// In any run of registrations, the ids assigned strictly increase in the
/// order of the calls (so no two are equal), and each id keeps naming the
/// event it was assigned to.
pub proof fn law_event_ids_increase(states: Seq<StoreView>, rows: Seq<RowView>)
    requires
        registration_run(states, rows),
    ensures
        forall|i: int, j: int|
            0 <= i < j < rows.len() ==> assigned_id(states, i) < assigned_id(states, j),
        forall|i: int|
            0 <= i < rows.len() ==> #[trigger] states[rows.len() as int].events[assigned_id(states, i) - 1]
                == rows[i],
{
    let n = rows.len() as int;
    assert forall|i: int, j: int| 0 <= i < j < rows.len() implies assigned_id(states, i) < assigned_id(states, j) by {
        lemma_run_grows(states, rows, i, j);
    }
    assert forall|i: int| 0 <= i < rows.len() implies #[trigger] states[n].events[assigned_id(states, i) - 1]
        == rows[i] by {
        lemma_run_grows(states, rows, i, n);
        let k = states[i].events.len() as int;
        assert(states[n].events.subrange(0, k + 1)[k] == states[n].events[k]);
    }
}

/// An event stored without tags is on no page of any listing.
pub proof fn law_untagged_event_not_listed(
    s0: StoreView,
    row: RowView,
    s1: StoreView,
    start: int,
    limit: int,
    p: Seq<int>,
)
    requires
        event_registered(s0, row, s1, Ok::<(), StoreError>(())),
        row.tags.len() == 0,
        s1.is_page(start, limit, p),
    ensures
        !p.contains(s0.events.len() as int),
{
    let i = s0.events.len() as int;
    if p.contains(i) {
        let k = choose|k: int| 0 <= k < p.len() && p[k] == i;
        assert(s1.listed(start, p[k]));
    }
}

/// A registration is all or nothing: where it is refused the store is as it
/// was, so no event stands with part of its tags; where it succeeds the new
/// event holds every one of its tags.
pub proof fn law_registration_atomic(s0: StoreView, row: RowView, s1: StoreView, r: Result<(), StoreError>)
    requires
        event_registered(s0, row, s1, r),
    ensures
        r is Err ==> s1 == s0,
        r is Ok ==> s1.events.len() == s0.events.len() + 1 && s1.events[s0.events.len() as int].tags
            == row.tags && s1.events.subrange(0, s0.events.len() as int) == s0.events,
{
    if r is Ok {
        assert(s1.events.subrange(0, s0.events.len() as int) =~= s0.events);
    }
}

} // verus!
