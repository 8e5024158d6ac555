use vstd::prelude::*;

use crate::database::{has_duplicate, is_sorted_listing, max_id, DatabaseApi, DbEvent, DbTag, StoreView};
use crate::error::StoreError;
use crate::models::{
    event_views, texts, Event, EventList, EventView, ListOptions, PhaticMessage, TagList,
    DEFAULT_LAST_ID, DEFAULT_LIMIT,
};

verus! {

/// The registry `tags` after registering each of `ts` in turn: a text not yet
/// there is added at the end, one already there changes nothing.
pub open spec fn with_tags(tags: Seq<Seq<char>>, ts: Seq<Seq<char>>) -> Seq<Seq<char>>
    decreases ts.len(),
{
    if ts.len() == 0 {
        tags
    } else {
        let prev = with_tags(tags, ts.drop_last());
        if prev.contains(ts.last()) {
            prev
        } else {
            prev.push(ts.last())
        }
    }
}

/// The value of an optional number, or `d` where there is none.
pub open spec fn or_default(o: Option<i64>, d: i64) -> i64 {
    match o {
        Some(x) => x,
        None => d,
    }
}

/// Why the store refuses to record the event `ev`, if it does: no tables, no
/// room for its id or for its tags were they all new, or a tag named twice.
pub open spec fn status_refusal(s: StoreView, ev: EventView) -> Option<StoreError> {
    if !s.tables {
        Some(StoreError::NoSuchTable)
    } else if s.tags.len() + ev.tags.len() > max_id() || s.events.len() >= max_id() {
        Some(StoreError::Full)
    } else if has_duplicate(ev.tags) {
        Some(StoreError::DuplicateTag)
    } else {
        None
    }
}

/// `new` is `old` with the event `ev` recorded: its tags registered, and the
/// event stored under the next id, reading back as sent.
pub open spec fn status_stored(old: StoreView, ev: EventView, new: StoreView) -> bool {
    &&& new.tables == old.tables
    &&& new.tags == with_tags(old.tags, ev.tags)
    &&& new.events.len() == old.events.len() + 1
    &&& new.events.subrange(0, old.events.len() as int) == old.events
    &&& new.event_view(old.events.len() as int) == ev
}

/// What handling the message `msg` on the store `old` may lead to: the store
/// `new` and the result `r`.
pub open spec fn dispatched(
    old: StoreView,
    msg: PhaticMessage,
    new: StoreView,
    r: Result<Option<PhaticMessage>, StoreError>,
) -> bool {
    match msg {
        PhaticMessage::Status(ev) => match status_refusal(old, ev@) {
            Some(e) => r == Err::<Option<PhaticMessage>, StoreError>(e) && new == old,
            None => r == Ok::<Option<PhaticMessage>, StoreError>(None) && status_stored(old, ev@, new),
        },
        PhaticMessage::Request(o) => new == old && if old.tables {
            r is Ok && r->Ok_0 is Some && r->Ok_0->Some_0 is StatusList && old.listing(
                or_default(o.last_id, DEFAULT_LAST_ID) as int,
                or_default(o.limit, DEFAULT_LIMIT) as int,
                r->Ok_0->Some_0->StatusList_0.last_id as int,
                event_views(r->Ok_0->Some_0->StatusList_0.events@),
            )
        } else {
            r == Err::<Option<PhaticMessage>, StoreError>(StoreError::NoSuchTable)
        },
        PhaticMessage::TagRequest(_) => new == old && if old.tables {
            r is Ok && r->Ok_0 is Some && r->Ok_0->Some_0 is TagList && is_sorted_listing(
                old.tags,
                texts(r->Ok_0->Some_0->TagList_0.tags@),
            )
        } else {
            r == Err::<Option<PhaticMessage>, StoreError>(StoreError::NoSuchTable)
        },
        PhaticMessage::StatusList(_) => new == old && r == Ok::<Option<PhaticMessage>, StoreError>(Some(msg)),
        PhaticMessage::TagList(_) => new == old && r == Ok::<Option<PhaticMessage>, StoreError>(Some(msg)),
    }
}

/// Records an event sent by a client: registers its tag texts, then stores the
/// event with their ids. Every check is made before anything is written, so a
/// refused event leaves the store as it was.
pub fn record_status(database: &mut DatabaseApi, event: Event) -> (r: Result<(), StoreError>)
    requires
        old(database)@.wf(),
    ensures
        final(database)@.wf(),
        match status_refusal(old(database)@, event@) {
            Some(e) => r == Err::<(), StoreError>(e) && final(database)@ == old(database)@,
            None => r is Ok && status_stored(old(database)@, event@, final(database)@),
        },
{
    let ghost ts = event@.tags;
    if !database.has_tables() {
        return Err(StoreError::NoSuchTable);
    }
    let n_tags = database.tag_count();
    let n_events = database.event_count();
    if event.tags.len() as u64 > i64::MAX as u64 - n_tags as u64 || n_events as u64 >= i64::MAX as u64 {
        return Err(StoreError::Full);
    }
    assert(ts.len() == event.tags@.len());
    let mut a: usize = 0;
    while a < event.tags.len()
        invariant
            a <= event.tags.len(),
            ts == texts(event.tags@),
            database@ == old(database)@,
            old(database)@.wf(),
            old(database)@.tables,
            old(database)@.tags.len() + ts.len() <= max_id(),
            old(database)@.events.len() < max_id(),
            forall|x: int, y: int| 0 <= x < a && x < y < ts.len() ==> ts[x] != ts[y],
        decreases event.tags.len() - a,
    {
        let mut b: usize = a + 1;
        while b < event.tags.len()
            invariant
                a < b <= event.tags.len(),
                ts == texts(event.tags@),
                database@ == old(database)@,
                old(database)@.wf(),
                old(database)@.tables,
                old(database)@.tags.len() + ts.len() <= max_id(),
                old(database)@.events.len() < max_id(),
                forall|x: int, y: int| 0 <= x < a && x < y < ts.len() ==> ts[x] != ts[y],
                forall|y: int| a < y < b ==> ts[a as int] != ts[y],
            decreases event.tags.len() - b,
        {
            if event.tags[a] == event.tags[b] {
                assert(ts[a as int] == ts[b as int]);
                return Err(StoreError::DuplicateTag);
            }
            b = b + 1;
        }
        a = a + 1;
    }
    assert(!has_duplicate(ts));
    let ghost start = database@;
    let mut ids: Vec<i64> = Vec::new();
    let mut k: usize = 0;
    while k < event.tags.len()
        invariant
            k <= event.tags.len(),
            ts == texts(event.tags@),
            ts.len() + start.tags.len() <= max_id(),
            start.tables,
            start.events.len() < max_id(),
            database@.wf(),
            database@.tables,
            database@.events == start.events,
            database@.tags == with_tags(start.tags, ts.subrange(0, k as int)),
            database@.tags.len() <= start.tags.len() + k,
            ids@.len() == k,
            forall|j: int| 0 <= j < k ==> database@.tag_id(ts[j], #[trigger] ids@[j] as int),
        decreases event.tags.len() - k,
    {
        let text = event.tags[k].clone();
        let ghost before = database@;
        let res = database.register_tag(DbTag { text });
        assert(ts.subrange(0, k + 1).drop_last() =~= ts.subrange(0, k as int));
        assert(ts.subrange(0, k + 1).last() == ts[k as int]);
        let id = match res {
            Ok(id) => id,
            Err(e) => {
                return Err(e);
            },
        };
        assert(database@.tag_id(ts[k as int], id as int)) by {
            if !before.tags.contains(ts[k as int]) {
                assert(database@.tags.last() == ts[k as int]);
            }
        }
        assert forall|j: int| 0 <= j < k implies database@.tag_id(ts[j], #[trigger] ids@[j] as int) by {
            assert(before.tag_id(ts[j], ids@[j] as int));
        }
        ids.push(id);
        k = k + 1;
    }
    assert(ts.subrange(0, k as int) =~= ts);
    let ghost mid = database@;
    let ghost id_seq = ids@.map_values(|t: i64| t as int);
    assert forall|x: int, y: int| 0 <= x < y < id_seq.len() implies id_seq[x] != id_seq[y] by {
        assert(mid.tag_id(ts[x], ids@[x] as int));
        assert(mid.tag_id(ts[y], ids@[y] as int));
    }
    assert forall|x: int| 0 <= x < id_seq.len() implies 1 <= #[trigger] id_seq[x] <= mid.tags.len() by {
        assert(mid.tag_id(ts[x], ids@[x] as int));
    }
    let db_event = DbEvent {
        message: event.message,
        app: event.app,
        tags: ids,
        epoch_seconds: event.epoch_seconds,
    };
    assert(crate::database::row_of(db_event).tags =~= id_seq);
    let res = database.register_event(db_event);
    match res {
        Ok(()) => {},
        Err(e) => {
            return Err(e);
        },
    }
    proof {
        let new = database@;
        let i = start.events.len() as int;
        assert(new.events.subrange(0, i) =~= start.events);
        assert(new.event_view(i).tags =~= ts) by {
            assert forall|x: int| 0 <= x < ts.len() implies new.event_view(i).tags[x] == ts[x] by {
                assert(mid.tag_id(ts[x], ids@[x] as int));
            }
        }
    }
    Ok(())
}

/// Handles one message: a `Status` is recorded with no reply, a `Request`
/// is answered with a `StatusList`, a `TagRequest` with a `TagList`, and a
/// `StatusList` or `TagList` is handed back unchanged.
pub fn handle_phatic_message(msg: PhaticMessage, database: &mut DatabaseApi) -> (r: Result<
    Option<PhaticMessage>,
    StoreError,
>)
    requires
        old(database)@.wf(),
    ensures
        final(database)@.wf(),
        dispatched(old(database)@, msg, final(database)@, r),
{
    match msg {
        PhaticMessage::TagList(..) | PhaticMessage::StatusList(..) => Ok(Some(msg)),
        PhaticMessage::Request(ListOptions { last_id, limit }) => {
            let start = match last_id {
                Some(x) => x,
                None => DEFAULT_LAST_ID,
            };
            let count = match limit {
                Some(x) => x,
                None => DEFAULT_LIMIT,
            };
            match database.events_after_id(start, count) {
                Ok((max_id, events)) => Ok(
                    Some(PhaticMessage::StatusList(EventList { events, last_id: max_id })),
                ),
                Err(e) => Err(e),
            }
        },
        PhaticMessage::TagRequest(..) => match database.all_tags() {
            Ok(tags) => Ok(Some(PhaticMessage::TagList(TagList { tags }))),
            Err(e) => Err(e),
        },
        PhaticMessage::Status(event) => {
            match record_status(database, event) {
                Ok(()) => Ok(None),
                Err(e) => Err(e),
            }
        },
    }
}

} // verus!
