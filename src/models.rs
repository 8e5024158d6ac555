use vstd::prelude::*;

verus! {

/// The texts held by a list of strings.
pub open spec fn texts(v: Seq<String>) -> Seq<Seq<char>> {
    v.map_values(|s: String| s@)
}

/// An event as clients send and receive it: tags are given by their text.
#[derive(Debug)]
pub struct Event {
    pub message: String,
    pub tags: Vec<String>,
    pub app: String,
    pub epoch_seconds: i64,
}

/// The mathematical value of an [`Event`].
pub ghost struct EventView {
    pub message: Seq<char>,
    pub tags: Seq<Seq<char>>,
    pub app: Seq<char>,
    pub epoch_seconds: int,
}

impl View for Event {
    type V = EventView;

    open spec fn view(&self) -> EventView {
        EventView {
            message: self.message@,
            tags: texts(self.tags@),
            app: self.app@,
            epoch_seconds: self.epoch_seconds as int,
        }
    }
}

/// The values of a list of events.
pub open spec fn event_views(v: Seq<Event>) -> Seq<EventView> {
    v.map_values(|e: Event| e@)
}

/// A page of events together with the cursor from which to resume.
#[derive(Debug)]
pub struct EventList {
    pub events: Vec<Event>,
    pub last_id: i64,
}

/// Where a listing starts and how many events it may hold.
#[derive(Debug)]
pub struct ListOptions {
    pub last_id: Option<i64>,
    pub limit: Option<i64>,
}

/// Options of a tag listing; the limit is carried but not applied.
#[derive(Debug)]
pub struct TagListOptions {
    pub limit: Option<i64>,
}

/// All tag texts, in lexicographic order.
#[derive(Debug)]
pub struct TagList {
    pub tags: Vec<String>,
}

/// The messages exchanged with the store: two requests that read, one that
/// writes, and the two responses.
#[derive(Debug)]
pub enum PhaticMessage {
    Status(Event),
    Request(ListOptions),
    StatusList(EventList),
    TagRequest(TagListOptions),
    TagList(TagList),
}

/// Where a listing starts when the request names no cursor.
pub const DEFAULT_LAST_ID: i64 = -1;

/// How many events a listing holds when the request names no limit.
pub const DEFAULT_LIMIT: i64 = 100;

} // verus!
