use vstd::prelude::*;

use crate::error::StoreError;
use crate::models::{texts, event_views, Event, EventView};
use crate::order::{lemma_text_lt_total, lemma_text_lt_transitive, text_less, text_lt};

verus! {

/// An event as the store receives it: tags are given by their id.
pub struct DbEvent {
    pub message: String,
    pub app: String,
    pub tags: Vec<i64>,
    pub epoch_seconds: i64,
}

/// A tag as the store receives it.
pub struct DbTag {
    pub text: String,
}

impl From<String> for DbTag {
    fn from(s: String) -> (r: DbTag)
        ensures
            r.text@ == s@,
    {
        DbTag { text: s }
    }
}

impl vstd::std_specs::convert::FromSpecImpl<String> for DbTag {
    open spec fn obeys_from_spec() -> bool {
        true
    }

    open spec fn from_spec(s: String) -> DbTag {
        DbTag { text: s }
    }
}

/// One stored event: its id is its position plus one.
struct StatusRow {
    message: String,
    app: String,
    timestamp: i64,
    tags: Vec<i64>,
}

/// The value of a stored event.
pub ghost struct RowView {
    pub message: Seq<char>,
    pub app: Seq<char>,
    pub timestamp: int,
    pub tags: Seq<int>,
}

/// The value of the store: whether its tables exist, the tag texts (the tag
/// with id `k` at position `k - 1`) and the events (the event with id `k` at
/// position `k - 1`), each with the ids of its tags.
pub ghost struct StoreView {
    pub tables: bool,
    pub tags: Seq<Seq<char>>,
    pub events: Seq<RowView>,
}

/// The largest identifier the store can hand out.
pub open spec fn max_id() -> int {
    i64::MAX as int
}

/// Every id in `ids` names one of `n` tags, and none is named twice.
pub open spec fn tag_ids_ok(ids: Seq<int>, n: int) -> bool {
    &&& forall|k: int| 0 <= k < ids.len() ==> 1 <= #[trigger] ids[k] <= n
    &&& forall|k: int, l: int| 0 <= k < l < ids.len() ==> ids[k] != ids[l]
}

/// Some id in `ids` names no one of `n` tags.
pub open spec fn has_unknown_tag(ids: Seq<int>, n: int) -> bool {
    exists|k: int| 0 <= k < ids.len() && !(1 <= #[trigger] ids[k] <= n)
}

/// Some value stands twice in `s`.
pub open spec fn has_duplicate<A>(s: Seq<A>) -> bool {
    exists|k: int, l: int| 0 <= k < l < s.len() && s[k] == s[l]
}

/// The row that an event becomes.
pub open spec fn row_of(e: DbEvent) -> RowView {
    RowView {
        message: e.message@,
        app: e.app@,
        timestamp: e.epoch_seconds as int,
        tags: e.tags@.map_values(|t: i64| t as int),
    }
}

impl StoreView {
    /// Tag texts are unique, every event names known tags at most once each,
    /// and every id fits in an `i64`.
    pub open spec fn wf(self) -> bool {
        &&& self.tags.len() <= max_id()
        &&& self.events.len() <= max_id()
        &&& forall|i: int, j: int| 0 <= i < j < self.tags.len() ==> self.tags[i] != self.tags[j]
        &&& forall|e: int| 0 <= e < self.events.len() ==> tag_ids_ok(#[trigger] self.events[e].tags, self.tags.len() as int)
        &&& !self.tables ==> self.tags.len() == 0 && self.events.len() == 0
    }

    /// The id of the tag with text `t`, if any.
    pub open spec fn tag_id(self, t: Seq<char>, id: int) -> bool {
        1 <= id <= self.tags.len() && self.tags[id - 1] == t
    }

    /// Event `i` (at position `i`) is listed after cursor `start`: its id lies
    /// above the cursor and it has at least one tag.
    pub open spec fn listed(self, start: int, i: int) -> bool {
        &&& 0 <= i < self.events.len()
        &&& i + 1 > start
        &&& self.events[i].tags.len() > 0
    }

    /// Event `i` comes before event `j` in a listing: by timestamp, then by id.
    pub open spec fn before(self, i: int, j: int) -> bool {
        self.events[i].timestamp < self.events[j].timestamp || (self.events[i].timestamp
            == self.events[j].timestamp && i < j)
    }

    /// `p` (positions of events) is the page after `start` of at most `limit`
    /// events (any number when `limit` is negative): the earliest listed events
    /// in listing order.
    pub open spec fn is_page(self, start: int, limit: int, p: Seq<int>) -> bool {
        &&& forall|k: int| 0 <= k < p.len() ==> self.listed(start, #[trigger] p[k])
        &&& forall|k: int, l: int| 0 <= k < l < p.len() ==> self.before(p[k], p[l])
        &&& forall|i: int|
            #![trigger self.listed(start, i)]
            self.listed(start, i) && !p.contains(i) ==> forall|k: int|
                0 <= k < p.len() ==> self.before(#[trigger] p[k], i)
        &&& limit >= 0 ==> p.len() <= limit
        &&& (limit < 0 || p.len() < limit) ==> forall|i: int|
            #![trigger self.listed(start, i)]
            self.listed(start, i) ==> p.contains(i)
    }

    /// Event `i` as clients see it: its tags by text.
    pub open spec fn event_view(self, i: int) -> EventView {
        EventView {
            message: self.events[i].message,
            tags: self.events[i].tags.map_values(|t: int| self.tags[t - 1]),
            app: self.events[i].app,
            epoch_seconds: self.events[i].timestamp,
        }
    }

    /// The events at the positions of `p`, as clients see them.
    pub open spec fn page_events(self, p: Seq<int>) -> Seq<EventView> {
        p.map_values(|i: int| self.event_view(i))
    }

    /// A listing after `start` of at most `limit` events is the cursor `wm` and
    /// the events `evs`.
    pub open spec fn listing(self, start: int, limit: int, wm: int, evs: Seq<EventView>) -> bool {
        exists|p: Seq<int>|
            #[trigger] self.is_page(start, limit, p) && evs == self.page_events(p) && wm
                == watermark(p, start)
    }
}

/// The largest event id among positions `p`, or `start` where `p` is empty.
pub open spec fn watermark(p: Seq<int>, start: int) -> int
    decreases p.len(),
{
    if p.len() == 0 {
        start
    } else {
        let w = watermark(p.drop_last(), start);
        if p.last() + 1 > w {
            p.last() + 1
        } else {
            w
        }
    }
}

/// `out` lists the texts of `tags`, each once, in strictly increasing order.
pub open spec fn is_sorted_listing(tags: Seq<Seq<char>>, out: Seq<Seq<char>>) -> bool {
    &&& out.len() == tags.len()
    &&& forall|t: Seq<char>| out.contains(t) <==> tags.contains(t)
    &&& forall|i: int, j: int| 0 <= i < j < out.len() ==> text_lt(out[i], out[j])
}

proof fn lemma_insert_contains<A>(s: Seq<A>, p: int, x: A, y: A)
    requires
        0 <= p <= s.len(),
    ensures
        s.insert(p, x).contains(y) <==> (s.contains(y) || y == x),
{
    let n = s.insert(p, x);
    if n.contains(y) {
        let k = choose|k: int| 0 <= k < n.len() && n[k] == y;
        if k < p {
            assert(s[k] == y);
        } else if k > p {
            assert(s[k - 1] == y);
        }
    }
    if s.contains(y) {
        let k = choose|k: int| 0 <= k < s.len() && s[k] == y;
        if k < p {
            assert(n[k] == y);
        } else {
            assert(n[k + 1] == y);
        }
    }
    if y == x {
        assert(n[p] == x);
    }
}

/// What registering the tag text `t` on the store `old` leads to: the store
/// `new` and the result `r`. A known text gives its id and changes nothing; a
/// new one is added under the next id.
pub open spec fn tag_registered(old: StoreView, t: Seq<char>, new: StoreView, r: Result<i64, StoreError>) -> bool {
    if !old.tables {
        r == Err::<i64, StoreError>(StoreError::NoSuchTable) && new == old
    } else if old.tags.contains(t) {
        r is Ok && new == old && old.tag_id(t, r->Ok_0 as int)
    } else if old.tags.len() < max_id() {
        r == Ok::<i64, StoreError>((old.tags.len() + 1) as i64) && new == (StoreView {
            tags: old.tags.push(t),
            ..old
        })
    } else {
        r == Err::<i64, StoreError>(StoreError::Full) && new == old
    }
}

/// Why the store refuses the event row `row`, if it does.
pub open spec fn event_refusal(s: StoreView, row: RowView) -> Option<StoreError> {
    if !s.tables {
        Some(StoreError::NoSuchTable)
    } else if s.events.len() >= max_id() {
        Some(StoreError::Full)
    } else if has_unknown_tag(row.tags, s.tags.len() as int) {
        Some(StoreError::UnknownTag)
    } else if has_duplicate(row.tags) {
        Some(StoreError::DuplicateTag)
    } else {
        None
    }
}

/// What registering the event row `row` on the store `old` leads to: either
/// a refusal with the store unchanged, or the row stored whole under the next id.
pub open spec fn event_registered(old: StoreView, row: RowView, new: StoreView, r: Result<(), StoreError>) -> bool {
    match event_refusal(old, row) {
        Some(e) => r == Err::<(), StoreError>(e) && new == old,
        None => r is Ok && new == (StoreView { events: old.events.push(row), ..old }),
    }
}

/// The positions held in a vector of indices.
pub open spec fn positions(v: Seq<usize>) -> Seq<int> {
    v.map_values(|x: usize| x as int)
}

/// The event store and tag registry.
pub struct DatabaseApi {
    tables: bool,
    tags: Vec<String>,
    status: Vec<StatusRow>,
}

impl View for DatabaseApi {
    type V = StoreView;

    closed spec fn view(&self) -> StoreView {
        StoreView {
            tables: self.tables,
            tags: texts(self.tags@),
            events: self.status@.map_values(
                |r: StatusRow|
                    RowView {
                        message: r.message@,
                        app: r.app@,
                        timestamp: r.timestamp as int,
                        tags: r.tags@.map_values(|t: i64| t as int),
                    },
            ),
        }
    }
}

impl DatabaseApi {
    /// Whether the tables exist.
    pub(crate) fn has_tables(&self) -> (r: bool)
        ensures
            r == self@.tables,
    {
        self.tables
    }

    /// How many tags the registry holds.
    pub(crate) fn tag_count(&self) -> (r: usize)
        ensures
            r == self@.tags.len(),
    {
        self.tags.len()
    }

    /// How many events the store holds.
    pub(crate) fn event_count(&self) -> (r: usize)
        ensures
            r == self@.events.len(),
    {
        self.status.len()
    }

    /// A store with nothing in it, whose tables are yet to be created.
    pub fn new_temporary() -> (r: DatabaseApi)
        ensures
            r@.wf(),
            !r@.tables,
            r@.tags.len() == 0,
            r@.events.len() == 0,
    {
        let r = DatabaseApi { tables: false, tags: Vec::new(), status: Vec::new() };
        assert(r@.tags =~= Seq::<Seq<char>>::empty());
        assert(r@.events =~= Seq::<RowView>::empty());
        r
    }

    /// Creates the tables; refused where they exist.
    pub fn init_database(&mut self) -> (r: Result<(), StoreError>)
        requires
            old(self)@.wf(),
        ensures
            final(self)@.wf(),
            old(self)@.tables ==> r == Err::<(), StoreError>(StoreError::TablesExist) && final(self)@ == old(self)@,
            !old(self)@.tables ==> r is Ok && final(self)@ == (StoreView { tables: true, ..old(self)@ }),
    {
        if self.tables {
            Err(StoreError::TablesExist)
        } else {
            self.tables = true;
            Ok(())
        }
    }

    /// The position of the tag with text `text`, if there is one.
    fn find_tag(&self, text: &String) -> (r: Option<usize>)
        requires
            self@.wf(),
        ensures
            match r {
                Some(i) => i < self@.tags.len() && self@.tags[i as int] == text@,
                None => !self@.tags.contains(text@),
            },
    {
        let mut i: usize = 0;
        while i < self.tags.len()
            invariant
                i <= self.tags.len(),
                forall|k: int| 0 <= k < i ==> self@.tags[k] != text@,
            decreases self.tags.len() - i,
        {
            if self.tags[i] == *text {
                return Some(i);
            }
            i = i + 1;
        }
        None
    }

    /// Returns the id of the tag with this text, creating the tag first where
    /// there is none: registering the same text again returns the same id.
    pub fn register_tag(&mut self, tag: DbTag) -> (r: Result<i64, StoreError>)
        requires
            old(self)@.wf(),
        ensures
            final(self)@.wf(),
            tag_registered(old(self)@, tag.text@, final(self)@, r),
    {
        if !self.tables {
            return Err(StoreError::NoSuchTable);
        }
        assert(self@.tags.len() == self.tags@.len());
        match self.find_tag(&tag.text) {
            Some(i) => Ok(i as i64 + 1),
            None => {
                if self.tags.len() as u64 >= i64::MAX as u64 {
                    return Err(StoreError::Full);
                }
                let ghost before = self@;
                let id = self.tags.len() as i64 + 1;
                self.tags.push(tag.text);
                assert(self@.tags =~= before.tags.push(tag.text@));
                assert(self@.events == before.events);
                assert forall|e: int| 0 <= e < self@.events.len() implies tag_ids_ok(
                    #[trigger] self@.events[e].tags,
                    self@.tags.len() as int,
                ) by {
                    assert(tag_ids_ok(before.events[e].tags, before.tags.len() as int));
                }
                Ok(id)
            },
        }
    }

    /// Stores an event under the next id, with its tag associations, as one
    /// step: where any association would be refused, nothing is stored.
    pub fn register_event(&mut self, event: DbEvent) -> (r: Result<(), StoreError>)
        requires
            old(self)@.wf(),
        ensures
            final(self)@.wf(),
            event_registered(old(self)@, row_of(event), final(self)@, r),
    {
        let ghost ids = row_of(event).tags;
        if !self.tables {
            return Err(StoreError::NoSuchTable);
        }
        if self.status.len() as u64 >= i64::MAX as u64 {
            return Err(StoreError::Full);
        }
        assert(self@.tags.len() == self.tags@.len());
        assert(self@.events.len() == self.status@.len());
        let n = self.tags.len();
        let mut k: usize = 0;
        while k < event.tags.len()
            invariant
                k <= event.tags.len(),
                n == self@.tags.len(),
                self@ == old(self)@,
                self@.wf(),
                self@.tables,
                self@.events.len() < max_id(),
                ids == row_of(event).tags,
                forall|j: int| 0 <= j < k ==> 1 <= #[trigger] ids[j] <= n,
            decreases event.tags.len() - k,
        {
            let t = event.tags[k];
            if t < 1 || t as u64 > n as u64 {
                assert(!(1 <= ids[k as int] <= n));
                return Err(StoreError::UnknownTag);
            }
            k = k + 1;
        }
        let mut k: usize = 0;
        while k < event.tags.len()
            invariant
                k <= event.tags.len(),
                self@ == old(self)@,
                self@.wf(),
                self@.tables,
                self@.events.len() < max_id(),
                forall|j: int| 0 <= j < ids.len() ==> 1 <= #[trigger] ids[j] <= self@.tags.len(),
                ids == row_of(event).tags,
                forall|a: int, b: int| 0 <= a < k && a < b < ids.len() ==> ids[a] != ids[b],
            decreases event.tags.len() - k,
        {
            let mut l: usize = k + 1;
            while l < event.tags.len()
                invariant
                    k < l <= event.tags.len(),
                    self@ == old(self)@,
                    self@.wf(),
                    self@.tables,
                    self@.events.len() < max_id(),
                    forall|j: int| 0 <= j < ids.len() ==> 1 <= #[trigger] ids[j] <= self@.tags.len(),
                    ids == row_of(event).tags,
                    forall|a: int, b: int| 0 <= a < k && a < b < ids.len() ==> ids[a] != ids[b],
                    forall|b: int| k < b < l ==> ids[k as int] != ids[b],
                decreases event.tags.len() - l,
            {
                if event.tags[k] == event.tags[l] {
                    assert(ids[k as int] == ids[l as int]);
                    return Err(StoreError::DuplicateTag);
                }
                l = l + 1;
            }
            k = k + 1;
        }
        let ghost before = self@;
        let row = StatusRow {
            message: event.message,
            app: event.app,
            timestamp: event.epoch_seconds,
            tags: event.tags,
        };
        self.status.push(row);
        assert(self@.events =~= before.events.push(row_of(event)));
        assert(self@.tags == before.tags);
        Ok(())
    }

    /// All tag texts, each once, in lexicographic order.
    pub fn all_tags(&self) -> (r: Result<Vec<String>, StoreError>)
        requires
            self@.wf(),
        ensures
            !self@.tables ==> r is Err && r->Err_0 == StoreError::NoSuchTable,
            self@.tables ==> r is Ok && is_sorted_listing(self@.tags, texts(r->Ok_0@)),
    {
        if !self.tables {
            return Err(StoreError::NoSuchTable);
        }
        let ghost tags = self@.tags;
        assert(tags.len() == self.tags@.len());
        let mut out: Vec<String> = Vec::new();
        let mut i: usize = 0;
        assert(texts(out@) =~= Seq::<Seq<char>>::empty());
        while i < self.tags.len()
            invariant
                tags == self@.tags,
                tags.len() == self.tags@.len(),
                self@.wf(),
                i <= self.tags.len(),
                out@.len() == i,
                forall|t: Seq<char>| texts(out@).contains(t) <==> tags.subrange(0, i as int).contains(t),
                forall|a: int, b: int| 0 <= a < b < out@.len() ==> text_lt(out@[a]@, out@[b]@),
            decreases self.tags.len() - i,
        {
            let t = &self.tags[i];
            assert(t@ == tags[i as int]);
            let ghost o = texts(out@);
            let mut p: usize = 0;
            while p < out.len()
                invariant
                    p <= out.len(),
                    o == texts(out@),
                    forall|k: int| 0 <= k < p ==> text_lt(o[k], t@),
                ensures
                    p <= out.len(),
                    forall|k: int| 0 <= k < p ==> text_lt(o[k], t@),
                    p < out.len() ==> !text_lt(o[p as int], t@),
                decreases out.len() - p,
            {
                if !text_less(out[p].as_str(), t.as_str()) {
                    break;
                }
                p = p + 1;
            }
            proof {
                assert forall|k: int| p <= k < o.len() implies text_lt(t@, o[k]) by {
                    assert(o.contains(o[p as int]));
                    assert(tags.subrange(0, i as int).contains(o[p as int]));
                    let j = choose|j: int| 0 <= j < i && tags.subrange(0, i as int)[j] == o[p as int];
                    assert(tags[j] == o[p as int]);
                    assert(o[p as int] != t@);
                    lemma_text_lt_total(o[p as int], t@);
                    if k > p {
                        lemma_text_lt_transitive(t@, o[p as int], o[k]);
                    }
                }
            }
            let c = t.clone();
            out.insert(p, c);
            proof {
                let n = texts(out@);
                assert(n =~= o.insert(p as int, t@));
                assert(tags.subrange(0, i + 1) =~= tags.subrange(0, i as int).insert(i as int, t@));
                assert forall|y: Seq<char>| n.contains(y) <==> tags.subrange(0, i + 1).contains(y) by {
                    lemma_insert_contains(o, p as int, t@, y);
                    lemma_insert_contains(tags.subrange(0, i as int), i as int, t@, y);
                }
                assert forall|a: int, b: int| 0 <= a < b < out@.len() implies text_lt(out@[a]@, out@[b]@) by {
                    assert(out@[a]@ == n[a] && out@[b]@ == n[b]);
                    if b < p {
                        assert(n[a] == o[a] && n[b] == o[b]);
                    } else if b == p {
                        assert(n[a] == o[a]);
                    } else if a == p {
                        assert(n[b] == o[b - 1]);
                    } else if a < p {
                        assert(n[a] == o[a] && n[b] == o[b - 1]);
                        lemma_text_lt_transitive(o[a], t@, o[b - 1]);
                    } else {
                        assert(n[a] == o[a - 1] && n[b] == o[b - 1]);
                    }
                }
            }
            i = i + 1;
        }
        assert(tags.subrange(0, i as int) =~= tags);
        Ok(out)
    }

    /// Event `i` as clients see it, with its tags by text.
    fn event_at(&self, i: usize) -> (e: Event)
        requires
            self@.wf(),
            i < self@.events.len(),
        ensures
            e@ == self@.event_view(i as int),
    {
        assert(self@.events.len() == self.status@.len());
        assert(self@.tags.len() == self.tags@.len());
        let row = &self.status[i];
        let ghost rv = self@.events[i as int];
        assert(tag_ids_ok(rv.tags, self@.tags.len() as int));
        assert(rv.tags.len() == row.tags@.len());
        let mut tags: Vec<String> = Vec::new();
        let mut k: usize = 0;
        while k < row.tags.len()
            invariant
                k <= row.tags.len(),
                i < self@.events.len(),
                rv == self@.events[i as int],
                rv.tags.len() == row.tags@.len(),
                forall|j: int| 0 <= j < row.tags@.len() ==> rv.tags[j] == row.tags@[j] as int,
                tag_ids_ok(rv.tags, self@.tags.len() as int),
                self@.tags.len() == self.tags@.len(),
                texts(tags@) =~= rv.tags.subrange(0, k as int).map_values(|t: int| self@.tags[t - 1]),
            decreases row.tags.len() - k,
        {
            let t = row.tags[k];
            assert(rv.tags[k as int] == t as int);
            let n = self.tags.len();
            assert(t - 1 < n);
            let ti: usize = (t - 1) as usize;
            assert(ti as int == t - 1);
            let text = self.tags[ti].clone();
            assert(1 <= t <= self@.tags.len());
            assert(self@.tags[t - 1] == self.tags@[t - 1]@);
            assert(text@ == self@.tags[t - 1]);
            let ghost before = tags@;
            tags.push(text);
            assert(texts(tags@) =~= texts(before).push(text@));
            assert(texts(tags@) =~= rv.tags.subrange(0, k + 1).map_values(|t: int| self@.tags[t - 1]));
            k = k + 1;
        }
        assert(rv.tags.subrange(0, k as int) =~= rv.tags);
        let e = Event {
            message: row.message.clone(),
            tags,
            app: row.app.clone(),
            epoch_seconds: row.timestamp,
        };
        assert(e@.tags =~= self@.event_view(i as int).tags);
        e
    }

    /// The positions of all events listed after `start`, in listing order.
    fn listed_in_order(&self, start: i64) -> (r: Vec<usize>)
        requires
            self@.wf(),
        ensures
            forall|k: int| 0 <= k < r@.len() ==> self@.listed(start as int, #[trigger] r@[k] as int),
            forall|k: int, l: int| 0 <= k < l < r@.len() ==> self@.before(r@[k] as int, r@[l] as int),
            forall|i: int| #[trigger] self@.listed(start as int, i) ==> positions(r@).contains(i),
    {
        let ghost v = self@;
        assert(v.events.len() == self.status@.len());
        let mut out: Vec<usize> = Vec::new();
        let mut i: usize = 0;
        while i < self.status.len()
            invariant
                v == self@,
                v.wf(),
                v.events.len() == self.status@.len(),
                i <= self.status.len(),
                forall|k: int| 0 <= k < out@.len() ==> (#[trigger] out@[k] as int) < i && v.listed(start as int, out@[k] as int),
                forall|k: int, l: int| 0 <= k < l < out@.len() ==> v.before(out@[k] as int, out@[l] as int),
                forall|j: int| 0 <= j < i && #[trigger] v.listed(start as int, j) ==> positions(out@).contains(j),
            decreases self.status.len() - i,
        {
            let row = &self.status[i];
            assert(row.timestamp as int == v.events[i as int].timestamp);
            assert(row.tags@.len() == v.events[i as int].tags.len());
            if (i as i64) + 1 > start && row.tags.len() > 0 {
                let ts = row.timestamp;
                let mut p: usize = 0;
                while p < out.len()
                    invariant
                        v == self@,
                        v.events.len() == self.status@.len(),
                        i < self.status@.len(),
                        ts as int == v.events[i as int].timestamp,
                        p <= out.len(),
                        forall|k: int| 0 <= k < out@.len() ==> (#[trigger] out@[k] as int) < i,
                        forall|k: int| 0 <= k < p ==> v.events[#[trigger] out@[k] as int].timestamp <= ts,
                    ensures
                        p <= out.len(),
                        forall|k: int| 0 <= k < p ==> v.events[#[trigger] out@[k] as int].timestamp <= ts,
                        p < out.len() ==> v.events[out@[p as int] as int].timestamp > ts,
                    decreases out.len() - p,
                {
                    if self.status[out[p]].timestamp > ts {
                        break;
                    }
                    p = p + 1;
                }
                let ghost o = out@;
                out.insert(p, i);
                proof {
                    assert(positions(out@) =~= positions(o).insert(p as int, i as int));
                    assert forall|j: int| 0 <= j < i + 1 && #[trigger] v.listed(start as int, j) implies positions(out@).contains(j) by {
                        lemma_insert_contains(positions(o), p as int, i as int, j);
                    }
                    assert forall|k: int, l: int| 0 <= k < l < out@.len() implies v.before(out@[k] as int, out@[l] as int) by {
                        if l < p {
                            assert(out@[k] == o[k] && out@[l] == o[l]);
                        } else if l == p {
                            assert(out@[k] == o[k]);
                        } else if k == p {
                            assert(out@[l] == o[l - 1]);
                            assert(v.before(o[p as int] as int, o[l - 1] as int) || l - 1 == p);
                        } else if k < p {
                            assert(out@[k] == o[k] && out@[l] == o[l - 1]);
                            assert(v.before(o[p as int] as int, o[l - 1] as int) || l - 1 == p);
                        } else {
                            assert(out@[k] == o[k - 1] && out@[l] == o[l - 1]);
                        }
                    }
                }
            } else {
                proof {
                    assert(!v.listed(start as int, i as int));
                }
            }
            i = i + 1;
        }
        out
    }

    /// Lists the events after cursor `start_id`: those with a larger id and
    /// at least one tag, earliest timestamp first (ties by id), at most
    /// `max_count` of them (all where `max_count` is negative). The cursor
    /// returned is the largest id among them, or `start_id` where none is.
    pub fn events_after_id(&self, start_id: i64, max_count: i64) -> (r: Result<(i64, Vec<Event>), StoreError>)
        requires
            self@.wf(),
        ensures
            !self@.tables ==> r is Err && r->Err_0 == StoreError::NoSuchTable,
            self@.tables ==> r is Ok && self@.listing(
                start_id as int,
                max_count as int,
                r->Ok_0.0 as int,
                event_views(r->Ok_0.1@),
            ),
    {
        if !self.tables {
            return Err(StoreError::NoSuchTable);
        }
        let order = self.listed_in_order(start_id);
        let ghost v = self@;
        let ghost q = positions(order@);
        let take: usize = if max_count < 0 || max_count as u64 >= order.len() as u64 {
            order.len()
        } else {
            max_count as usize
        };
        let ghost p = q.subrange(0, take as int);
        let mut events: Vec<Event> = Vec::new();
        let mut wm: i64 = start_id;
        let mut k: usize = 0;
        while k < take
            invariant
                v == self@,
                v.wf(),
                take <= order@.len(),
                q == positions(order@),
                p == q.subrange(0, take as int),
                forall|j: int| 0 <= j < order@.len() ==> v.listed(start_id as int, #[trigger] order@[j] as int),
                k <= take,
                event_views(events@) =~= v.page_events(p.subrange(0, k as int)),
                wm as int == watermark(p.subrange(0, k as int), start_id as int),
            decreases take - k,
        {
            let idx = order[k];
            assert(v.listed(start_id as int, idx as int));
            assert(p[k as int] == idx as int);
            let e = self.event_at(idx);
            let ghost before = events@;
            events.push(e);
            assert(event_views(events@) =~= event_views(before).push(v.event_view(idx as int)));
            let id = idx as i64 + 1;
            if id > wm {
                wm = id;
            }
            assert(p.subrange(0, k + 1).drop_last() =~= p.subrange(0, k as int));
            assert(p.subrange(0, k + 1).last() == idx as int);
            assert(event_views(events@) =~= v.page_events(p.subrange(0, k + 1)));
            k = k + 1;
        }
        proof {
            assert(p.subrange(0, take as int) =~= p);
            assert forall|i: int| #![trigger v.listed(start_id as int, i)]
                v.listed(start_id as int, i) && !p.contains(i) implies forall|k: int|
                0 <= k < p.len() ==> v.before(#[trigger] p[k], i) by {
                assert(q.contains(i));
                let m = choose|m: int| 0 <= m < q.len() && q[m] == i;
                if m < take {
                    assert(p[m] == i);
                }
                assert forall|k: int| 0 <= k < p.len() implies v.before(#[trigger] p[k], i) by {
                    assert(p[k] == q[k]);
                }
            }
            if max_count < 0 || take < max_count {
                assert(p =~= q);
            }
            assert(v.is_page(start_id as int, max_count as int, p));
        }
        Ok((wm, events))
    }
}

} // verus!
