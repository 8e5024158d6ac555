use vstd::prelude::*;

use crate::api::{record_status, status_stored, with_tags};
use crate::database::{has_duplicate, max_id, DatabaseApi, DbTag, StoreView};
use crate::error::StoreError;
use crate::models::{Event, EventView};

verus! {

/// The tags that the sample data registers, in order.
pub open spec fn sample_tags() -> Seq<Seq<char>> {
    seq!["build"@, "js"@, "go"@, "helm"@, "deploy"@, "automation"@]
}

/// The sample events, the first stamped `now` and each next one a second later.
pub open spec fn sample_events(now: int) -> Seq<EventView> {
    seq![
        EventView {
            message: "Starting a build"@,
            tags: seq!["build"@, "js"@, "helm"@],
            app: "concourse"@,
            epoch_seconds: now,
        },
        EventView {
            message: "Deploying helm"@,
            tags: seq!["helm"@, "deploy"@, "go"@],
            app: "git"@,
            epoch_seconds: now + 1,
        },
        EventView {
            message: "Toggling storage radiator"@,
            tags: seq!["js"@, "automation"@],
            app: "git"@,
            epoch_seconds: now + 2,
        },
    ]
}

proof fn lemma_with_tags_extends(t: Seq<Seq<char>>, s: Seq<Seq<char>>)
    ensures
        with_tags(t, s).len() <= t.len() + s.len(),
        with_tags(t, s).len() >= t.len(),
        forall|i: int| 0 <= i < t.len() ==> with_tags(t, s)[i] == t[i],
        forall|x: Seq<char>| s.contains(x) ==> with_tags(t, s).contains(x),
    decreases s.len(),
{
    if s.len() > 0 {
        lemma_with_tags_extends(t, s.drop_last());
        let prev = with_tags(t, s.drop_last());
        assert forall|x: Seq<char>| s.contains(x) implies with_tags(t, s).contains(x) by {
            let k = choose|k: int| 0 <= k < s.len() && s[k] == x;
            if k < s.len() - 1 {
                assert(s.drop_last()[k] == x);
                assert(s.drop_last().contains(x));
                let m = choose|m: int| 0 <= m < prev.len() && prev[m] == x;
                if !prev.contains(s.last()) {
                    assert(prev.push(s.last())[m] == x);
                }
            } else if !prev.contains(s.last()) {
                assert(prev.push(s.last())[prev.len() as int] == x);
            }
        }
    }
}

proof fn lemma_with_known_tags(t: Seq<Seq<char>>, s: Seq<Seq<char>>)
    requires
        forall|k: int| 0 <= k < s.len() ==> t.contains(#[trigger] s[k]),
    ensures
        with_tags(t, s) == t,
    decreases s.len(),
{
    if s.len() > 0 {
        lemma_with_known_tags(t, s.drop_last());
        assert(t.contains(s[s.len() - 1]));
    }
}

/// A stored event reads the same after the registry grows.
proof fn lemma_event_view_kept(s: StoreView, s2: StoreView, i: int)
    requires
        s.wf(),
        0 <= i < s.events.len(),
        s2.events[i] == s.events[i],
        s2.tags.len() >= s.tags.len(),
        forall|j: int| 0 <= j < s.tags.len() ==> s2.tags[j] == s.tags[j],
    ensures
        s2.event_view(i) == s.event_view(i),
{
    let ids = s.events[i].tags;
    assert(crate::database::tag_ids_ok(ids, s.tags.len() as int));
    assert(s2.event_view(i).tags =~= s.event_view(i).tags) by {
        assert forall|k: int| 0 <= k < ids.len() implies s2.event_view(i).tags[k] == s.event_view(i).tags[k] by {
            assert(1 <= ids[k] <= s.tags.len());
        }
    }
}

/// One step of the sample data: a status recorded on a store with room.
proof fn lemma_sample_step(s: StoreView, ev: EventView, s2: StoreView)
    requires
        status_stored(s, ev, s2),
    ensures
        s2.tags.len() >= s.tags.len(),
        forall|j: int| 0 <= j < s.tags.len() ==> s2.tags[j] == s.tags[j],
        forall|x: Seq<char>| s.tags.contains(x) ==> s2.tags.contains(x),
        forall|j: int| 0 <= j < s.events.len() ==> s2.events[j] == s.events[j],
{
    lemma_with_tags_extends(s.tags, ev.tags);
    assert forall|j: int| 0 <= j < s.events.len() implies s2.events[j] == s.events[j] by {
        assert(s2.events.subrange(0, s.events.len() as int)[j] == s2.events[j]);
    }
    assert forall|x: Seq<char>| s.tags.contains(x) implies s2.tags.contains(x) by {
        let k = choose|k: int| 0 <= k < s.tags.len() && s.tags[k] == x;
        assert(s2.tags[k] == x);
    }
}

impl DatabaseApi {
    /// Registers a tag that the sample data needs.
    fn add_sample_tag(&mut self, text: &str) -> (r: Result<(), StoreError>)
        requires
            old(self)@.wf(),
            old(self)@.tables,
            old(self)@.tags.len() < max_id(),
        ensures
            final(self)@.wf(),
            r is Ok,
            final(self)@.tables,
            final(self)@.events == old(self)@.events,
            final(self)@.tags.contains(text@),
            final(self)@.tags.len() <= old(self)@.tags.len() + 1,
            forall|j: int| 0 <= j < old(self)@.tags.len() ==> final(self)@.tags[j] == old(self)@.tags[j],
            forall|x: Seq<char>| old(self)@.tags.contains(x) ==> final(self)@.tags.contains(x),
    {
        let ghost s = self@;
        let r = self.register_tag(DbTag { text: text.to_owned() });
        proof {
            if !s.tags.contains(text@) {
                assert(self@.tags[s.tags.len() as int] == text@);
            }
            assert forall|x: Seq<char>| s.tags.contains(x) implies self@.tags.contains(x) by {
                let k = choose|k: int| 0 <= k < s.tags.len() && s.tags[k] == x;
                assert(self@.tags[k] == x);
            }
        }
        match r {
            Ok(_) => Ok(()),
            Err(e) => Err(e),
        }
    }

    /// Fills the store with a few tags and events to look at, the events
    /// stamped from `seconds_since_epoch` on.
    pub fn add_fake_data(&mut self, seconds_since_epoch: i64) -> (r: Result<(), StoreError>)
        requires
            old(self)@.wf(),
            seconds_since_epoch <= i64::MAX - 2,
        ensures
            final(self)@.wf(),
            !old(self)@.tables ==> r == Err::<(), StoreError>(StoreError::NoSuchTable)
                && final(self)@ == old(self)@,
            old(self)@.tables && old(self)@.tags.len() + 9 <= max_id() && old(self)@.events.len()
                + 3 <= max_id() ==> {
                &&& r is Ok
                &&& final(self)@.events.len() == old(self)@.events.len() + 3
                &&& final(self)@.events.subrange(0, old(self)@.events.len() as int) == old(self)@.events
                &&& forall|k: int| 0 <= k < 3 ==> #[trigger] final(self)@.event_view(
                    old(self)@.events.len() + k,
                ) == sample_events(seconds_since_epoch as int)[k]
                &&& forall|k: int| 0 <= k < 6 ==> final(self)@.tags.contains(#[trigger] sample_tags()[k])
            },
    {
        if !self.has_tables() {
            return Err(StoreError::NoSuchTable);
        }
        if self.tag_count() as u64 > i64::MAX as u64 - 9 || self.event_count() as u64 > i64::MAX as u64 - 3 {
            return Err(StoreError::Full);
        }
        let ghost s0 = self@;
        let ghost now = seconds_since_epoch as int;
        self.add_sample_tag("build")?;
        self.add_sample_tag("js")?;
        self.add_sample_tag("go")?;
        self.add_sample_tag("helm")?;
        self.add_sample_tag("deploy")?;
        self.add_sample_tag("automation")?;
        let ghost s1 = self@;
        proof {
            reveal_strlit("build");
            reveal_strlit("js");
            reveal_strlit("go");
            reveal_strlit("helm");
            reveal_strlit("deploy");
            reveal_strlit("automation");
            assert forall|k: int| 0 <= k < 6 implies s1.tags.contains(#[trigger] sample_tags()[k]) by {}
        }
        let e1 = Event {
            message: "Starting a build".to_owned(),
            tags: vec!["build".to_owned(), "js".to_owned(), "helm".to_owned()],
            app: "concourse".to_owned(),
            epoch_seconds: seconds_since_epoch,
        };
        proof {
            assert(e1@.tags =~= sample_events(now)[0].tags);
            assert(e1@ == sample_events(now)[0]);
            lemma_with_known_tags(s1.tags, e1@.tags);
            reveal_strlit("build");
            reveal_strlit("js");
            reveal_strlit("go");
            reveal_strlit("helm");
            reveal_strlit("deploy");
            assert(s1.tags.len() + e1@.tags.len() <= max_id());
            assert(s1.events.len() < max_id());
            assert forall|k: int, l: int| 0 <= k < l < e1@.tags.len() implies e1@.tags[k] != e1@.tags[l] by {
                assert(e1@.tags[k].len() != e1@.tags[l].len());
            }
            assert(!has_duplicate(e1@.tags));
        }
        record_status(self, e1)?;
        let ghost s2 = self@;
        proof {
            lemma_sample_step(s1, sample_events(now)[0], s2);
        }
        let e2 = Event {
            message: "Deploying helm".to_owned(),
            tags: vec!["helm".to_owned(), "deploy".to_owned(), "go".to_owned()],
            app: "git".to_owned(),
            epoch_seconds: seconds_since_epoch + 1,
        };
        proof {
            assert(e2@.tags =~= sample_events(now)[1].tags);
            assert(e2@ == sample_events(now)[1]);
            lemma_with_known_tags(s2.tags, e2@.tags);
            reveal_strlit("build");
            reveal_strlit("js");
            reveal_strlit("go");
            reveal_strlit("helm");
            reveal_strlit("deploy");
            assert(s2.tags.len() + e2@.tags.len() <= max_id());
            assert(s2.events.len() < max_id());
            assert forall|k: int, l: int| 0 <= k < l < e2@.tags.len() implies e2@.tags[k] != e2@.tags[l] by {
                assert(e2@.tags[k].len() != e2@.tags[l].len());
            }
            assert(!has_duplicate(e2@.tags));
        }
        record_status(self, e2)?;
        let ghost s3 = self@;
        proof {
            lemma_sample_step(s2, sample_events(now)[1], s3);
        }
        let e3 = Event {
            message: "Toggling storage radiator".to_owned(),
            tags: vec!["js".to_owned(), "automation".to_owned()],
            app: "git".to_owned(),
            epoch_seconds: seconds_since_epoch + 2,
        };
        proof {
            assert(e3@.tags =~= sample_events(now)[2].tags);
            assert(e3@ == sample_events(now)[2]);
            lemma_with_known_tags(s3.tags, e3@.tags);
            reveal_strlit("js");
            reveal_strlit("automation");
            assert forall|k: int, l: int| 0 <= k < l < e3@.tags.len() implies e3@.tags[k] != e3@.tags[l] by {
                assert(e3@.tags[k].len() != e3@.tags[l].len());
            }
            assert(!has_duplicate(e3@.tags));
        }
        record_status(self, e3)?;
        let ghost s4 = self@;
        proof {
            lemma_sample_step(s3, sample_events(now)[2], s4);
            let n = s0.events.len() as int;
            lemma_event_view_kept(s2, s4, n);
            lemma_event_view_kept(s3, s4, n + 1);
            assert(s4.events.subrange(0, n) =~= s0.events);
            assert(s4.event_view(n) == sample_events(now)[0]);
            assert(s4.event_view(n + 1) == sample_events(now)[1]);
            assert(s4.event_view(n + 2) == sample_events(now)[2]);
            assert forall|k: int| 0 <= k < 6 implies s4.tags.contains(#[trigger] sample_tags()[k]) by {}
        }
        Ok(())
    }
}

} // verus!
