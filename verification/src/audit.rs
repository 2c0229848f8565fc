//! The audit log.
//!
//! Every significant event gets an id of its own and is kept in a bounded
//! list, newest last. Where a fact store is at hand, the kind of the event is
//! stored in it under the id, so that only the few kinds enter its
//! vocabulary.

use crate::adaptive::{self, AdaptiveMemory};
use crate::hlb::HlbError;
use crate::kernel::Kernel;
use crate::text::{
    self, contains_text, copy_pairs, decimal_string, padded_decimal, same_text, to_lowercase,
    truncated,
};
use std::collections::VecDeque;
use vstd::prelude::*;

verus! {

broadcast use {
    vstd::std_specs::vecdeque::group_vec_dequeue_axioms,
    vstd::string::group_string_axioms,
};

/// How many events a log keeps unless told otherwise.
pub const DEFAULT_CAPACITY: usize = 10_000;

/// How many characters of its context an event keeps unless told otherwise.
pub const DEFAULT_PREVIEW: usize = 200;

/// How many digits the counter in an event id has at least.
pub const COUNTER_DIGITS: usize = 6;

// ---------------------------------------------------------------------
// Kinds of events
// ---------------------------------------------------------------------

/// The kind of an event.
#[derive(Debug, Clone, Copy, PartialEq, Eq, Structural, Hash)]
pub enum EventKind {
    Store,
    Forget,
    IngestLink,
    RejectPii,
    RejectVocab,
    RejectSchema,
    RejectStrict,
    RejectOther,
    AssistantMsg,
}

/// The name of a kind.
pub open spec fn kind_name(kind: EventKind) -> Seq<char> {
    match kind {
        EventKind::Store => "store"@,
        EventKind::Forget => "forget"@,
        EventKind::IngestLink => "ingest_link"@,
        EventKind::RejectPii => "reject_pii"@,
        EventKind::RejectVocab => "reject_vocab"@,
        EventKind::RejectSchema => "reject_schema"@,
        EventKind::RejectStrict => "reject_strict"@,
        EventKind::RejectOther => "reject_other"@,
        EventKind::AssistantMsg => "assistant_msg"@,
    }
}

impl EventKind {
    /// The name of this kind.
    pub fn as_str(&self) -> (r: &'static str)
        ensures
            r@ == kind_name(*self),
    {
        match self {
            EventKind::Store => "store",
            EventKind::Forget => "forget",
            EventKind::IngestLink => "ingest_link",
            EventKind::RejectPii => "reject_pii",
            EventKind::RejectVocab => "reject_vocab",
            EventKind::RejectSchema => "reject_schema",
            EventKind::RejectStrict => "reject_strict",
            EventKind::RejectOther => "reject_other",
            EventKind::AssistantMsg => "assistant_msg",
        }
    }
}

/// The kind for a reason, in lower case, why something was rejected.
pub open spec fn rejection_kind(r: Seq<char>) -> EventKind {
    if text::has_part(r, "pii"@) && text::has_part(r, "detected"@) {
        EventKind::RejectPii
    } else if text::has_part(r, "vocab"@) && (text::has_part(r, "cap"@) || text::has_part(
        r,
        "full"@,
    )) {
        EventKind::RejectVocab
    } else if text::has_part(r, "not in allowed set"@) || text::has_part(r, "whitelist"@)
        || text::has_part(r, "predicate"@) {
        EventKind::RejectSchema
    } else if text::has_part(r, "strict_source_match"@) {
        EventKind::RejectStrict
    } else {
        EventKind::RejectOther
    }
}

/// The kind for a reason that is in lower case already.
pub fn classify_lowercase(r: &str) -> (kind: EventKind)
    ensures
        kind == rejection_kind(r@),
{
    if contains_text(r, "pii") && contains_text(r, "detected") {
        EventKind::RejectPii
    } else if contains_text(r, "vocab") && (contains_text(r, "cap") || contains_text(r, "full")) {
        EventKind::RejectVocab
    } else if contains_text(r, "not in allowed set") || contains_text(r, "whitelist")
        || contains_text(r, "predicate") {
        EventKind::RejectSchema
    } else if contains_text(r, "strict_source_match") {
        EventKind::RejectStrict
    } else {
        EventKind::RejectOther
    }
}

/// The kind for a reason why something was rejected, in any case.
pub fn classify_rejection(reason: &str) -> (kind: EventKind)
    ensures
        kind == rejection_kind(text::lowered(reason@)),
{
    classify_lowercase(&to_lowercase(reason))
}

/// A reason is classified the same in upper case, where it is all ASCII.
pub proof fn classes_ignore_ascii_case(reason: Seq<char>)
    requires
        text::all_ascii(reason),
    ensures
        rejection_kind(
            text::lowered(reason.map_values(|c: char| text::ascii_upper(c))),
        ) == rejection_kind(text::lowered(reason)),
{
    text::lowered_ignores_ascii_case(reason);
}

// ---------------------------------------------------------------------
// Events
// ---------------------------------------------------------------------

/// A point in time, counted from the start of 1970.
#[derive(Debug, Clone, Copy, PartialEq, Eq, Structural)]
pub struct Timestamp {
    pub secs: u64,
    pub nanos: u32,
}

/// The milliseconds of a point in time.
pub open spec fn millis(t: Timestamp) -> nat {
    (t.secs * 1000 + t.nanos / 1_000_000) as nat
}

/// An event in the log.
#[derive(Debug, Clone)]
pub struct AuditEvent {
    pub event_id: String,
    pub kind: EventKind,
    pub ts: Timestamp,
    pub user_id: String,
    pub context_preview: String,
    pub metadata: Vec<(String, String)>,
}

/// What an event holds.
#[verifier::ext_equal]
pub struct EventState {
    pub id: Seq<char>,
    pub kind: EventKind,
    pub ts: Timestamp,
    pub user: Seq<char>,
    pub preview: Seq<char>,
    pub metadata: Seq<(Seq<char>, Seq<char>)>,
}

impl View for AuditEvent {
    type V = EventState;

    open spec fn view(&self) -> EventState {
        EventState {
            id: self.event_id@,
            kind: self.kind,
            ts: self.ts,
            user: self.user_id@,
            preview: self.context_preview@,
            metadata: text::pair_texts(self.metadata@),
        }
    }
}

impl AuditEvent {
    /// A copy that holds the same.
    pub fn copy(&self) -> (r: Self)
        ensures
            r@ == self@,
    {
        AuditEvent {
            event_id: self.event_id.clone(),
            kind: self.kind,
            ts: self.ts,
            user_id: self.user_id.clone(),
            context_preview: self.context_preview.clone(),
            metadata: copy_pairs(&self.metadata),
        }
    }
}

/// The id of an event: the user, the time in milliseconds and the number of
/// the event.
pub open spec fn event_id(user: Seq<char>, ms: nat, counter: nat) -> Seq<char> {
    user + "_audit_"@ + text::decimal(ms) + seq!['_'] + text::zero_padded(
        text::decimal(counter),
        COUNTER_DIGITS as nat,
    )
}

/// Events with different numbers have different ids, whatever their users and
/// times.
pub proof fn event_ids_differ(u1: Seq<char>, m1: nat, c1: nat, u2: Seq<char>, m2: nat, c2: nat)
    requires
        event_id(u1, m1, c1) == event_id(u2, m2, c2),
    ensures
        c1 == c2,
{
    let id = event_id(u1, m1, c1);
    let h1 = u1 + "_audit_"@ + text::decimal(m1);
    let h2 = u2 + "_audit_"@ + text::decimal(m2);
    let t1 = text::zero_padded(text::decimal(c1), COUNTER_DIGITS as nat);
    let t2 = text::zero_padded(text::decimal(c2), COUNTER_DIGITS as nat);
    text::decimal_value_of_decimal(c1);
    text::decimal_value_of_decimal(c2);
    text::decimal_value_of_padded(text::decimal(c1), COUNTER_DIGITS as nat);
    text::decimal_value_of_padded(text::decimal(c2), COUNTER_DIGITS as nat);
    let s1 = h1 + seq!['_'] + t1;
    let s2 = h2 + seq!['_'] + t2;
    assert(id == s1 && id == s2);
    let p1 = h1.len() as int;
    let p2 = h2.len() as int;
    assert(s1.len() == p1 + 1 + t1.len());
    assert(s2.len() == p2 + 1 + t2.len());
    assert(s1[p1] == '_' && s2[p2] == '_');
    if p1 < p2 {
        assert(s1[p2] == t1[p2 - p1 - 1]);
        assert('0' <= t1[p2 - p1 - 1] <= '9');
    }
    if p2 < p1 {
        assert(s2[p1] == t2[p1 - p2 - 1]);
        assert('0' <= t2[p1 - p2 - 1] <= '9');
    }
    assert(t1 =~= t2) by {
        assert forall|i: int| 0 <= i < t1.len() implies t1[i] == t2[i] by {
            assert(s1[p1 + 1 + i] == t1[i]);
            assert(s2[p2 + 1 + i] == t2[i]);
        }
    }
}

// ---------------------------------------------------------------------
// The log
// ---------------------------------------------------------------------

/// The id of an event begins with its user, then tells the time and, in six digits
/// or more, the number of the event.
pub proof fn an_event_is_named_by_user_time_and_number(user: Seq<char>, ms: nat, counter: nat) -> (
    parts: (Seq<char>, Seq<char>))
    ensures
        event_id(user, ms, counter) == user + "_audit_"@ + parts.0 + "_"@ + parts.1,
        text::decimal_value(parts.0) == ms,
        text::decimal_value(parts.1) == counter,
        parts.1.len() >= 6,
        parts.1.len() > 6 ==> parts.1 == text::decimal(counter),
{
    let time = text::decimal(ms);
    let number = text::zero_padded(text::decimal(counter), COUNTER_DIGITS as nat);
    text::decimal_value_of_decimal(ms);
    text::decimal_value_of_decimal(counter);
    text::decimal_value_of_padded(text::decimal(counter), COUNTER_DIGITS as nat);
    reveal_strlit("_");
    assert("_"@ =~= seq!['_']);
    (time, number)
}

/// The milliseconds of a point in time are those that have passed: no more than it
/// and less than one fewer.
pub proof fn milliseconds_are_whole(t: Timestamp)
    requires
        t.nanos < 1_000_000_000,
    ensures
        millis(t) * 1_000_000 <= t.secs * 1_000_000_000 + t.nanos < (millis(t) + 1) * 1_000_000,
{
    assert(millis(t) * 1_000_000 == t.secs * 1_000_000_000 + (t.nanos / 1_000_000) * 1_000_000);
}

/// The kind of an event is stored under the event's own id.
pub proof fn the_kind_is_stored_under_the_event<K: Kernel>(
    k: K,
    v: adaptive::StoreState,
    id: Seq<char>,
    kind: EventKind,
    w: adaptive::StoreState,
    r: Result<usize, HlbError>,
)
    requires
        v.valid(),
        v.room <= usize::MAX,
        adaptive::stored_gives(k, v, kind_key(id), kind_name(kind), w, r),
        r is Ok,
    ensures
        w.facts() == v.facts().insert(id + "|audit_kind"@, kind_name(kind)),
{
    adaptive::store_inserts_the_fact(k, v, kind_key(id), kind_name(kind), w, r);
}

/// What a log holds: its events from the oldest to the newest, how many it
/// keeps, how many were ever recorded, and how much context each keeps.
#[verifier::ext_equal]
pub struct TrailState {
    pub events: Seq<EventState>,
    pub capacity: nat,
    pub counter: nat,
    pub preview_chars: nat,
}

/// The events after another one came in: a full list loses its oldest.
pub open spec fn remembered(events: Seq<EventState>, capacity: nat, e: EventState) -> Seq<
    EventState,
> {
    if events.len() >= capacity && events.len() > 0 {
        events.skip(1).push(e)
    } else {
        events.push(e)
    }
}

/// The events after `more` came in one by one.
pub open spec fn remembered_all(
    events: Seq<EventState>,
    capacity: nat,
    more: Seq<EventState>,
) -> Seq<EventState>
    decreases more.len(),
{
    if more.len() == 0 {
        events
    } else {
        remembered(remembered_all(events, capacity, more.drop_last()), capacity, more.last())
    }
}

/// Events that all fit are all kept.
pub proof fn events_that_fit_are_kept(capacity: nat, more: Seq<EventState>)
    requires
        more.len() <= capacity,
    ensures
        remembered_all(Seq::empty(), capacity, more) == more,
    decreases more.len(),
{
    if more.len() > 0 {
        events_that_fit_are_kept(capacity, more.drop_last());
        assert(more.drop_last().push(more.last()) =~= more);
    } else {
        assert(more =~= Seq::empty());
    }
}

/// Of events that come in one by one, the newest are kept, in order, as many as
/// there is room for.
pub proof fn the_newest_events_are_kept(capacity: nat, more: Seq<EventState>)
    requires
        capacity >= 1,
    ensures
        remembered_all(Seq::empty(), capacity, more) == (if more.len() <= capacity {
            more
        } else {
            more.skip(more.len() - capacity)
        }),
    decreases more.len(),
{
    if more.len() > 0 {
        let init = more.drop_last();
        the_newest_events_are_kept(capacity, init);
        let before = remembered_all(Seq::empty(), capacity, init);
        let all = remembered_all(Seq::empty(), capacity, more);
        if more.len() <= capacity {
            assert(all =~= more);
        } else {
            assert(before.len() == capacity);
            assert(all =~= more.skip(more.len() - capacity));
        }
    }
}

/// Whether an event is of the wanted kind and user.
pub open spec fn wanted(e: EventState, kind: Option<EventKind>, user: Option<Seq<char>>) -> bool {
    &&& kind is None || e.kind == kind->0
    &&& user is None || e.user == user->0
}

/// The newest `n` wanted events, newest first.
pub open spec fn newest(
    events: Seq<EventState>,
    n: nat,
    kind: Option<EventKind>,
    user: Option<Seq<char>>,
) -> Seq<EventState>
    decreases events.len(),
{
    if events.len() == 0 || n == 0 {
        Seq::empty()
    } else if wanted(events.last(), kind, user) {
        seq![events.last()] + newest(events.drop_last(), (n - 1) as nat, kind, user)
    } else {
        newest(events.drop_last(), n, kind, user)
    }
}

/// Without a filter and with room for all, the newest events are all events
/// in reverse.
pub proof fn newest_of_all_is_reverse(events: Seq<EventState>, n: nat)
    requires
        events.len() <= n,
    ensures
        newest(events, n, None, None) == events.reverse(),
    decreases events.len(),
{
    if events.len() > 0 {
        newest_of_all_is_reverse(events.drop_last(), (n - 1) as nat);
        assert(events.reverse() =~= seq![events.last()] + events.drop_last().reverse());
    } else {
        assert(events.reverse() =~= Seq::empty());
    }
}

/// Whatever is asked for, the events that are given are of the log, of the
/// wanted kind where one is given and of the wanted user where one is given; they
/// stand in reverse order; and no such event is passed over: all that are as new
/// as the oldest one given are given, and all of the log where fewer than `n` are.
/// The result tells where in the log the given events stand.
pub proof fn recent_events_are_the_newest_wanted(
    events: Seq<EventState>,
    n: nat,
    kind: Option<EventKind>,
    user: Option<Seq<char>>,
) -> (at: Seq<int>)
    ensures
        newest(events, n, kind, user).len() <= n,
        at.len() == newest(events, n, kind, user).len(),
        forall|i: int|
            0 <= i < at.len() ==> {
                &&& 0 <= #[trigger] at[i] < events.len()
                &&& newest(events, n, kind, user)[i] == events[at[i]]
                &&& kind matches Some(k) ==> events[at[i]].kind == k
                &&& user matches Some(u) ==> events[at[i]].user == u
            },
        forall|i: int, j: int| 0 <= i < j < at.len() ==> #[trigger] at[i] > #[trigger] at[j],
        forall|p: int|
            0 <= p < events.len() && (kind matches Some(k) ==> events[p].kind == k) && (
            user matches Some(u) ==> events[p].user == u) && (at.len() < n || (at.len() > 0 && p
                >= at[at.len() - 1])) ==> #[trigger] at.contains(p),
    decreases events.len(),
{
    if events.len() == 0 || n == 0 {
        Seq::empty()
    } else {
        let last = events.len() - 1;
        let init = events.drop_last();
        let fits = (kind matches Some(k) ==> events[last].kind == k) && (user matches Some(u)
            ==> events[last].user == u);
        if fits {
            let rest = recent_events_are_the_newest_wanted(init, (n - 1) as nat, kind, user);
            let at = seq![last] + rest;
            let given = newest(events, n, kind, user);
            assert(given == seq![events[last]] + newest(init, (n - 1) as nat, kind, user));
            assert forall|i: int| 0 <= i < at.len() implies 0 <= #[trigger] at[i] < events.len()
                && given[i] == events[at[i]] && (kind matches Some(k) ==> events[at[i]].kind == k)
                && (user matches Some(u) ==> events[at[i]].user == u) by {
                if i > 0 {
                    assert(at[i] == rest[i - 1]);
                    assert(init[rest[i - 1]] == events[rest[i - 1]]);
                }
            }
            assert forall|i: int, j: int| 0 <= i < j < at.len() implies #[trigger] at[i]
                > #[trigger] at[j] by {
                assert(at[j] == rest[j - 1]);
                if i > 0 {
                    assert(at[i] == rest[i - 1]);
                }
            }
            assert forall|p: int|
                0 <= p < events.len() && (kind matches Some(k) ==> events[p].kind == k) && (
                user matches Some(u) ==> events[p].user == u) && (at.len() < n || (at.len() > 0 && p
                    >= at[at.len() - 1])) implies #[trigger] at.contains(p) by {
                if p == last {
                    assert(at[0] == p);
                } else {
                    assert(init[p] == events[p]);
                    if rest.len() > 0 {
                        assert(at[at.len() - 1] == rest[rest.len() - 1]);
                    }
                    assert(rest.contains(p));
                    let q = rest.index_of(p);
                    assert(at[q + 1] == p);
                }
            }
            at
        } else {
            let rest = recent_events_are_the_newest_wanted(init, n, kind, user);
            assert forall|i: int| 0 <= i < rest.len() implies 0 <= #[trigger] rest[i] < events.len()
                && newest(events, n, kind, user)[i] == events[rest[i]] && (kind matches Some(k)
                ==> events[rest[i]].kind == k) && (user matches Some(u) ==> events[rest[i]].user
                == u) by {
                assert(init[rest[i]] == events[rest[i]]);
            }
            assert forall|p: int|
                0 <= p < events.len() && (kind matches Some(k) ==> events[p].kind == k) && (
                user matches Some(u) ==> events[p].user == u) && (rest.len() < n || (rest.len() > 0
                    && p >= rest[rest.len() - 1])) implies #[trigger] rest.contains(p) by {
                if p < last {
                    assert(init[p] == events[p]);
                }
            }
            rest
        }
    }
}

/// The count of a kind is how many events of it a query for all of them gives.
pub proof fn counts_agree_with_queries(
    events: Seq<EventState>,
    kind: EventKind,
    user: Option<Seq<char>>,
    n: nat,
)
    requires
        events.len() <= n,
    ensures
        kind_count(events, kind, user) == newest(events, n, Some(kind), user).len(),
    decreases events.len(),
{
    if events.len() > 0 {
        let init = events.drop_last();
        counts_agree_with_queries(init, kind, user, n);
        counts_agree_with_queries(init, kind, user, (n - 1) as nat);
    }
}

/// An event that is recorded is of the kind and the user that were told, carries
/// the time and the metadata that were told, and keeps the beginning of the
/// context: all of it where it is no longer than the log keeps.
pub proof fn a_record_keeps_what_was_told(
    t: TrailState,
    kind: EventKind,
    context: Seq<char>,
    user: Seq<char>,
    metadata: Seq<(Seq<char>, Seq<char>)>,
    now: Timestamp,
)
    ensures
        ({
            let e = recorded_event(t, kind, context, user, metadata, now);
            &&& e.kind == kind
            &&& e.user == user
            &&& e.ts == now
            &&& e.metadata == metadata
            &&& e.preview.len() <= context.len()
            &&& e.preview == context.take(e.preview.len() as int)
            &&& e.preview.len() == if context.len() <= t.preview_chars {
                context.len()
            } else {
                t.preview_chars
            }
            &&& e.id.take(user.len() as int) == user
            &&& e.id == user + "_audit_"@ + text::decimal(
                (now.secs * 1000 + now.nanos / 1_000_000) as nat,
            ) + "_"@ + text::zero_padded(text::decimal(t.counter + 1), 6)
        }),
{
    let e = recorded_event(t, kind, context, user, metadata, now);
    reveal_strlit("_");
    assert("_"@ =~= seq!['_']);
    assert(e.preview =~= context.take(e.preview.len() as int));
    assert(e.id.take(user.len() as int) =~= user);
}

/// After recording, the log holds the new event behind the earlier ones, of which
/// at most the oldest is gone, and that only where the log was full; and it has
/// counted one more.
pub proof fn a_record_adds_one_event(t: TrailState, e: EventState)
    requires
        t.events.len() <= t.capacity,
        t.capacity >= 1,
    ensures
        ({
            let w = after_record(t, e);
            let gone = if t.events.len() == t.capacity {
                1int
            } else {
                0
            };
            &&& w.counter == t.counter + 1
            &&& w.capacity == t.capacity
            &&& w.preview_chars == t.preview_chars
            &&& w.events.len() == t.events.len() + 1 - gone
            &&& w.events[w.events.len() - 1] == e
            &&& forall|i: int|
                gone <= i < t.events.len() ==> w.events[i - gone] == #[trigger] t.events[i]
        }),
{
}

/// Each kind has the name that says what it is.
pub proof fn kinds_are_named_for_what_they_are(kind: EventKind)
    ensures
        kind_name(kind) == "store"@ <==> kind == EventKind::Store,
        kind_name(kind) == "forget"@ <==> kind == EventKind::Forget,
        kind_name(kind) == "ingest_link"@ <==> kind == EventKind::IngestLink,
        kind_name(kind) == "reject_pii"@ <==> kind == EventKind::RejectPii,
        kind_name(kind) == "reject_vocab"@ <==> kind == EventKind::RejectVocab,
        kind_name(kind) == "reject_schema"@ <==> kind == EventKind::RejectSchema,
        kind_name(kind) == "reject_strict"@ <==> kind == EventKind::RejectStrict,
        kind_name(kind) == "reject_other"@ <==> kind == EventKind::RejectOther,
        kind_name(kind) == "assistant_msg"@ <==> kind == EventKind::AssistantMsg,
{
    reveal_strlit("store");
    reveal_strlit("forget");
    reveal_strlit("ingest_link");
    reveal_strlit("reject_pii");
    reveal_strlit("reject_vocab");
    reveal_strlit("reject_schema");
    reveal_strlit("reject_strict");
    reveal_strlit("reject_other");
    reveal_strlit("assistant_msg");
    assert("store"@.len() == 5 && "forget"@.len() == 6 && "ingest_link"@.len() == 11);
    assert("reject_pii"@.len() == 10 && "reject_vocab"@.len() == 12);
    assert("reject_schema"@.len() == 13 && "reject_strict"@.len() == 13);
    assert("reject_other"@.len() == 12 && "assistant_msg"@.len() == 13);
    assert("reject_schema"@[8] == 'c' && "reject_strict"@[8] == 't' && "assistant_msg"@[8] == 't');
    assert("assistant_msg"@[0] == 'a' && "reject_strict"@[0] == 'r');
    assert("reject_vocab"@[7] == 'v' && "reject_other"@[7] == 'o');
}

/// A reason that speaks of detected PII is a PII rejection, whatever else it
/// says; one that speaks of the vocabulary's cap or of its being full is a
/// vocabulary rejection unless it is the former; and so on down to the reasons
/// that name none of these.
pub proof fn reasons_are_classified_by_their_words(r: Seq<char>)
    ensures
        ({
            let pii = text::has_part(r, "pii"@) && text::has_part(r, "detected"@);
            let vocab = text::has_part(r, "vocab"@) && (text::has_part(r, "cap"@)
                || text::has_part(r, "full"@));
            let schema = text::has_part(r, "not in allowed set"@) || text::has_part(
                r,
                "whitelist"@,
            ) || text::has_part(r, "predicate"@);
            let strict = text::has_part(r, "strict_source_match"@);
            &&& rejection_kind(r) == EventKind::RejectPii <==> pii
            &&& rejection_kind(r) == EventKind::RejectVocab <==> vocab && !pii
            &&& rejection_kind(r) == EventKind::RejectSchema <==> schema && !vocab && !pii
            &&& rejection_kind(r) == EventKind::RejectStrict <==> strict && !schema && !vocab
                && !pii
            &&& rejection_kind(r) == EventKind::RejectOther <==> !strict && !schema && !vocab
                && !pii
        }),
{
}

/// How many events are of one kind and the wanted user.
pub open spec fn kind_count(events: Seq<EventState>, kind: EventKind, user: Option<Seq<char>>) -> nat
    decreases events.len(),
{
    if events.len() == 0 {
        0
    } else {
        kind_count(events.drop_last(), kind, user) + (if wanted(events.last(), Some(kind), user) {
            1nat
        } else {
            0
        })
    }
}

/// The kinds in the order of their declaration.
pub open spec fn all_kinds() -> Seq<EventKind> {
    seq![
        EventKind::Store,
        EventKind::Forget,
        EventKind::IngestLink,
        EventKind::RejectPii,
        EventKind::RejectVocab,
        EventKind::RejectSchema,
        EventKind::RejectStrict,
        EventKind::RejectOther,
        EventKind::AssistantMsg,
    ]
}

/// The kinds that occur among the first `n`, each with its count.
pub open spec fn histogram(events: Seq<EventState>, user: Option<Seq<char>>, n: nat) -> Seq<
    (EventKind, nat),
>
    decreases n,
{
    if n == 0 || n > all_kinds().len() {
        Seq::empty()
    } else {
        let kind = all_kinds()[n - 1];
        let count = kind_count(events, kind, user);
        let before = histogram(events, user, (n - 1) as nat);
        if count > 0 {
            before.push((kind, count))
        } else {
            before
        }
    }
}

/// The histogram over all kinds holds exactly the kinds that occur, each with
/// its count.
pub proof fn histogram_counts_each_kind(
    events: Seq<EventState>,
    user: Option<Seq<char>>,
    kind: EventKind,
    count: nat,
)
    ensures
        histogram(events, user, all_kinds().len()).contains((kind, count)) <==> count
            == kind_count(events, kind, user) && count > 0,
{
    let n = all_kinds().len();
    histogram_entries(events, user, n);
    let list = histogram(events, user, n);
    if list.contains((kind, count)) {
        let i = list.index_of((kind, count));
        assert(list[i] == (kind, count));
    }
    if count == kind_count(events, kind, user) && count > 0 {
        let at = kind_place(kind);
        assert(list.contains((all_kinds()[at], count)));
    }
}

/// The place of a kind among all kinds.
proof fn kind_place(kind: EventKind) -> (i: int)
    ensures
        0 <= i < all_kinds().len(),
        all_kinds()[i] == kind,
{
    match kind {
        EventKind::Store => 0,
        EventKind::Forget => 1,
        EventKind::IngestLink => 2,
        EventKind::RejectPii => 3,
        EventKind::RejectVocab => 4,
        EventKind::RejectSchema => 5,
        EventKind::RejectStrict => 6,
        EventKind::RejectOther => 7,
        EventKind::AssistantMsg => 8,
    }
}

proof fn histogram_entries(events: Seq<EventState>, user: Option<Seq<char>>, n: nat)
    requires
        n <= all_kinds().len(),
    ensures
        forall|i: int|
            0 <= i < histogram(events, user, n).len() ==> {
                let entry = #[trigger] histogram(events, user, n)[i];
                entry.1 == kind_count(events, entry.0, user) && entry.1 > 0
            },
        forall|i: int, c: nat|
            0 <= i < n && c == kind_count(events, all_kinds()[i], user) && c > 0
                ==> #[trigger] histogram(events, user, n).contains((all_kinds()[i], c)),
    decreases n,
{
    if n > 0 {
        histogram_entries(events, user, (n - 1) as nat);
        let before = histogram(events, user, (n - 1) as nat);
        let now = histogram(events, user, n);
        assert forall|i: int| 0 <= i < now.len() implies {
            let entry = #[trigger] now[i];
            entry.1 == kind_count(events, entry.0, user) && entry.1 > 0
        } by {
            if i < before.len() {
                assert(now[i] == before[i]);
            }
        }
        assert forall|i: int, c: nat|
            0 <= i < n && c == kind_count(events, all_kinds()[i], user) && c > 0 implies #[trigger] now.contains(
            (all_kinds()[i], c)) by {
            if i < n - 1 {
                assert(before.contains((all_kinds()[i], c)));
                let j = before.index_of((all_kinds()[i], c));
                assert(now[j] == before[j]);
            } else {
                assert(now.last() == (all_kinds()[i], c));
            }
        }
    }
}

/// The kinds stand in the order of their declaration.
pub proof fn kinds_stand_in_order()
    ensures
        all_kinds().len() == 9,
        all_kinds()[0] == EventKind::Store,
        all_kinds()[1] == EventKind::Forget,
        all_kinds()[2] == EventKind::IngestLink,
        all_kinds()[3] == EventKind::RejectPii,
        all_kinds()[4] == EventKind::RejectVocab,
        all_kinds()[5] == EventKind::RejectSchema,
        all_kinds()[6] == EventKind::RejectStrict,
        all_kinds()[7] == EventKind::RejectOther,
        all_kinds()[8] == EventKind::AssistantMsg,
{
}

/// Counts stand in the order of the kinds, each kind once. The result tells the
/// places of the kinds.
pub proof fn counts_stand_in_order(events: Seq<EventState>, user: Option<Seq<char>>, n: nat) -> (
    at: Seq<int>)
    requires
        n <= all_kinds().len(),
    ensures
        at.len() == histogram(events, user, n).len(),
        forall|h: int|
            0 <= h < at.len() ==> 0 <= #[trigger] at[h] < n && histogram(events, user, n)[h].0
                == all_kinds()[at[h]],
        forall|h: int, g: int| 0 <= h < g < at.len() ==> at[h] < at[g],
    decreases n,
{
    if n == 0 {
        Seq::empty()
    } else {
        let before = counts_stand_in_order(events, user, (n - 1) as nat);
        if kind_count(events, all_kinds()[n - 1], user) > 0 {
            before.push(n - 1)
        } else {
            before
        }
    }
}

/// What the counts in a list are.
pub open spec fn count_values(v: Seq<(EventKind, usize)>) -> Seq<(EventKind, nat)> {
    v.map_values(|p: (EventKind, usize)| (p.0, p.1 as nat))
}

/// The audit log.
pub struct AuditTrail {
    in_memory: VecDeque<AuditEvent>,
    capacity: usize,
    counter: u64,
    preview_chars: usize,
}

impl View for AuditTrail {
    type V = TrailState;

    closed spec fn view(&self) -> TrailState {
        TrailState {
            events: self.in_memory@.map_values(|e: AuditEvent| e@),
            capacity: self.capacity as nat,
            counter: self.counter as nat,
            preview_chars: self.preview_chars as nat,
        }
    }
}

/// The event that recording gives.
pub open spec fn recorded_event(
    t: TrailState,
    kind: EventKind,
    context: Seq<char>,
    user: Seq<char>,
    metadata: Seq<(Seq<char>, Seq<char>)>,
    now: Timestamp,
) -> EventState {
    EventState {
        id: event_id(user, millis(now), t.counter + 1),
        kind,
        ts: now,
        user,
        preview: text::prefix(context, t.preview_chars),
        metadata,
    }
}

/// The key that the kind of an event is stored under.
pub open spec fn kind_key(id: Seq<char>) -> Seq<char> {
    id + "|audit_kind"@
}

/// The log after recording, where the store took the kind or there was none.
pub open spec fn after_record(t: TrailState, e: EventState) -> TrailState {
    TrailState { events: remembered(t.events, t.capacity, e), counter: t.counter + 1, ..t }
}

/// A recorded event is the newest of the log.
pub proof fn recorded_event_is_newest(t: TrailState, e: EventState)
    ensures
        newest(after_record(t, e).events, 1, None, None) == seq![e],
{
    let events = after_record(t, e).events;
    assert(events.last() == e);
    assert(newest(events.drop_last(), 0, None, None) =~= Seq::empty());
    assert(newest(events, 1, None, None) =~= seq![e]);
}

impl TrailState {
    /// There are no more events than the capacity allows. The newest event is
    /// kept in any case.
    pub open spec fn fits(self) -> bool {
        self.events.len() <= self.capacity || self.events.len() <= 1
    }
}

/// The first `n` events, or all where there are fewer.
pub open spec fn first_events(events: Seq<EventState>, n: nat) -> Seq<EventState> {
    if events.len() > n {
        events.take(n as int)
    } else {
        events
    }
}

/// Recording keeps the events within the capacity. With a capacity of at least
/// one the log then holds the new event and the earlier ones, newest first, cut
/// to the capacity.
pub proof fn recording_keeps_the_capacity(t: TrailState, e: EventState, n: nat)
    requires
        t.fits(),
        after_record(t, e).events.len() <= n,
    ensures
        after_record(t, e).fits(),
        t.capacity >= 1 ==> after_record(t, e).events.len() <= t.capacity,
        t.capacity >= 1 ==> newest(after_record(t, e).events, n, None, None) == first_events(
            seq![e] + t.events.reverse(),
            t.capacity,
        ),
{
    let now = after_record(t, e).events;
    newest_of_all_is_reverse(now, n);
    if t.capacity >= 1 {
        let all = seq![e] + t.events.reverse();
        assert forall|i: int| 0 <= i < now.len() implies now.reverse()[i] == all[i] by {
            if i > 0 {
                assert(all[i] == t.events.reverse()[i - 1]);
            }
        }
        assert(now.reverse() =~= first_events(all, t.capacity));
    }
}

/// Taking events in one by one keeps them within the capacity.
pub proof fn remembering_keeps_the_capacity(
    events: Seq<EventState>,
    capacity: nat,
    more: Seq<EventState>,
)
    requires
        events.len() <= capacity || events.len() <= 1,
    ensures
        remembered_all(events, capacity, more).len() <= capacity || remembered_all(
            events,
            capacity,
            more,
        ).len() <= 1,
    decreases more.len(),
{
    if more.len() > 0 {
        remembering_keeps_the_capacity(events, capacity, more.drop_last());
    }
}

impl Default for AuditTrail {
    fn default() -> (r: Self)
        ensures
            r@ == (TrailState {
                events: Seq::empty(),
                capacity: DEFAULT_CAPACITY as nat,
                counter: 0,
                preview_chars: DEFAULT_PREVIEW as nat,
            }),
            r@.fits(),
    {
        Self::new(DEFAULT_CAPACITY, DEFAULT_PREVIEW)
    }
}

impl AuditTrail {
    /// No log outgrows its capacity.
    #[verifier::type_invariant]
    spec fn within_capacity(&self) -> bool {
        self.in_memory@.len() <= self.capacity || self.in_memory@.len() <= 1
    }

    /// An empty log that keeps `in_memory_capacity` events and
    /// `context_preview_chars` characters of the context of each.
    pub fn new(in_memory_capacity: usize, context_preview_chars: usize) -> (r: Self)
        ensures
            r@ == (TrailState {
                events: Seq::empty(),
                capacity: in_memory_capacity as nat,
                counter: 0,
                preview_chars: context_preview_chars as nat,
            }),
            r@.fits(),
    {
        let r = AuditTrail {
            in_memory: VecDeque::new(),
            capacity: in_memory_capacity,
            counter: 0,
            preview_chars: context_preview_chars,
        };
        assert(r@.events =~= Seq::empty());
        r
    }

    /// Takes an event in.
    fn remember(&mut self, event: AuditEvent)
        ensures
            final(self)@ == (TrailState {
                events: remembered(old(self)@.events, old(self)@.capacity, event@),
                ..old(self)@
            }),
    {
        proof {
            use_type_invariant(&*self);
        }
        let ghost before = self@.events;
        let mut events: VecDeque<AuditEvent> = VecDeque::new();
        std::mem::swap(&mut events, &mut self.in_memory);
        if events.len() >= self.capacity {
            events.pop_front();
        }
        events.push_back(event);
        self.in_memory = events;
        assert(self@.events =~= remembered(before, self.capacity as nat, event@));
    }

    /// Records an event at the time `now`. Where a store is given, the kind is
    /// stored in it under the event's id; if the store refuses, so does this,
    /// and the event does not enter the log.
    pub fn record<K: Kernel>(
        &mut self,
        kind: EventKind,
        context_text: &str,
        user_id: &str,
        metadata: Vec<(String, String)>,
        now: Timestamp,
        mp: Option<&mut AdaptiveMemory<K>>,
    ) -> (r: Result<AuditEvent, HlbError>)
        requires
            old(self)@.counter < u64::MAX,
            millis(now) <= u64::MAX,
            mp matches Some(m) ==> m.wf(),
        ensures
            ({
                let e = recorded_event(
                    old(self)@,
                    kind,
                    context_text@,
                    user_id@,
                    text::pair_texts(metadata@),
                    now,
                );
                let t = TrailState { counter: old(self)@.counter + 1, ..old(self)@ };
                &&& mp is None ==> r is Ok
                &&& mp matches Some(m) ==> {
                    &&& final(m).wf()
                    &&& final(m).arithmetic() == m.arithmetic()
                    &&& exists|s: Result<usize, HlbError>| #[trigger]
                        adaptive::stored_gives(
                            m.arithmetic(),
                            m@,
                            kind_key(e.id),
                            kind_name(kind),
                            final(m)@,
                            s,
                        ) && (s is Ok <==> r is Ok) && (s is Err ==> s->Err_0 == r->Err_0)
                }
                &&& match r {
                    Ok(event) => event@ == e && final(self)@ == after_record(old(self)@, e),
                    Err(_) => final(self)@ == t,
                }
            }),
            old(self)@.fits(),
            final(self)@.fits(),
    {
        proof {
            use_type_invariant(&*self);
        }
        let ghost start = self@;
        self.counter = self.counter + 1;
        assert(self@ =~= TrailState { counter: start.counter + 1, ..start });
        let ms: u64 = now.secs * 1000 + (now.nanos / 1_000_000) as u64;
        let mut id = String::new();
        id.append(user_id);
        id.append("_audit_");
        id.append(&decimal_string(ms));
        id.push('_');
        id.append(&padded_decimal(self.counter, COUNTER_DIGITS));
        assert(id@ =~= event_id(user_id@, millis(now), start.counter + 1));
        let preview = truncated(context_text, self.preview_chars);
        if let Some(m) = mp {
            let mut key = String::new();
            key.append(&id);
            key.append("|audit_kind");
            assert(key@ =~= kind_key(id@));
            let ghost before = *m;
            let ghost e = recorded_event(
                start,
                kind,
                context_text@,
                user_id@,
                text::pair_texts(metadata@),
                now,
            );
            let outcome = m.store(&key, kind.as_str());
            assert(adaptive::stored_gives(
                before.arithmetic(),
                before@,
                kind_key(e.id),
                kind_name(kind),
                m@,
                outcome,
            ));
            if let Err(e) = outcome {
                return Err(e);
            }
        }
        let event = AuditEvent {
            event_id: id,
            kind,
            ts: now,
            user_id: user_id.to_string(),
            context_preview: preview,
            metadata,
        };
        let kept = event.copy();
        self.remember(kept);
        Ok(event)
    }

    /// The newest `n` events of the wanted kind and user, newest first.
    pub fn recent(&self, n: usize, kind: Option<EventKind>, user_id: Option<&str>) -> (r: Vec<
        &AuditEvent,
    >)
        ensures
            r@.map_values(|e: &AuditEvent| e@) == newest(
                self@.events,
                n as nat,
                kind,
                match user_id {
                    Some(u) => Some(u@),
                    None => None,
                },
            ),
            r@.len() <= n,
            forall|i: int|
                0 <= i < r@.len() ==> (kind matches Some(k) ==> (#[trigger] r@[i]).kind == k) && (
                user_id matches Some(u) ==> r@[i].user_id@ == u@),
    {
        let ghost user = match user_id {
            Some(u) => Some(u@),
            None => None,
        };
        let ghost all = self@.events;
        let mut out: Vec<&AuditEvent> = Vec::new();
        let mut left: usize = n;
        let mut i: usize = self.in_memory.len();
        let ghost goal = newest(all, n as nat, kind, user);
        assert(all.take(i as int) =~= all);
        assert(out@.map_values(|e: &AuditEvent| e@) + goal =~= goal);
        while i > 0 && left > 0
            invariant
                all == self@.events,
                i <= self.in_memory@.len(),
                user == (match user_id {
                    Some(u) => Some(u@),
                    None => None,
                }),
                goal == out@.map_values(|e: &AuditEvent| e@) + newest(
                    all.take(i as int),
                    left as nat,
                    kind,
                    user,
                ),
            decreases i,
        {
            let e = &self.in_memory[i - 1];
            let ghost here = all.take(i as int);
            assert(here.last() == e@);
            assert(here.drop_last() =~= all.take(i - 1));
            let kind_fits = match kind {
                Some(k) => e.kind == k,
                None => true,
            };
            let user_fits = match user_id {
                Some(u) => same_text(&e.user_id, u),
                None => true,
            };
            if kind_fits && user_fits {
                let ghost before = out@.map_values(|e: &AuditEvent| e@);
                out.push(e);
                assert(out@.map_values(|e: &AuditEvent| e@) =~= before.push(e@));
                assert(before + newest(here, left as nat, kind, user) =~= out@.map_values(
                    |e: &AuditEvent| e@,
                ) + newest(all.take(i - 1), (left - 1) as nat, kind, user));
                left = left - 1;
            }
            i = i - 1;
        }
        assert(newest(all.take(i as int), left as nat, kind, user) =~= Seq::empty());
        assert(out@.map_values(|e: &AuditEvent| e@) + Seq::<EventState>::empty()
            =~= out@.map_values(|e: &AuditEvent| e@));
        proof {
            let at = recent_events_are_the_newest_wanted(all, n as nat, kind, user);
            assert forall|i: int| 0 <= i < out@.len() implies (kind matches Some(k) ==> (
            #[trigger] out@[i]).kind == k) && (user_id matches Some(u) ==> out@[i].user_id@ == u@) by {
                assert(goal[i] == out@[i]@);
                assert(goal[i] == all[at[i]]);
            }
        }
        out
    }

    /// How many events are of one kind and the wanted user.
    fn count_kind(&self, kind: EventKind, user_id: Option<&str>) -> (r: usize)
        ensures
            r == kind_count(
                self@.events,
                kind,
                match user_id {
                    Some(u) => Some(u@),
                    None => None,
                },
            ),
    {
        let ghost user = match user_id {
            Some(u) => Some(u@),
            None => None,
        };
        let ghost all = self@.events;
        let mut count: usize = 0;
        let mut i: usize = 0;
        while i < self.in_memory.len()
            invariant
                all == self@.events,
                i <= self.in_memory@.len(),
                user == (match user_id {
                    Some(u) => Some(u@),
                    None => None,
                }),
                count <= i,
                count == kind_count(all.take(i as int), kind, user),
            decreases self.in_memory@.len() - i,
        {
            let e = &self.in_memory[i];
            assert(all.take(i + 1).last() == e@);
            assert(all.take(i + 1).drop_last() =~= all.take(i as int));
            let user_fits = match user_id {
                Some(u) => same_text(&e.user_id, u),
                None => true,
            };
            if e.kind == kind && user_fits {
                count = count + 1;
            }
            i += 1;
        }
        assert(all.take(i as int) =~= all);
        count
    }

    /// How many events there are of each kind that occurs, for the wanted
    /// user, in the order of the kinds.
    pub fn count_by(&self, user_id: Option<&str>) -> (r: Vec<(EventKind, usize)>)
        ensures
            count_values(r@) == histogram(
                self@.events,
                match user_id {
                    Some(u) => Some(u@),
                    None => None,
                },
                all_kinds().len(),
            ),
    {
        let kinds = vec![
            EventKind::Store,
            EventKind::Forget,
            EventKind::IngestLink,
            EventKind::RejectPii,
            EventKind::RejectVocab,
            EventKind::RejectSchema,
            EventKind::RejectStrict,
            EventKind::RejectOther,
            EventKind::AssistantMsg,
        ];
        let ghost user = match user_id {
            Some(u) => Some(u@),
            None => None,
        };
        assert(kinds@ =~= all_kinds());
        let mut out: Vec<(EventKind, usize)> = Vec::new();
        let mut i: usize = 0;
        assert(count_values(out@) =~= histogram(self@.events, user, 0));
        while i < kinds.len()
            invariant
                kinds@ == all_kinds(),
                i <= kinds@.len(),
                user == (match user_id {
                    Some(u) => Some(u@),
                    None => None,
                }),
                count_values(out@) == histogram(self@.events, user, i as nat),
            decreases kinds@.len() - i,
        {
            let count = self.count_kind(kinds[i], user_id);
            if count > 0 {
                let ghost before = count_values(out@);
                out.push((kinds[i], count));
                assert(count_values(out@) =~= before.push((kinds@[i as int], count as nat)));
            }
            i += 1;
        }
        out
    }

    /// How many events the log holds.
    pub fn len(&self) -> (r: usize)
        ensures
            r == self@.events.len(),
            self@.fits(),
    {
        proof {
            use_type_invariant(self);
        }
        self.in_memory.len()
    }

    /// Whether the log holds no event.
    pub fn is_empty(&self) -> (r: bool)
        ensures
            r == (self@.events.len() == 0),
    {
        self.in_memory.len() == 0
    }

    /// How many events the log keeps.
    pub fn capacity(&self) -> (r: usize)
        ensures
            r == self@.capacity,
    {
        self.capacity
    }

    /// How many events were ever recorded.
    pub fn counter(&self) -> (r: u64)
        ensures
            r == self@.counter,
    {
        self.counter
    }

    /// How many characters of its context an event keeps.
    pub fn preview_chars(&self) -> (r: usize)
        ensures
            r == self@.preview_chars,
    {
        self.preview_chars
    }

    /// Puts saved events, oldest first, back into an empty log, and sets the
    /// number of events that were ever recorded.
    pub fn restore(&mut self, events: Vec<AuditEvent>, counter: u64)
        ensures
            final(self)@ == (TrailState {
                events: remembered_all(
                    old(self)@.events,
                    old(self)@.capacity,
                    events@.map_values(|e: AuditEvent| e@),
                ),
                counter: counter as nat,
                ..old(self)@
            }),
            final(self)@.fits(),
    {
        let ghost start = self@;
        let ghost more = events@.map_values(|e: AuditEvent| e@);
        let mut i: usize = 0;
        while i < events.len()
            invariant
                more == events@.map_values(|e: AuditEvent| e@),
                i <= events@.len(),
                self@ == (TrailState {
                    events: remembered_all(start.events, start.capacity, more.take(i as int)),
                    ..start
                }),
            decreases events@.len() - i,
        {
            assert(more.take(i + 1).drop_last() =~= more.take(i as int));
            assert(more.take(i + 1).last() == events@[i as int]@);
            self.remember(events[i].copy());
            i += 1;
        }
        assert(more.take(i as int) =~= more);
        proof {
            use_type_invariant(&*self);
        }
        self.counter = counter;
        assert(self@ =~= TrailState {
            events: remembered_all(start.events, start.capacity, more),
            counter: counter as nat,
            ..start
        });
    }
}

} // verus!
