//! Handling one mention: the query it carries, the lookup it asks for, the
//! pending event that a resolved lookup becomes, and the dedup guard that
//! keeps a disambiguation reply from going out twice.
use vstd::prelude::*;
use vstd::string::*;
use crate::classify::{
    immediate_reply, resolved_distance, third_token, Classification, LookupError,
};
use crate::decimal::{
    deadline_millis, deadline_of, is_distance, lemma_parsed_is_distance, lemma_pow10_values, pow10, round_trip_of,
    round_trip_seconds, whole_millis, Decimal, MANTISSA_DIGITS, MAX_SCALE,
};
use crate::text::{lines, trim, trimmed};

verus! {

/// A reply that waits for its deadline.
#[derive(Clone, Debug, PartialEq, Eq)]
pub struct PendingEvent {
    /// The mention to reply to.
    pub message_id: u64,
    /// The body that was asked about.
    pub celestial_body: String,
    /// Whether the reply has gone out.
    pub replied: bool,
    /// When the reply falls due, in milliseconds since the epoch.
    pub deadline_millis: i128,
    /// The round trip in seconds, shown in the reply.
    pub round_trip: Decimal,
}

/// The store could not answer or could not write.
#[derive(Clone, Copy, Debug, PartialEq, Eq, Structural)]
pub struct StoreError;

/// The account name that mentions start with.
pub open spec fn handle_text() -> Seq<char> {
    "@celestial_echo"@
}

/// The query of a mention: its trimmed text, without a leading account name.
pub open spec fn query_of(text: Seq<char>) -> Seq<char> {
    let b = trimmed(text);
    let h = handle_text();
    if b.len() >= h.len() && b.subrange(0, h.len() as int) == h {
        trimmed(b.subrange(h.len() as int, b.len() as int))
    } else {
        b
    }
}

/// The query that a mention's text asks about.
pub fn query_text(text: &str) -> (r: String)
    ensures
        r@ == query_of(text@),
{
    let h = "@celestial_echo";
    proof {
        reveal_strlit("@celestial_echo");
    }
    let b = trim(text);
    let n = b.unicode_len();
    if n >= 15 {
        let head = String::from_str(b.substring_char(0, 15));
        if head == String::from_str(h) {
            return String::from_str(trim(b.substring_char(15, n)));
        }
    }
    String::from_str(b)
}

/// The pending event for a mention whose query resolved to `distance`.
pub open spec fn event_of(
    message_id: u64,
    text: Seq<char>,
    created_millis: int,
    distance: Decimal,
    e: PendingEvent,
) -> bool {
    &&& e.message_id == message_id
    &&& e.celestial_body@ == query_of(text)
    &&& !e.replied
    &&& e.round_trip == round_trip_of(distance)
    &&& e.deadline_millis == deadline_of(created_millis, round_trip_of(distance))
}

/// The event that schedules the reply to a mention whose query lies
/// `distance` light-minutes away.
pub fn build_event(message_id: u64, text: &str, created_millis: i64, distance: &Decimal) -> (r:
    PendingEvent)
    requires
        is_distance(*distance),
    ensures
        event_of(message_id, text@, created_millis as int, *distance, r),
        r.round_trip.wf(),
{
    let round_trip = round_trip_seconds(distance);
    PendingEvent {
        message_id,
        celestial_body: query_text(text),
        replied: false,
        deadline_millis: deadline_millis(created_millis, &round_trip),
        round_trip,
    }
}

impl Decimal {
    /// Whether this number is a distance that the library computes with.
    pub fn is_distance(&self) -> (r: bool)
        ensures
            r == is_distance(*self),
    {
        proof {
            lemma_pow10_values();
        }
        self.scale <= MAX_SCALE && self.mantissa < 100000000000000000000000000000000
    }
}

/// The calendar time, `YYYY-MM-DD HH:MM:SS` in UTC, of a count of
/// milliseconds since the epoch.
pub uninterp spec fn datetime_text(millis: int) -> Seq<char>;

/// Most milliseconds either side of the epoch that every calendar time
/// below can be written for (about 253,000 years).
pub const MAX_OBSERVATION_MILLIS: i64 = 8_000_000_000_000_000;

/// Relies on chrono's `DateTime::from_timestamp_millis` and its
/// `%Y-%m-%d %H:%M:%S` formatting: the UTC calendar time of a millisecond
/// count. chrono gives `None` only for a day count outside `NaiveDate`'s
/// range of about 262,000 years, so not within `MAX_OBSERVATION_MILLIS`.
#[verifier::external_body]
fn utc_text(millis: i64) -> (r: Option<String>)
    ensures
        r matches Some(s) ==> s@ == datetime_text(millis as int),
        -MAX_OBSERVATION_MILLIS <= millis <= MAX_OBSERVATION_MILLIS ==> r is Some,
{
    match chrono::DateTime::from_timestamp_millis(millis) {
        Some(t) => Some(t.format("%Y-%m-%d %H:%M:%S").to_string()),
        None => None,
    }
}

/// The arguments of a lookup: when the mention was made, and what it asks.
#[derive(Clone, Debug, PartialEq, Eq)]
pub struct LookupRequest {
    pub observed_at: String,
    pub query: String,
}

/// The lookup for a mention made at `created_millis`; `None` where that time
/// cannot be written as a calendar time, which never happens within
/// `MAX_OBSERVATION_MILLIS` of the epoch.
pub fn lookup_request(text: &str, created_millis: i64) -> (r: Option<LookupRequest>)
    ensures
        r matches Some(q) ==> q.observed_at@ == datetime_text(created_millis as int) && q.query@
            == query_of(text@),
        -MAX_OBSERVATION_MILLIS <= created_millis <= MAX_OBSERVATION_MILLIS ==> r is Some,
{
    match utc_text(created_millis) {
        Some(observed_at) => Some(LookupRequest { observed_at, query: query_text(text) }),
        None => None,
    }
}

/// Whether a reply may go out, given what the store said of the mention:
/// only when it is known not to have been answered. A failed lookup counts
/// as answered, so that a reply is dropped rather than sent twice.
pub open spec fn may_reply(ignored: Result<bool, StoreError>) -> bool {
    ignored == Ok::<bool, StoreError>(false)
}

/// What to do with one mention.
#[derive(Clone, Debug, PartialEq, Eq)]
pub enum MentionAction {
    /// Store this event; its reply goes out at the deadline.
    Record(PendingEvent),
    /// Post this reply now, then mark the mention as answered.
    Reply(String),
    /// The mention was answered before: do nothing.
    Skip,
    /// The lookup failed: report it and go on with the next mention.
    Fail(LookupError),
}

/// The action for a mention, given the lookup's outcome and what the dedup
/// guard said of the mention.
pub open spec fn mention_action_ok(
    message_id: u64,
    text: Seq<char>,
    created_millis: int,
    outcome: Result<Classification, LookupError>,
    ignored: Result<bool, StoreError>,
    a: MentionAction,
) -> bool {
    match outcome {
        Err(e) => a == MentionAction::Fail(e),
        Ok(Classification::Resolved(d)) => if is_distance(d) {
            a matches MentionAction::Record(ev) && event_of(message_id, text, created_millis, d, ev)
        } else {
            a == MentionAction::Fail(LookupError::ParseError)
        },
        Ok(c) => if may_reply(ignored) {
            a matches MentionAction::Reply(s) && immediate_reply(c) == Some(s@)
        } else {
            a == MentionAction::Skip
        },
    }
}

/// Decides what to do with one mention.
pub fn plan_mention(
    message_id: u64,
    text: &str,
    created_millis: i64,
    outcome: Result<Classification, LookupError>,
    ignored: Result<bool, StoreError>,
) -> (r: MentionAction)
    ensures
        mention_action_ok(message_id, text@, created_millis as int, outcome, ignored, r),
{
    match outcome {
        Err(e) => MentionAction::Fail(e),
        Ok(c) => match c {
            Classification::Resolved(d) => {
                if d.is_distance() {
                    MentionAction::Record(build_event(message_id, text, created_millis, &d))
                } else {
                    MentionAction::Fail(LookupError::ParseError)
                }
            },
            _ => {
                let send = match ignored {
                    Ok(b) => !b,
                    Err(_) => false,
                };
                if send {
                    match c.reply() {
                        Some(s) => MentionAction::Reply(s),
                        None => MentionAction::Skip,
                    }
                } else {
                    MentionAction::Skip
                }
            },
        },
    }
}

/// The mentions already answered with a disambiguation or a rejection.
pub struct DedupGuard {
    ids: Vec<u64>,
}

impl View for DedupGuard {
    type V = Set<u64>;

    closed spec fn view(&self) -> Set<u64> {
        self.ids@.to_set()
    }
}

impl DedupGuard {
    /// A guard that knows of no answered mention.
    pub fn new() -> (r: DedupGuard)
        ensures
            r@ == Set::<u64>::empty(),
    {
        let r = DedupGuard { ids: Vec::new() };
        assert(r.ids@.to_set() =~= Set::<u64>::empty());
        r
    }

    /// Whether mention `id` was answered.
    pub fn is_ignored(&self, id: u64) -> (r: bool)
        ensures
            r == self@.contains(id),
    {
        let mut k: usize = 0;
        while k < self.ids.len()
            invariant
                0 <= k <= self.ids@.len(),
                forall|j: int| 0 <= j < k ==> self.ids@[j] != id,
            decreases self.ids@.len() - k,
        {
            if self.ids[k] == id {
                assert(self.ids@.to_set().contains(self.ids@[k as int]));
                return true;
            }
            k = k + 1;
        }
        proof {
            if self.ids@.to_set().contains(id) {
                let j = choose|j: int| 0 <= j < self.ids@.len() && self.ids@[j] == id;
                assert(self.ids@[j] != id);
            }
        }
        false
    }

    /// What the guard says of mention `id`, in the shape of a store lookup.
    pub fn lookup(&self, id: u64) -> (r: Result<bool, StoreError>)
        ensures
            r == Ok::<bool, StoreError>(self@.contains(id)),
    {
        Ok(self.is_ignored(id))
    }

    /// What is known of mention `id`: answered if the guard knows it, else
    /// what the store said.
    pub fn lookup_with(&self, id: u64, stored: Result<bool, StoreError>) -> (r: Result<
        bool,
        StoreError,
    >)
        ensures
            r == if self@.contains(id) {
                Ok::<bool, StoreError>(true)
            } else {
                stored
            },
    {
        if self.is_ignored(id) {
            Ok(true)
        } else {
            stored
        }
    }

    /// Records the outcome of posting an immediate reply to mention `id`:
    /// only a successful post marks the mention answered. Returns whether
    /// the store is to record the mark too.
    pub fn record_reply(&mut self, id: u64, posted: bool) -> (r: bool)
        ensures
            r == posted,
            final(self)@ == if posted {
                old(self)@.insert(id)
            } else {
                old(self)@
            },
    {
        if posted {
            self.mark_ignored(id);
        }
        posted
    }

    /// Records that mention `id` was answered.
    pub fn mark_ignored(&mut self, id: u64)
        ensures
            final(self)@ == old(self)@.insert(id),
    {
        self.ids.push(id);
        proof {
            old(self).ids@.lemma_push_to_set_commute(id);
        }
    }
}

/// For every output of a successful lookup, the event recorded for the
/// mention holds a round trip of exactly 120 times the distance: the same
/// digits times 120, at the same scale and with the same sign.
pub proof fn lemma_round_trip_is_120_times_distance(
    message_id: u64,
    text: Seq<char>,
    created_millis: int,
    out: Seq<char>,
    ignored: Result<bool, StoreError>,
    d: Decimal,
    a: MentionAction,
)
    requires
        resolved_distance(out) == Some(d),
        mention_action_ok(
            message_id,
            text,
            created_millis,
            Ok::<Classification, LookupError>(Classification::Resolved(d)),
            ignored,
            a,
        ),
    ensures
        a matches MentionAction::Record(e) && e.round_trip.mantissa == d.mantissa * 120
            && e.round_trip.scale == d.scale && e.round_trip.negative == d.negative
            && e.deadline_millis == created_millis + whole_millis(e.round_trip),
{
    lemma_pow10_values();
    let ls = lines(trimmed(out));
    if let Some((a, b)) = third_token(ls[0]) {
        lemma_parsed_is_distance(ls[0].subrange(a, b));
    }
}

/// Where mention ingestion stands: mentions are fetched page by page, back
/// to (not including) the highest message id already stored.
#[derive(Clone, Copy, Debug, PartialEq, Eq, Structural)]
pub struct IngestionCursor {
    /// The highest stored message id, if any.
    pub since_id: Option<u64>,
}

impl IngestionCursor {
    /// The cursor for a store whose highest message id is `max_id`.
    pub fn from_max_id(max_id: Option<u64>) -> (r: IngestionCursor)
        ensures
            r.since_id == max_id,
    {
        IngestionCursor { since_id: max_id }
    }

    /// Whether to fetch another page after one of `page_len` mentions:
    /// ingestion ends at the first empty page.
    pub fn keep_fetching(&self, page_len: usize) -> (r: bool)
        ensures
            r == (page_len > 0),
    {
        page_len > 0
    }
}

/// Once the guard has recorded a successful reply to a mention, no later
/// mention with that id gets a reply, whatever its lookup gave and
/// whatever the store says of it.
pub proof fn lemma_marked_mention_not_answered_twice(
    guard: DedupGuard,
    marked: DedupGuard,
    message_id: u64,
    text: Seq<char>,
    created_millis: int,
    outcome: Result<Classification, LookupError>,
    stored: Result<bool, StoreError>,
    ignored: Result<bool, StoreError>,
    a: MentionAction,
)
    requires
        marked@ == guard@.insert(message_id),
        ignored == (if marked@.contains(message_id) {
            Ok::<bool, StoreError>(true)
        } else {
            stored
        }),
        mention_action_ok(message_id, text, created_millis, outcome, ignored, a),
    ensures
        !(a is Reply),
{
}

} // verus!
