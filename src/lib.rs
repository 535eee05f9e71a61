//! Light-travel-time replies for a mention bot: classification of the
//! ephemeris tool's answers, exact round-trip arithmetic, reply formatting,
//! the dedup guard and the deferred-reply sweep.
pub mod classify;
pub mod decimal;
pub mod format;
pub mod mention;
pub mod sweep;
pub mod text;

pub use classify::{
    candidate_from_groups, classify, disambiguation_reply, parse_candidate, unrecognized_reply, Candidate, Classification,
    LookupError,
};
pub use decimal::{deadline_millis, parse_decimal, round_trip_seconds, Decimal, DistanceError};
pub use format::format_round_trip;
pub use mention::{
    build_event, lookup_request, IngestionCursor, plan_mention, query_text, DedupGuard, LookupRequest, MentionAction,
    PendingEvent, StoreError,
};
pub use sweep::{plan_sweep, record_post, PlannedReply};
pub use text::{is_whitespace, trim};
