//! The rows of the event store and the records it hands to callers.
//!
//! Fractional quantities are held as scaled integers so that every formula is
//! exact: confidences in parts per million of 1.0, average execution times in
//! microseconds, average gaps between commands in milliseconds.

use vstd::prelude::*;

use crate::time::{rfc_instant, Timestamp, INSTANT_BOUND};

verus! {

/// One part per million; confidences range over `0 ..= PPM`.
pub const PPM: i64 = 1_000_000;

/// Map a sequence of rows to the sequence of their mathematical images.
pub open spec fn models_of<T: View>(s: Seq<T>) -> Seq<T::V> {
    Seq::new(s.len(), |i: int| s[i]@)
}

pub proof fn lemma_models_of_push<T: View>(s: Seq<T>, x: T)
    ensures
        models_of(s.push(x)) == models_of(s).push(x@),
{
    assert(models_of(s.push(x)) =~= models_of(s).push(x@));
}

/// Clone a vector of strings.
pub(crate) fn clone_strings(v: &Vec<String>) -> (r: Vec<String>)
    ensures
        r@ == v@,
{
    let mut r: Vec<String> = Vec::new();
    let mut i: usize = 0;
    while i < v.len()
        invariant
            i <= v@.len(),
            r@.len() == i,
            forall|a: int| 0 <= a < i ==> #[trigger] r@[a] == v@[a],
        decreases v@.len() - i,
    {
        r.push(v[i].clone());
        i += 1;
    }
    proof {
        assert(r@ =~= v@);
    }
    r
}

// ---------------------------------------------------------------------------
// Stored rows
// ---------------------------------------------------------------------------

/// A recorded command invocation.
pub struct InvocationRow {
    pub command_id: String,
    pub timestamp: Timestamp,
    pub execution_time_ms: Option<i64>,
    pub success: bool,
    pub error_message: Option<String>,
    pub context: Option<String>,
}

/// Mathematical image of an `InvocationRow`.
pub ghost struct InvocationModel {
    pub command_id: Seq<char>,
    pub timestamp: Seq<char>,
    pub instant: int,
    pub execution_time_ms: Option<int>,
    pub success: bool,
    pub error_message: Option<Seq<char>>,
    pub context: Option<Seq<char>>,
}

impl View for InvocationRow {
    type V = InvocationModel;

    open spec fn view(&self) -> InvocationModel {
        InvocationModel {
            command_id: self.command_id@,
            timestamp: self.timestamp.render(),
            instant: self.timestamp.instant(),
            execution_time_ms: match self.execution_time_ms {
                Some(v) => Some(v as int),
                None => None,
            },
            success: self.success,
            error_message: match self.error_message {
                Some(ref s) => Some(s@),
                None => None,
            },
            context: match self.context {
                Some(ref s) => Some(s@),
                None => None,
            },
        }
    }
}

/// A well-formed invocation: instant tied to the text and in range, and a
/// non-negative execution time when one was measured.
pub open spec fn invocation_wf(m: InvocationModel) -> bool {
    &&& rfc_instant(m.timestamp) == Some(m.instant)
    &&& -(INSTANT_BOUND as int) < m.instant < INSTANT_BOUND as int
    &&& (m.execution_time_ms matches Some(v) ==> v >= 0)
}

/// A recorded search query.
pub struct QueryRow {
    pub query: String,
    pub timestamp: Timestamp,
    pub result_count: i32,
}

/// Mathematical image of a `QueryRow`.
pub ghost struct QueryModel {
    pub query: Seq<char>,
    pub timestamp: Seq<char>,
    pub instant: int,
    pub result_count: int,
}

impl View for QueryRow {
    type V = QueryModel;

    open spec fn view(&self) -> QueryModel {
        QueryModel {
            query: self.query@,
            timestamp: self.timestamp.render(),
            instant: self.timestamp.instant(),
            result_count: self.result_count as int,
        }
    }
}

pub open spec fn query_wf(m: QueryModel) -> bool {
    &&& rfc_instant(m.timestamp) == Some(m.instant)
    &&& -(INSTANT_BOUND as int) < m.instant < INSTANT_BOUND as int
    &&& m.result_count >= 0
}

/// A recorded resource access, unique per (kind, name, namespace, context).
pub struct ResourceRow {
    pub kind: String,
    pub name: String,
    pub namespace: Option<String>,
    pub context: Option<String>,
    pub timestamp: Timestamp,
    pub access_count: i64,
}

/// Mathematical image of a `ResourceRow`.
pub ghost struct ResourceModel {
    pub kind: Seq<char>,
    pub name: Seq<char>,
    pub namespace: Option<Seq<char>>,
    pub context: Option<Seq<char>>,
    pub timestamp: Seq<char>,
    pub instant: int,
    pub access_count: int,
}

impl View for ResourceRow {
    type V = ResourceModel;

    open spec fn view(&self) -> ResourceModel {
        ResourceModel {
            kind: self.kind@,
            name: self.name@,
            namespace: match self.namespace {
                Some(ref s) => Some(s@),
                None => None,
            },
            context: match self.context {
                Some(ref s) => Some(s@),
                None => None,
            },
            timestamp: self.timestamp.render(),
            instant: self.timestamp.instant(),
            access_count: self.access_count as int,
        }
    }
}

pub open spec fn resource_wf(m: ResourceModel) -> bool {
    &&& rfc_instant(m.timestamp) == Some(m.instant)
    &&& -(INSTANT_BOUND as int) < m.instant < INSTANT_BOUND as int
    &&& m.access_count >= 1
}

/// The identifying key of two resource rows is the same.
pub open spec fn resource_same_key(a: ResourceModel, b: ResourceModel) -> bool {
    &&& a.kind == b.kind
    &&& a.name == b.name
    &&& a.namespace == b.namespace
    &&& a.context == b.context
}

// ---------------------------------------------------------------------------
// Records handed to callers
// ---------------------------------------------------------------------------

/// Aggregated statistics of one command.
pub struct CommandStats {
    pub command_id: String,
    pub hit_count: i64,
    pub last_used: String,
    /// Mean execution time of the successful timed invocations, in
    /// microseconds; `None` when none of them was timed.
    pub avg_execution_time_us: Option<i64>,
}

/// Mathematical image of `CommandStats`.
pub ghost struct CommandStatsModel {
    pub command_id: Seq<char>,
    pub hit_count: int,
    pub last_used: Seq<char>,
    pub avg_execution_time_us: Option<int>,
}

impl View for CommandStats {
    type V = CommandStatsModel;

    open spec fn view(&self) -> CommandStatsModel {
        CommandStatsModel {
            command_id: self.command_id@,
            hit_count: self.hit_count as int,
            last_used: self.last_used@,
            avg_execution_time_us: match self.avg_execution_time_us {
                Some(v) => Some(v as int),
                None => None,
            },
        }
    }
}

/// A recent search query, as handed back to callers.
pub struct RecentQuery {
    pub query: String,
    pub timestamp: String,
    pub result_count: i32,
}

/// Mathematical image of `RecentQuery`.
pub ghost struct RecentQueryModel {
    pub query: Seq<char>,
    pub timestamp: Seq<char>,
    pub result_count: int,
}

impl View for RecentQuery {
    type V = RecentQueryModel;

    open spec fn view(&self) -> RecentQueryModel {
        RecentQueryModel {
            query: self.query@,
            timestamp: self.timestamp@,
            result_count: self.result_count as int,
        }
    }
}

/// A recent resource access, rendered with its timestamp text.
pub struct RecentResource {
    pub kind: String,
    pub name: String,
    pub namespace: Option<String>,
    pub context: Option<String>,
    pub timestamp: String,
    pub access_count: i64,
}

/// A resource summary, as handed back to callers.
pub struct ResourceSummary {
    pub kind: String,
    pub name: String,
    pub namespace: Option<String>,
    pub context: Option<String>,
    pub last_accessed: String,
    pub access_count: i64,
}

/// Mathematical image of `ResourceSummary`.
pub ghost struct ResourceSummaryModel {
    pub kind: Seq<char>,
    pub name: Seq<char>,
    pub namespace: Option<Seq<char>>,
    pub context: Option<Seq<char>>,
    pub last_accessed: Seq<char>,
    pub access_count: int,
}

impl View for ResourceSummary {
    type V = ResourceSummaryModel;

    open spec fn view(&self) -> ResourceSummaryModel {
        ResourceSummaryModel {
            kind: self.kind@,
            name: self.name@,
            namespace: match self.namespace {
                Some(ref s) => Some(s@),
                None => None,
            },
            context: match self.context {
                Some(ref s) => Some(s@),
                None => None,
            },
            last_accessed: self.last_accessed@,
            access_count: self.access_count as int,
        }
    }
}

/// A mined command pattern; also the row stored in the pattern table.
pub struct CommandPattern {
    pub pattern_id: String,
    pub command_sequence: Vec<String>,
    pub frequency: i64,
    /// Blended frequency/recency score, in parts per million of 1.0.
    pub confidence_ppm: i64,
    pub last_seen: String,
    /// Mean gap between consecutive commands of an occurrence, in
    /// milliseconds; `None` when no gap was observed.
    pub avg_time_between_commands_ms: Option<i64>,
}

/// Mathematical image of `CommandPattern`.
pub ghost struct CommandPatternModel {
    pub pattern_id: Seq<char>,
    pub command_sequence: Seq<Seq<char>>,
    pub frequency: int,
    pub confidence_ppm: int,
    pub last_seen: Seq<char>,
    pub avg_time_between_commands_ms: Option<int>,
}

impl View for CommandPattern {
    type V = CommandPatternModel;

    open spec fn view(&self) -> CommandPatternModel {
        CommandPatternModel {
            pattern_id: self.pattern_id@,
            command_sequence: self.command_sequence.deep_view(),
            frequency: self.frequency as int,
            confidence_ppm: self.confidence_ppm as int,
            last_seen: self.last_seen@,
            avg_time_between_commands_ms: match self.avg_time_between_commands_ms {
                Some(v) => Some(v as int),
                None => None,
            },
        }
    }
}

pub open spec fn pattern_wf(m: CommandPatternModel) -> bool {
    &&& 0 <= m.confidence_ppm <= PPM as int
    &&& m.frequency >= 0
}

/// A predicted next command.
pub struct PatternSuggestion {
    pub next_command: String,
    /// Confidence of the winning pattern, in parts per million of 1.0.
    pub confidence_ppm: i64,
    pub pattern_frequency: i64,
    /// The pattern the suggestion came from.
    pub context: String,
}

/// Mathematical image of `PatternSuggestion`.
pub ghost struct PatternSuggestionModel {
    pub next_command: Seq<char>,
    pub confidence_ppm: int,
    pub pattern_frequency: int,
    pub context: Seq<char>,
}

impl View for PatternSuggestion {
    type V = PatternSuggestionModel;

    open spec fn view(&self) -> PatternSuggestionModel {
        PatternSuggestionModel {
            next_command: self.next_command@,
            confidence_ppm: self.confidence_ppm as int,
            pattern_frequency: self.pattern_frequency as int,
            context: self.context@,
        }
    }
}

/// One past invocation, for external fuzzy search over command ids.
pub struct CommandHistory {
    pub command_id: String,
    pub timestamp: String,
    pub execution_time_ms: Option<i64>,
    pub success: bool,
}

/// Mathematical image of `CommandHistory`.
pub ghost struct CommandHistoryModel {
    pub command_id: Seq<char>,
    pub timestamp: Seq<char>,
    pub execution_time_ms: Option<int>,
    pub success: bool,
}

impl View for CommandHistory {
    type V = CommandHistoryModel;

    open spec fn view(&self) -> CommandHistoryModel {
        CommandHistoryModel {
            command_id: self.command_id@,
            timestamp: self.timestamp@,
            execution_time_ms: match self.execution_time_ms {
                Some(v) => Some(v as int),
                None => None,
            },
            success: self.success,
        }
    }
}

} // verus!
