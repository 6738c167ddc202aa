//! The event store: four in-memory tables and every operation on them.
//!
//! The store owns the recorded history. Writes append, upsert and trim under
//! the retention policy; reads aggregate, filter and rank. Durability is the
//! caller's concern: rows can be loaded back one by one from whatever medium
//! they were kept in.

use vstd::prelude::*;

use crate::order::{
    as_ints, comes_before, key_seq, lemma_ranked_order_props, rank_desc, ranked_order,
};
use crate::time::{rfc_instant, Timestamp, DAY_MS, INSTANT_BOUND};
use crate::types::{
    clone_strings, invocation_wf, lemma_models_of_push, models_of, pattern_wf, query_wf,
    resource_same_key, resource_wf, CommandHistory, CommandHistoryModel, CommandPattern,
    CommandPatternModel, CommandStats, CommandStatsModel, InvocationModel, InvocationRow,
    PatternSuggestion, PatternSuggestionModel, QueryModel, QueryRow, RecentQuery,
    RecentQueryModel, ResourceModel, ResourceRow, ResourceSummary, ResourceSummaryModel, PPM,
};
use crate::RETENTION_CAP;

verus! {

/// Mathematical image of the whole store.
pub ghost struct PaletteModel {
    pub invocations: Seq<InvocationModel>,
    pub queries: Seq<QueryModel>,
    pub resources: Seq<ResourceModel>,
    pub patterns: Seq<CommandPatternModel>,
}

/// All invocation rows are internally consistent.
pub open spec fn invocations_wf(s: Seq<InvocationModel>) -> bool {
    forall|i: int| 0 <= i < s.len() ==> invocation_wf(#[trigger] s[i])
}

/// All query rows are internally consistent and the table respects the cap.
pub open spec fn queries_wf(s: Seq<QueryModel>) -> bool {
    &&& forall|i: int| 0 <= i < s.len() ==> query_wf(#[trigger] s[i])
    &&& s.len() <= RETENTION_CAP as int
}

/// All resource rows are internally consistent, their keys are unique, and
/// the table respects the cap.
pub open spec fn resources_wf(s: Seq<ResourceModel>) -> bool {
    &&& forall|i: int| 0 <= i < s.len() ==> resource_wf(#[trigger] s[i])
    &&& s.len() <= RETENTION_CAP as int
    &&& forall|i: int, j: int|
        0 <= i < j < s.len() ==> !resource_same_key(#[trigger] s[i], #[trigger] s[j])
}

/// All pattern rows are internally consistent and their ids are unique.
pub open spec fn patterns_wf(s: Seq<CommandPatternModel>) -> bool {
    &&& forall|i: int| 0 <= i < s.len() ==> pattern_wf(#[trigger] s[i])
    &&& forall|i: int, j: int|
        0 <= i < j < s.len() ==> (#[trigger] s[i]).pattern_id != (#[trigger] s[j]).pattern_id
}

/// Every table is well formed: rows are internally consistent, the capped
/// tables respect the retention cap, resource keys and pattern ids are
/// unique.
pub open spec fn palette_wf(m: PaletteModel) -> bool {
    &&& invocations_wf(m.invocations)
    &&& queries_wf(m.queries)
    &&& resources_wf(m.resources)
    &&& patterns_wf(m.patterns)
}

/// The store with no recorded history.
pub open spec fn empty_palette() -> PaletteModel {
    PaletteModel {
        invocations: Seq::<InvocationModel>::empty(),
        queries: Seq::<QueryModel>::empty(),
        resources: Seq::<ResourceModel>::empty(),
        patterns: Seq::<CommandPatternModel>::empty(),
    }
}

/// The in-memory event store behind the command palette.
pub struct CommandPaletteDb {
    pub(crate) invocations: Vec<InvocationRow>,
    pub(crate) queries: Vec<QueryRow>,
    pub(crate) resources: Vec<ResourceRow>,
    pub(crate) patterns: Vec<CommandPattern>,
}

impl View for CommandPaletteDb {
    type V = PaletteModel;

    closed spec fn view(&self) -> PaletteModel {
        PaletteModel {
            invocations: models_of(self.invocations@),
            queries: models_of(self.queries@),
            resources: models_of(self.resources@),
            patterns: models_of(self.patterns@),
        }
    }
}

// ---------------------------------------------------------------------------
// Retention
// ---------------------------------------------------------------------------

/// The first index holding the minimal instant of a non-empty query table:
/// the row the retention trim evicts.
pub open spec fn oldest_query(s: Seq<QueryModel>) -> int
    decreases s.len(),
{
    if s.len() <= 1 {
        0
    } else {
        let r = oldest_query(s.drop_last());
        if s.last().instant < s[r].instant {
            s.len() - 1
        } else {
            r
        }
    }
}

/// Drop the oldest query when the table exceeds the retention cap.
pub open spec fn trim_queries(s: Seq<QueryModel>) -> Seq<QueryModel> {
    if s.len() <= RETENTION_CAP as int {
        s
    } else {
        s.remove(oldest_query(s))
    }
}

pub proof fn lemma_oldest_query_props(s: Seq<QueryModel>)
    requires
        s.len() >= 1,
    ensures
        0 <= oldest_query(s) < s.len(),
        forall|i: int| 0 <= i < s.len() ==> s[oldest_query(s)].instant <= (#[trigger] s[i]).instant,
    decreases s.len(),
{
    if s.len() > 1 {
        lemma_oldest_query_props(s.drop_last());
        assert(forall|i: int|
            0 <= i < s.len() - 1 ==> (#[trigger] s[i]) == s.drop_last()[i]);
    }
}

impl CommandPaletteDb {
    /// The store is well formed.
    pub open spec fn wf(self) -> bool {
        palette_wf(self@)
    }

    /// Open a fresh, empty store.
    pub fn new() -> (db: CommandPaletteDb)
        ensures
            db.wf(),
            db@ == empty_palette(),
    {
        let db = CommandPaletteDb {
            invocations: Vec::new(),
            queries: Vec::new(),
            resources: Vec::new(),
            patterns: Vec::new(),
        };
        proof {
            assert(db@.invocations =~= empty_palette().invocations);
            assert(db@.queries =~= empty_palette().queries);
            assert(db@.resources =~= empty_palette().resources);
            assert(db@.patterns =~= empty_palette().patterns);
        }
        db
    }

    /// Append a command invocation stamped with the given moment.
    pub fn record_invocation_at(
        &mut self,
        command_id: &str,
        execution_time_ms: Option<i64>,
        success: bool,
        error_message: Option<&str>,
        context: Option<&str>,
        t: &Timestamp,
    )
        requires
            old(self).wf(),
            t.wf(),
            (execution_time_ms matches Some(v) ==> v >= 0),
        ensures
            final(self).wf(),
            final(self)@.invocations == old(self)@.invocations.push(
                (InvocationModel {
                    command_id: command_id@,
                    timestamp: t.render(),
                    instant: t.instant(),
                    execution_time_ms: (match execution_time_ms {
                        Some(v) => Some(v as int),
                        None => None,
                    }),
                    success: success,
                    error_message: opt_text_model(error_message),
                    context: opt_text_model(context),
                }),
            ),
            final(self)@.queries == old(self)@.queries,
            final(self)@.resources == old(self)@.resources,
            final(self)@.patterns == old(self)@.patterns,
    {
        let row = InvocationRow {
            command_id: command_id.to_owned(),
            timestamp: t.duplicate(),
            execution_time_ms,
            success,
            error_message: opt_to_string(error_message),
            context: opt_to_string(context),
        };
        proof {
            lemma_models_of_push(self.invocations@, row);
        }
        self.invocations.push(row);
        proof {
            let m = self@.invocations;
            assert forall|i: int| 0 <= i < m.len() implies invocation_wf(#[trigger] m[i]) by {
                if i < m.len() - 1 {
                    assert(m[i] == old(self)@.invocations[i]);
                }
            }
        }
    }

    /// Append a command invocation stamped with the current moment, and hand
    /// that moment back.
    pub fn record_invocation(
        &mut self,
        command_id: &str,
        execution_time_ms: Option<i64>,
        success: bool,
        error_message: Option<&str>,
        context: Option<&str>,
    ) -> (t: Timestamp)
        requires
            old(self).wf(),
            (execution_time_ms matches Some(v) ==> v >= 0),
        ensures
            final(self).wf(),
            t.wf(),
            final(self)@.invocations == old(self)@.invocations.push(
                (InvocationModel {
                    command_id: command_id@,
                    timestamp: t.render(),
                    instant: t.instant(),
                    execution_time_ms: (match execution_time_ms {
                        Some(v) => Some(v as int),
                        None => None,
                    }),
                    success: success,
                    error_message: opt_text_model(error_message),
                    context: opt_text_model(context),
                }),
            ),
            final(self)@.queries == old(self)@.queries,
            final(self)@.resources == old(self)@.resources,
            final(self)@.patterns == old(self)@.patterns,
    {
        let t = Timestamp::now();
        self.record_invocation_at(
            command_id,
            execution_time_ms,
            success,
            error_message,
            context,
            &t,
        );
        t
    }

    /// Append a search query stamped with the given moment, then trim the
    /// table to the retention cap by evicting its oldest row.
    pub fn record_query_at(&mut self, query: &str, result_count: i32, t: &Timestamp)
        requires
            old(self).wf(),
            t.wf(),
            result_count >= 0,
        ensures
            final(self).wf(),
            final(self)@.queries == trim_queries(
                old(self)@.queries.push(
                    (QueryModel {
                        query: query@,
                        timestamp: t.render(),
                        instant: t.instant(),
                        result_count: result_count as int,
                    }),
                ),
            ),
            final(self)@.queries.len() == if old(self)@.queries.len() < RETENTION_CAP as int {
                old(self)@.queries.len() + 1
            } else {
                RETENTION_CAP as nat
            },
            final(self)@.invocations == old(self)@.invocations,
            final(self)@.resources == old(self)@.resources,
            final(self)@.patterns == old(self)@.patterns,
    {
        let row = QueryRow {
            query: query.to_owned(),
            timestamp: t.duplicate(),
            result_count,
        };
        proof {
            lemma_models_of_push(self.queries@, row);
        }
        self.queries.push(row);
        let ghost pushed = self@.queries;
        proof {
            assert forall|i: int| 0 <= i < pushed.len() implies query_wf(#[trigger] pushed[i]) by {
                if i < pushed.len() - 1 {
                    assert(pushed[i] == old(self)@.queries[i]);
                }
            }
        }
        if self.queries.len() > RETENTION_CAP {
            let victim = oldest_query_exec(&self.queries);
            proof {
                lemma_oldest_query_props(pushed);
            }
            self.queries.remove(victim);
            proof {
                assert(self@.queries =~= pushed.remove(victim as int));
                pushed.remove_ensures(victim as int);
                assert(trim_queries(pushed) == pushed.remove(oldest_query(pushed)));
                let m = self@.queries;
                assert forall|i: int| 0 <= i < m.len() implies query_wf(#[trigger] m[i]) by {
                    if i < victim as int {
                        assert(m[i] == pushed[i]);
                    } else {
                        assert(m[i] == pushed[i + 1]);
                    }
                }
            }
        } else {
            assert(trim_queries(pushed) == pushed);
        }
    }

    /// Append a search query stamped with the current moment, trim, and hand
    /// the moment back.
    pub fn record_query(&mut self, query: &str, result_count: i32) -> (t: Timestamp)
        requires
            old(self).wf(),
            result_count >= 0,
        ensures
            final(self).wf(),
            t.wf(),
            final(self)@.queries == trim_queries(
                old(self)@.queries.push(
                    (QueryModel {
                        query: query@,
                        timestamp: t.render(),
                        instant: t.instant(),
                        result_count: result_count as int,
                    }),
                ),
            ),
            final(self)@.invocations == old(self)@.invocations,
            final(self)@.resources == old(self)@.resources,
            final(self)@.patterns == old(self)@.patterns,
    {
        let t = Timestamp::now();
        self.record_query_at(query, result_count, &t);
        t
    }
}

// ---------------------------------------------------------------------------
// Resource upsert
// ---------------------------------------------------------------------------

/// The row carries the given identifying key.
pub open spec fn resource_key_is(
    m: ResourceModel,
    kind: Seq<char>,
    name: Seq<char>,
    namespace: Option<Seq<char>>,
    context: Option<Seq<char>>,
) -> bool {
    &&& m.kind == kind
    &&& m.name == name
    &&& m.namespace == namespace
    &&& m.context == context
}

/// Index of the first row carrying the key, or -1 when none does.
pub open spec fn find_resource(
    s: Seq<ResourceModel>,
    kind: Seq<char>,
    name: Seq<char>,
    namespace: Option<Seq<char>>,
    context: Option<Seq<char>>,
) -> int
    decreases s.len(),
{
    if s.len() == 0 {
        -1
    } else if resource_key_is(s[0], kind, name, namespace, context) {
        0
    } else {
        let r = find_resource(s.drop_first(), kind, name, namespace, context);
        if r < 0 {
            -1
        } else {
            r + 1
        }
    }
}

pub proof fn lemma_find_resource(
    s: Seq<ResourceModel>,
    kind: Seq<char>,
    name: Seq<char>,
    namespace: Option<Seq<char>>,
    context: Option<Seq<char>>,
)
    ensures
        ({
            let f = find_resource(s, kind, name, namespace, context);
            &&& (f == -1 ==> forall|i: int|
                0 <= i < s.len() ==> !resource_key_is(#[trigger] s[i], kind, name, namespace, context))
            &&& (f >= 0 ==> 0 <= f < s.len() && resource_key_is(s[f], kind, name, namespace, context))
            &&& (f >= 0 ==> forall|q: int|
                0 <= q < f ==> !resource_key_is(#[trigger] s[q], kind, name, namespace, context))
        }),
    decreases s.len(),
{
    let f = find_resource(s, kind, name, namespace, context);
    if s.len() > 0 && !resource_key_is(s[0], kind, name, namespace, context) {
        let rest = s.drop_first();
        lemma_find_resource(rest, kind, name, namespace, context);
        let fr = find_resource(rest, kind, name, namespace, context);
        if f == -1 {
            assert forall|i: int| 0 <= i < s.len() implies !resource_key_is(
                #[trigger] s[i],
                kind,
                name,
                namespace,
                context,
            ) by {
                if i > 0 {
                    assert(rest[i - 1] == s[i]);
                }
            }
        } else {
            assert(s[f] == rest[fr]);
            assert forall|q: int| 0 <= q < f implies !resource_key_is(
                #[trigger] s[q],
                kind,
                name,
                namespace,
                context,
            ) by {
                if q > 0 {
                    assert(rest[q - 1] == s[q]);
                }
            }
        }
    }
}

/// The first index holding the minimal instant of a non-empty resource table.
pub open spec fn oldest_resource(s: Seq<ResourceModel>) -> int
    decreases s.len(),
{
    if s.len() <= 1 {
        0
    } else {
        let r = oldest_resource(s.drop_last());
        if s.last().instant < s[r].instant {
            s.len() - 1
        } else {
            r
        }
    }
}

/// Drop the oldest resource when the table exceeds the retention cap.
pub open spec fn trim_resources(s: Seq<ResourceModel>) -> Seq<ResourceModel> {
    if s.len() <= RETENTION_CAP as int {
        s
    } else {
        s.remove(oldest_resource(s))
    }
}

pub proof fn lemma_oldest_resource_props(s: Seq<ResourceModel>)
    requires
        s.len() >= 1,
    ensures
        0 <= oldest_resource(s) < s.len(),
        forall|i: int|
            0 <= i < s.len() ==> s[oldest_resource(s)].instant <= (#[trigger] s[i]).instant,
    decreases s.len(),
{
    if s.len() > 1 {
        lemma_oldest_resource_props(s.drop_last());
        assert(forall|i: int| 0 <= i < s.len() - 1 ==> (#[trigger] s[i]) == s.drop_last()[i]);
    }
}

/// Keep the invocations at or after a cutoff instant.
pub open spec fn keeps_after(cutoff: int) -> spec_fn(InvocationModel) -> bool {
    |m: InvocationModel| m.instant >= cutoff
}

/// An access count grows by one until it saturates.
pub open spec fn bump_count(c: int) -> int {
    if c < i64::MAX as int {
        c + 1
    } else {
        c
    }
}

/// The resource table after an access: the matching row is re-stamped and its
/// count bumped, or a fresh row is added and the table trimmed.
pub open spec fn upsert_resource(
    s: Seq<ResourceModel>,
    kind: Seq<char>,
    name: Seq<char>,
    namespace: Option<Seq<char>>,
    context: Option<Seq<char>>,
    ts: Seq<char>,
    instant: int,
) -> Seq<ResourceModel> {
    let f = find_resource(s, kind, name, namespace, context);
    if f >= 0 {
        s.update(
            f,
            (ResourceModel {
                timestamp: ts,
                instant: instant,
                access_count: bump_count(s[f].access_count),
                ..s[f]
            }),
        )
    } else {
        trim_resources(
            s.push(
                (ResourceModel {
                    kind: kind,
                    name: name,
                    namespace: namespace,
                    context: context,
                    timestamp: ts,
                    instant: instant,
                    access_count: 1,
                }),
            ),
        )
    }
}

impl CommandPaletteDb {
    /// Record a resource access stamped with the given moment: update the row
    /// with the same (kind, name, namespace, context), or add one, then trim.
    pub fn record_resource_access_at(
        &mut self,
        kind: &str,
        name: &str,
        namespace: Option<&str>,
        context: Option<&str>,
        t: &Timestamp,
    )
        requires
            old(self).wf(),
            t.wf(),
        ensures
            final(self).wf(),
            final(self)@.resources == upsert_resource(
                old(self)@.resources,
                kind@,
                name@,
                opt_text_model(namespace),
                opt_text_model(context),
                t.render(),
                t.instant(),
            ),
            final(self)@.invocations == old(self)@.invocations,
            final(self)@.queries == old(self)@.queries,
            final(self)@.patterns == old(self)@.patterns,
    {
        let ghost m0 = self@.resources;
        let kind_o = kind.to_owned();
        let name_o = name.to_owned();
        let namespace_o = opt_to_string(namespace);
        let context_o = opt_to_string(context);
        proof {
            lemma_find_resource(
                m0,
                kind@,
                name@,
                opt_text_model(namespace),
                opt_text_model(context),
            );
        }
        let found = find_resource_exec(&self.resources, &kind_o, &name_o, &namespace_o, &context_o);
        match found {
            Some(i) => {
                let row = &self.resources[i];
                let bumped: i64 = if row.access_count < i64::MAX {
                    row.access_count + 1
                } else {
                    row.access_count
                };
                let updated = ResourceRow {
                    kind: row.kind.clone(),
                    name: row.name.clone(),
                    namespace: opt_string_clone(&row.namespace),
                    context: opt_string_clone(&row.context),
                    timestamp: t.duplicate(),
                    access_count: bumped,
                };
                self.resources[i] = updated;
                proof {
                    assert(self@.resources =~= m0.update(
                        i as int,
                        (ResourceModel {
                            timestamp: t.render(),
                            instant: t.instant(),
                            access_count: bump_count(m0[i as int].access_count),
                            ..m0[i as int]
                        }),
                    ));
                    let m = self@.resources;
                    assert forall|a: int| 0 <= a < m.len() implies resource_wf(#[trigger] m[a]) by {
                        if a != i as int {
                            assert(m[a] == m0[a]);
                        }
                    }
                    assert forall|a: int, b: int|
                        0 <= a < b < m.len() implies !resource_same_key(
                        #[trigger] m[a],
                        #[trigger] m[b],
                    ) by {
                        assert(resource_same_key(m[i as int], m0[i as int]));
                        if a != i as int {
                            assert(m[a] == m0[a]);
                        }
                        if b != i as int {
                            assert(m[b] == m0[b]);
                        }
                        assert(!resource_same_key(m0[a], m0[b]));
                    }
                }
            },
            None => {
                let row = ResourceRow {
                    kind: kind_o,
                    name: name_o,
                    namespace: namespace_o,
                    context: context_o,
                    timestamp: t.duplicate(),
                    access_count: 1,
                };
                proof {
                    lemma_models_of_push(self.resources@, row);
                }
                self.resources.push(row);
                let ghost pushed = self@.resources;
                proof {
                    assert forall|a: int| 0 <= a < pushed.len() implies resource_wf(
                        #[trigger] pushed[a],
                    ) by {
                        if a < pushed.len() - 1 {
                            assert(pushed[a] == m0[a]);
                        }
                    }
                    assert forall|a: int, b: int|
                        0 <= a < b < pushed.len() implies !resource_same_key(
                        #[trigger] pushed[a],
                        #[trigger] pushed[b],
                    ) by {
                        if b < pushed.len() - 1 {
                            assert(pushed[a] == m0[a]);
                            assert(pushed[b] == m0[b]);
                        } else {
                            assert(pushed[a] == m0[a]);
                            assert(pushed[b] == pushed.last());
                            assert(!resource_key_is(
                                m0[a],
                                kind@,
                                name@,
                                opt_text_model(namespace),
                                opt_text_model(context),
                            ));
                        }
                    }
                }
                if self.resources.len() > RETENTION_CAP {
                    let victim = oldest_resource_exec(&self.resources);
                    proof {
                        lemma_oldest_resource_props(pushed);
                    }
                    self.resources.remove(victim);
                    proof {
                        assert(self@.resources =~= pushed.remove(victim as int));
                        pushed.remove_ensures(victim as int);
                        assert(trim_resources(pushed) == pushed.remove(oldest_resource(pushed)));
                        let m = self@.resources;
                        assert forall|a: int| 0 <= a < m.len() implies resource_wf(
                            #[trigger] m[a],
                        ) by {
                            if a < victim as int {
                                assert(m[a] == pushed[a]);
                            } else {
                                assert(m[a] == pushed[a + 1]);
                            }
                        }
                        assert forall|a: int, b: int|
                            0 <= a < b < m.len() implies !resource_same_key(
                            #[trigger] m[a],
                            #[trigger] m[b],
                        ) by {
                            let a0 = if a < victim as int {
                                a
                            } else {
                                a + 1
                            };
                            let b0 = if b < victim as int {
                                b
                            } else {
                                b + 1
                            };
                            assert(m[a] == pushed[a0]);
                            assert(m[b] == pushed[b0]);
                            assert(!resource_same_key(pushed[a0], pushed[b0]));
                        }
                    }
                } else {
                    assert(trim_resources(pushed) == pushed);
                }
            },
        }
    }

    /// Record a resource access stamped with the current moment, and hand
    /// that moment back.
    pub fn record_resource_access(
        &mut self,
        kind: &str,
        name: &str,
        namespace: Option<&str>,
        context: Option<&str>,
    ) -> (t: Timestamp)
        requires
            old(self).wf(),
        ensures
            final(self).wf(),
            t.wf(),
            final(self)@.resources == upsert_resource(
                old(self)@.resources,
                kind@,
                name@,
                opt_text_model(namespace),
                opt_text_model(context),
                t.render(),
                t.instant(),
            ),
            final(self)@.invocations == old(self)@.invocations,
            final(self)@.queries == old(self)@.queries,
            final(self)@.patterns == old(self)@.patterns,
    {
        let t = Timestamp::now();
        self.record_resource_access_at(kind, name, namespace, context, &t);
        t
    }

    /// Delete the command invocations recorded more than ninety days before
    /// the given moment, and say how many went.
    pub fn cleanup_old_data_at(&mut self, t: &Timestamp) -> (deleted: usize)
        requires
            old(self).wf(),
            t.wf(),
        ensures
            final(self).wf(),
            final(self)@.invocations == old(self)@.invocations.filter(
                keeps_after(t.instant() - 90 * (DAY_MS as int)),
            ),
            deleted as int == old(self)@.invocations.len() - final(self)@.invocations.len(),
            final(self)@.queries == old(self)@.queries,
            final(self)@.resources == old(self)@.resources,
            final(self)@.patterns == old(self)@.patterns,
    {
        let ghost pred = keeps_after(t.instant() - 90 * (DAY_MS as int));
        let cutoff: i64 = t.unix_millis() - 90 * DAY_MS;
        let mut rows: Vec<InvocationRow> = Vec::new();
        core::mem::swap(&mut self.invocations, &mut rows);
        let ghost m0 = models_of(rows@);
        let mut kept: Vec<InvocationRow> = Vec::new();
        let mut i: usize = 0;
        proof {
            reveal(Seq::filter);
            assert(models_of(kept@) =~= m0.take(0).filter(pred));
        }
        while i < rows.len()
            invariant
                i <= rows@.len(),
                m0 == models_of(rows@),
                models_of(kept@) == m0.take(i as int).filter(pred),
                kept@.len() <= i,
                pred == keeps_after(t.instant() - 90 * (DAY_MS as int)),
                cutoff as int == t.instant() - 90 * (DAY_MS as int),
                forall|a: int| 0 <= a < m0.len() ==> invocation_wf(#[trigger] m0[a]),
                invocations_wf(models_of(kept@)),
            decreases rows@.len() - i,
        {
            let ghost prefix = m0.take(i as int);
            let ghost next = m0.take(i as int + 1);
            proof {
                reveal(Seq::filter);
                assert(next.drop_last() =~= prefix);
                assert(next.last() == m0[i as int]);
            }
            let row = &rows[i];
            if row.timestamp.unix_millis() >= cutoff {
                let dup = duplicate_invocation(row);
                proof {
                    lemma_models_of_push(kept@, dup);
                }
                kept.push(dup);
            }
            i += 1;
        }
        proof {
            reveal(Seq::filter);
            assert(m0.take(m0.len() as int) =~= m0);
        }
        let deleted = rows.len() - kept.len();
        self.invocations = kept;
        deleted
    }

    /// Delete the command invocations recorded more than ninety days ago.
    pub fn cleanup_old_data(&mut self) -> (r: (usize, Timestamp))
        requires
            old(self).wf(),
        ensures
            final(self).wf(),
            r.1.wf(),
            final(self)@.invocations == old(self)@.invocations.filter(
                keeps_after(r.1.instant() - 90 * (DAY_MS as int)),
            ),
            r.0 as int == old(self)@.invocations.len() - final(self)@.invocations.len(),
            final(self)@.queries == old(self)@.queries,
            final(self)@.resources == old(self)@.resources,
            final(self)@.patterns == old(self)@.patterns,
    {
        let t = Timestamp::now();
        let deleted = self.cleanup_old_data_at(&t);
        (deleted, t)
    }
}

// ---------------------------------------------------------------------------
// Loading persisted rows
// ---------------------------------------------------------------------------

/// A persisted execution time survives loading only when it is non-negative.
pub open spec fn clean_exec_time(o: Option<i64>) -> Option<int> {
    match o {
        Some(v) => if v >= 0 {
            Some(v as int)
        } else {
            None
        },
        None => None,
    }
}

/// A persisted access count survives loading as at least one.
pub open spec fn clamp_count(c: int) -> int {
    if c < 1 {
        1
    } else {
        c
    }
}

/// A persisted confidence survives loading inside `0 ..= PPM`.
pub open spec fn clamp_ppm(c: int) -> int {
    if c < 0 {
        0
    } else if c > PPM as int {
        PPM as int
    } else {
        c
    }
}

/// A persisted frequency survives loading as non-negative.
pub open spec fn clamp_nonneg(c: int) -> int {
    if c < 0 {
        0
    } else {
        c
    }
}

/// Index of the first pattern row with the given id, or -1 when none has it.
pub open spec fn find_pattern(s: Seq<CommandPatternModel>, id: Seq<char>) -> int
    decreases s.len(),
{
    if s.len() == 0 {
        -1
    } else if s[0].pattern_id == id {
        0
    } else {
        let r = find_pattern(s.drop_first(), id);
        if r < 0 {
            -1
        } else {
            r + 1
        }
    }
}

pub proof fn lemma_find_pattern(s: Seq<CommandPatternModel>, id: Seq<char>)
    ensures
        ({
            let f = find_pattern(s, id);
            &&& (f == -1 ==> forall|i: int|
                0 <= i < s.len() ==> (#[trigger] s[i]).pattern_id != id)
            &&& (f >= 0 ==> 0 <= f < s.len() && s[f].pattern_id == id)
            &&& (f >= 0 ==> forall|q: int| 0 <= q < f ==> (#[trigger] s[q]).pattern_id != id)
        }),
    decreases s.len(),
{
    let f = find_pattern(s, id);
    if s.len() > 0 && s[0].pattern_id != id {
        let rest = s.drop_first();
        lemma_find_pattern(rest, id);
        let fr = find_pattern(rest, id);
        if f == -1 {
            assert forall|i: int| 0 <= i < s.len() implies (#[trigger] s[i]).pattern_id != id by {
                if i > 0 {
                    assert(rest[i - 1] == s[i]);
                }
            }
        } else {
            assert(s[f] == rest[fr]);
            assert forall|q: int| 0 <= q < f implies (#[trigger] s[q]).pattern_id != id by {
                if q > 0 {
                    assert(rest[q - 1] == s[q]);
                }
            }
        }
    }
}

/// Store a pattern row under its id: replace the row holding the id, or
/// append one.
pub open spec fn store_pattern(
    s: Seq<CommandPatternModel>,
    row: CommandPatternModel,
) -> Seq<CommandPatternModel> {
    let f = find_pattern(s, row.pattern_id);
    if f >= 0 {
        s.update(f, row)
    } else {
        s.push(row)
    }
}

impl CommandPaletteDb {
    /// Load a persisted invocation row; rows whose timestamp does not parse
    /// are skipped.
    pub fn load_invocation(
        &mut self,
        command_id: &str,
        timestamp: &str,
        execution_time_ms: Option<i64>,
        success: bool,
        error_message: Option<&str>,
        context: Option<&str>,
    ) -> (ok: bool)
        requires
            old(self).wf(),
        ensures
            final(self).wf(),
            ok <==> rfc_instant(timestamp@) is Some,
            ok ==> final(self)@.invocations == old(self)@.invocations.push(
                (InvocationModel {
                    command_id: command_id@,
                    timestamp: timestamp@,
                    instant: rfc_instant(timestamp@).unwrap(),
                    execution_time_ms: clean_exec_time(execution_time_ms),
                    success: success,
                    error_message: opt_text_model(error_message),
                    context: opt_text_model(context),
                }),
            ),
            !ok ==> final(self)@.invocations == old(self)@.invocations,
            final(self)@.queries == old(self)@.queries,
            final(self)@.resources == old(self)@.resources,
            final(self)@.patterns == old(self)@.patterns,
    {
        match Timestamp::parse(timestamp) {
            Some(t) => {
                let cleaned: Option<i64> = match execution_time_ms {
                    Some(v) => if v >= 0 {
                        Some(v)
                    } else {
                        None
                    },
                    None => None,
                };
                self.record_invocation_at(
                    command_id,
                    cleaned,
                    success,
                    error_message,
                    context,
                    &t,
                );
                true
            },
            None => false,
        }
    }

    /// Load a persisted query row; rows whose timestamp does not parse are
    /// skipped, and the retention trim applies as on recording.
    pub fn load_query(&mut self, query: &str, timestamp: &str, result_count: i32) -> (ok: bool)
        requires
            old(self).wf(),
        ensures
            final(self).wf(),
            ok <==> rfc_instant(timestamp@) is Some,
            ok ==> final(self)@.queries == trim_queries(
                old(self)@.queries.push(
                    (QueryModel {
                        query: query@,
                        timestamp: timestamp@,
                        instant: rfc_instant(timestamp@).unwrap(),
                        result_count: clamp_nonneg(result_count as int),
                    }),
                ),
            ),
            !ok ==> final(self)@.queries == old(self)@.queries,
            final(self)@.invocations == old(self)@.invocations,
            final(self)@.resources == old(self)@.resources,
            final(self)@.patterns == old(self)@.patterns,
    {
        match Timestamp::parse(timestamp) {
            Some(t) => {
                let clean = if result_count < 0 {
                    0
                } else {
                    result_count
                };
                self.record_query_at(query, clean, &t);
                true
            },
            None => false,
        }
    }

    /// Load a persisted resource row; rows whose timestamp does not parse are
    /// skipped. A row with an already-loaded key overwrites that row's
    /// timestamp and count.
    pub fn load_resource(
        &mut self,
        kind: &str,
        name: &str,
        namespace: Option<&str>,
        context: Option<&str>,
        timestamp: &str,
        access_count: i64,
    ) -> (ok: bool)
        requires
            old(self).wf(),
        ensures
            final(self).wf(),
            ok <==> rfc_instant(timestamp@) is Some,
            ok ==> final(self)@.resources == ({
                let s = old(self)@.resources;
                let f = find_resource(
                    s,
                    kind@,
                    name@,
                    opt_text_model(namespace),
                    opt_text_model(context),
                );
                let instant = rfc_instant(timestamp@).unwrap();
                if f >= 0 {
                    s.update(
                        f,
                        (ResourceModel {
                            timestamp: timestamp@,
                            instant: instant,
                            access_count: clamp_count(access_count as int),
                            ..s[f]
                        }),
                    )
                } else {
                    trim_resources(
                        s.push(
                            (ResourceModel {
                                kind: kind@,
                                name: name@,
                                namespace: opt_text_model(namespace),
                                context: opt_text_model(context),
                                timestamp: timestamp@,
                                instant: instant,
                                access_count: clamp_count(access_count as int),
                            }),
                        ),
                    )
                }
            }),
            !ok ==> final(self)@.resources == old(self)@.resources,
            final(self)@.invocations == old(self)@.invocations,
            final(self)@.queries == old(self)@.queries,
            final(self)@.patterns == old(self)@.patterns,
    {
        let t = match Timestamp::parse(timestamp) {
            Some(t) => t,
            None => {
                return false;
            },
        };
        let ghost m0 = self@.resources;
        let kind_o = kind.to_owned();
        let name_o = name.to_owned();
        let namespace_o = opt_to_string(namespace);
        let context_o = opt_to_string(context);
        let count = if access_count < 1 {
            1
        } else {
            access_count
        };
        proof {
            lemma_find_resource(
                m0,
                kind@,
                name@,
                opt_text_model(namespace),
                opt_text_model(context),
            );
        }
        let found = find_resource_exec(&self.resources, &kind_o, &name_o, &namespace_o, &context_o);
        match found {
            Some(i) => {
                let row = &self.resources[i];
                let updated = ResourceRow {
                    kind: row.kind.clone(),
                    name: row.name.clone(),
                    namespace: opt_string_clone(&row.namespace),
                    context: opt_string_clone(&row.context),
                    timestamp: t,
                    access_count: count,
                };
                self.resources[i] = updated;
                proof {
                    assert(self@.resources =~= m0.update(
                        i as int,
                        (ResourceModel {
                            timestamp: timestamp@,
                            instant: rfc_instant(timestamp@).unwrap(),
                            access_count: clamp_count(access_count as int),
                            ..m0[i as int]
                        }),
                    ));
                    let m = self@.resources;
                    assert forall|a: int| 0 <= a < m.len() implies resource_wf(#[trigger] m[a]) by {
                        if a != i as int {
                            assert(m[a] == m0[a]);
                        }
                    }
                    assert forall|a: int, b: int|
                        0 <= a < b < m.len() implies !resource_same_key(
                        #[trigger] m[a],
                        #[trigger] m[b],
                    ) by {
                        assert(resource_same_key(m[i as int], m0[i as int]));
                        if a != i as int {
                            assert(m[a] == m0[a]);
                        }
                        if b != i as int {
                            assert(m[b] == m0[b]);
                        }
                        assert(!resource_same_key(m0[a], m0[b]));
                    }
                }
            },
            None => {
                let row = ResourceRow {
                    kind: kind_o,
                    name: name_o,
                    namespace: namespace_o,
                    context: context_o,
                    timestamp: t,
                    access_count: count,
                };
                proof {
                    lemma_models_of_push(self.resources@, row);
                }
                self.resources.push(row);
                let ghost pushed = self@.resources;
                proof {
                    assert forall|a: int| 0 <= a < pushed.len() implies resource_wf(
                        #[trigger] pushed[a],
                    ) by {
                        if a < pushed.len() - 1 {
                            assert(pushed[a] == m0[a]);
                        }
                    }
                    assert forall|a: int, b: int|
                        0 <= a < b < pushed.len() implies !resource_same_key(
                        #[trigger] pushed[a],
                        #[trigger] pushed[b],
                    ) by {
                        if b < pushed.len() - 1 {
                            assert(pushed[a] == m0[a]);
                            assert(pushed[b] == m0[b]);
                        } else {
                            assert(pushed[a] == m0[a]);
                            assert(pushed[b] == pushed.last());
                            assert(!resource_key_is(
                                m0[a],
                                kind@,
                                name@,
                                opt_text_model(namespace),
                                opt_text_model(context),
                            ));
                        }
                    }
                }
                if self.resources.len() > RETENTION_CAP {
                    let victim = oldest_resource_exec(&self.resources);
                    proof {
                        lemma_oldest_resource_props(pushed);
                    }
                    self.resources.remove(victim);
                    proof {
                        assert(self@.resources =~= pushed.remove(victim as int));
                        pushed.remove_ensures(victim as int);
                        let m = self@.resources;
                        assert forall|a: int| 0 <= a < m.len() implies resource_wf(
                            #[trigger] m[a],
                        ) by {
                            if a < victim as int {
                                assert(m[a] == pushed[a]);
                            } else {
                                assert(m[a] == pushed[a + 1]);
                            }
                        }
                        assert forall|a: int, b: int|
                            0 <= a < b < m.len() implies !resource_same_key(
                            #[trigger] m[a],
                            #[trigger] m[b],
                        ) by {
                            let a0 = if a < victim as int {
                                a
                            } else {
                                a + 1
                            };
                            let b0 = if b < victim as int {
                                b
                            } else {
                                b + 1
                            };
                            assert(m[a] == pushed[a0]);
                            assert(m[b] == pushed[b0]);
                            assert(!resource_same_key(pushed[a0], pushed[b0]));
                        }
                    }
                } else {
                    assert(trim_resources(pushed) == pushed);
                }
            },
        }
        true
    }

    /// Load a persisted pattern row under its id, replacing a row already
    /// loaded under the same id. Out-of-range confidences and frequencies are
    /// clamped; the `last_seen` text is kept as it was persisted.
    pub fn load_pattern(
        &mut self,
        pattern_id: &str,
        command_sequence: Vec<String>,
        frequency: i64,
        confidence_ppm: i64,
        last_seen: &str,
        avg_time_between_commands_ms: Option<i64>,
    )
        requires
            old(self).wf(),
        ensures
            final(self).wf(),
            final(self)@.patterns == store_pattern(
                old(self)@.patterns,
                (CommandPatternModel {
                    pattern_id: pattern_id@,
                    command_sequence: command_sequence.deep_view(),
                    frequency: clamp_nonneg(frequency as int),
                    confidence_ppm: clamp_ppm(confidence_ppm as int),
                    last_seen: last_seen@,
                    avg_time_between_commands_ms: (match avg_time_between_commands_ms {
                        Some(v) => Some(v as int),
                        None => None,
                    }),
                }),
            ),
            final(self)@.invocations == old(self)@.invocations,
            final(self)@.queries == old(self)@.queries,
            final(self)@.resources == old(self)@.resources,
    {
        let row = CommandPattern {
            pattern_id: pattern_id.to_owned(),
            command_sequence,
            frequency: if frequency < 0 {
                0
            } else {
                frequency
            },
            confidence_ppm: if confidence_ppm < 0 {
                0
            } else if confidence_ppm > PPM {
                PPM
            } else {
                confidence_ppm
            },
            last_seen: last_seen.to_owned(),
            avg_time_between_commands_ms,
        };
        self.put_pattern(row);
    }

    /// Store a pattern row under its id.
    pub(crate) fn put_pattern(&mut self, row: CommandPattern)
        requires
            old(self).wf(),
            pattern_wf(row@),
        ensures
            final(self).wf(),
            final(self)@.patterns == store_pattern(old(self)@.patterns, row@),
            final(self)@.invocations == old(self)@.invocations,
            final(self)@.queries == old(self)@.queries,
            final(self)@.resources == old(self)@.resources,
    {
        let ghost m0 = self@.patterns;
        proof {
            lemma_find_pattern(m0, row@.pattern_id);
        }
        let found = find_pattern_exec(&self.patterns, &row.pattern_id);
        match found {
            Some(i) => {
                self.patterns[i] = row;
                proof {
                    assert(self@.patterns =~= m0.update(i as int, row@));
                    let m = self@.patterns;
                    assert forall|a: int| 0 <= a < m.len() implies pattern_wf(#[trigger] m[a]) by {
                        if a != i as int {
                            assert(m[a] == m0[a]);
                        }
                    }
                    assert forall|a: int, b: int|
                        0 <= a < b < m.len() implies (#[trigger] m[a]).pattern_id != (
                    #[trigger] m[b]).pattern_id by {
                        if a != i as int {
                            assert(m[a] == m0[a]);
                        }
                        if b != i as int {
                            assert(m[b] == m0[b]);
                        }
                        assert(m0[a].pattern_id != m0[b].pattern_id);
                        assert(m0[i as int].pattern_id == row@.pattern_id);
                    }
                }
            },
            None => {
                proof {
                    lemma_models_of_push(self.patterns@, row);
                }
                self.patterns.push(row);
                proof {
                    let m = self@.patterns;
                    assert forall|a: int| 0 <= a < m.len() implies pattern_wf(#[trigger] m[a]) by {
                        if a < m.len() - 1 {
                            assert(m[a] == m0[a]);
                        }
                    }
                    assert forall|a: int, b: int|
                        0 <= a < b < m.len() implies (#[trigger] m[a]).pattern_id != (
                    #[trigger] m[b]).pattern_id by {
                        if b < m.len() - 1 {
                            assert(m[a] == m0[a]);
                            assert(m[b] == m0[b]);
                        } else {
                            assert(m[a] == m0[a]);
                            assert(m[b] == m.last());
                        }
                    }
                }
            },
        }
    }
}

// ---------------------------------------------------------------------------
// Pattern detection
// ---------------------------------------------------------------------------

/// The chronological tail of the successful invocations: the newest
/// thousand, oldest first, as (command id, instant) pairs.
pub open spec fn chron_of(s: Seq<InvocationModel>) -> Seq<(Seq<char>, int)> {
    let pick = success_pick(s);
    let ord = ranked_order(picked_history_keys(s, pick));
    let top = spec_min(1000, pick.len() as int);
    Seq::new(
        top as nat,
        |r: int|
            (s[pick[ord[top - 1 - r]]].command_id, s[pick[ord[top - 1 - r]]].instant),
    )
}

/// Refresh a mined pattern into the table: overwrite the scores of the row
/// holding the id but keep its stored sequence, or append the pattern.
pub open spec fn refresh_pattern(
    s: Seq<CommandPatternModel>,
    row: CommandPatternModel,
) -> Seq<CommandPatternModel> {
    let f = find_pattern(s, row.pattern_id);
    if f >= 0 {
        s.update(f, (CommandPatternModel { command_sequence: s[f].command_sequence, ..row }))
    } else {
        s.push(row)
    }
}

/// Refresh a batch of mined patterns, in order.
pub open spec fn refresh_all(
    s: Seq<CommandPatternModel>,
    rows: Seq<CommandPatternModel>,
) -> Seq<CommandPatternModel>
    decreases rows.len(),
{
    if rows.len() == 0 {
        s
    } else {
        refresh_pattern(refresh_all(s, rows.drop_last()), rows.last())
    }
}

impl CommandPaletteDb {
    /// Refresh one mined pattern into the table.
    fn refresh_pattern_row(&mut self, row: &CommandPattern)
        requires
            old(self).wf(),
            pattern_wf((*row)@),
        ensures
            final(self).wf(),
            final(self)@.patterns == refresh_pattern(old(self)@.patterns, (*row)@),
            final(self)@.invocations == old(self)@.invocations,
            final(self)@.queries == old(self)@.queries,
            final(self)@.resources == old(self)@.resources,
    {
        let ghost m0 = self@.patterns;
        proof {
            lemma_find_pattern(m0, row@.pattern_id);
        }
        let found = find_pattern_exec(&self.patterns, &row.pattern_id);
        match found {
            Some(i) => {
                let kept = clone_strings(&self.patterns[i].command_sequence);
                let newrow = CommandPattern {
                    pattern_id: row.pattern_id.clone(),
                    command_sequence: kept,
                    frequency: row.frequency,
                    confidence_ppm: row.confidence_ppm,
                    last_seen: row.last_seen.clone(),
                    avg_time_between_commands_ms: row.avg_time_between_commands_ms,
                };
                proof {
                    assert(newrow.command_sequence.deep_view()
                        =~= m0[i as int].command_sequence);
                }
                self.patterns[i] = newrow;
                proof {
                    assert(self@.patterns =~= m0.update(
                        i as int,
                        (CommandPatternModel {
                            command_sequence: m0[i as int].command_sequence,
                            ..(*row)@
                        }),
                    ));
                    let m = self@.patterns;
                    assert forall|a: int| 0 <= a < m.len() implies pattern_wf(#[trigger] m[a]) by {
                        if a != i as int {
                            assert(m[a] == m0[a]);
                        }
                    }
                    assert forall|a: int, b: int|
                        0 <= a < b < m.len() implies (#[trigger] m[a]).pattern_id != (
                    #[trigger] m[b]).pattern_id by {
                        if a != i as int {
                            assert(m[a] == m0[a]);
                        }
                        if b != i as int {
                            assert(m[b] == m0[b]);
                        }
                        assert(m0[a].pattern_id != m0[b].pattern_id);
                        assert(m0[i as int].pattern_id == row@.pattern_id);
                    }
                }
            },
            None => {
                let dup = duplicate_pattern(row);
                proof {
                    lemma_models_of_push(self.patterns@, dup);
                }
                self.patterns.push(dup);
                proof {
                    let m = self@.patterns;
                    assert forall|a: int| 0 <= a < m.len() implies pattern_wf(#[trigger] m[a]) by {
                        if a < m.len() - 1 {
                            assert(m[a] == m0[a]);
                        }
                    }
                    assert forall|a: int, b: int|
                        0 <= a < b < m.len() implies (#[trigger] m[a]).pattern_id != (
                    #[trigger] m[b]).pattern_id by {
                        if b < m.len() - 1 {
                            assert(m[a] == m0[a]);
                            assert(m[b] == m0[b]);
                        } else {
                            assert(m[a] == m0[a]);
                            assert(m[b] == m.last());
                        }
                    }
                }
            },
        }
    }

    /// Mine the recurring command sequences of the recent successful
    /// history as of the given moment, refresh them in the pattern table,
    /// and hand back the mined set.
    pub fn detect_patterns_at(
        &mut self,
        min_sequence_length: usize,
        max_sequence_length: usize,
        t: &Timestamp,
    ) -> (out: Vec<CommandPattern>)
        requires
            old(self).wf(),
            t.wf(),
            min_sequence_length >= 1,
        ensures
            final(self).wf(),
            models_of(out@) == crate::mining::spec_mine(
                chron_of(old(self)@.invocations),
                min_sequence_length as int,
                max_sequence_length as int,
                t.instant(),
                t.render(),
            ),
            final(self)@.patterns == refresh_all(old(self)@.patterns, models_of(out@)),
            final(self)@.invocations == old(self)@.invocations,
            final(self)@.queries == old(self)@.queries,
            final(self)@.resources == old(self)@.resources,
    {
        let ghost m = self@.invocations;
        let ghost pick = success_pick(m);
        let mut idxs: Vec<usize> = Vec::new();
        let mut keys: Vec<(i64, i64)> = Vec::new();
        let mut i: usize = 0;
        while i < self.invocations.len()
            invariant
                i <= self.invocations@.len(),
                m == self@.invocations,
                as_ints(idxs@) == success_pick(m.take(i as int)),
                idxs@.len() == keys@.len(),
                forall|a: int| 0 <= a < idxs@.len() ==> #[trigger] idxs@[a] < i,
                forall|a: int|
                    0 <= a < keys@.len() ==> key_seq(keys@)[a] == (
                    m[#[trigger] idxs@[a] as int].instant, 0int),
            decreases self.invocations@.len() - i,
        {
            let ghost prefix = m.take(i as int);
            let ghost next = m.take(i as int + 1);
            proof {
                assert(next.drop_last() =~= prefix);
                assert(next.last() == m[i as int]);
            }
            if self.invocations[i].success {
                idxs.push(i);
                keys.push((self.invocations[i].timestamp.unix_millis(), 0));
                proof {
                    assert(as_ints(idxs@) =~= success_pick(next));
                }
            }
            i += 1;
        }
        proof {
            assert(m.take(m.len() as int) =~= m);
            assert forall|a: int| 0 <= a < keys@.len() implies key_seq(keys@)[a]
                == picked_history_keys(m, pick)[a] by {
                assert(pick[a] == idxs@[a] as int);
            }
            assert(key_seq(keys@) =~= picked_history_keys(m, pick));
        }
        let order = rank_desc(&keys);
        let ghost ord = ranked_order(picked_history_keys(m, pick));
        proof {
            lemma_ranked_order_props(picked_history_keys(m, pick));
        }
        let top: usize = if order.len() > 1000 {
            1000
        } else {
            order.len()
        };
        let ghost cspec = chron_of(m);
        let mut chron: Vec<(String, i64)> = Vec::new();
        let mut r: usize = 0;
        while r < top
            invariant
                r <= top,
                top as int == spec_min(1000, pick.len() as int),
                m == self@.invocations,
                pick == success_pick(m),
                ord == ranked_order(picked_history_keys(m, pick)),
                as_ints(order@) == ord,
                order@.len() == pick.len(),
                as_ints(idxs@) == pick,
                forall|a: int|
                    0 <= a < idxs@.len() ==> #[trigger] idxs@[a] < self.invocations@.len(),
                forall|a: int| 0 <= a < pick.len() ==> 0 <= #[trigger] ord[a] < pick.len(),
                cspec == chron_of(m),
                chron@.len() == r,
                forall|a: int|
                    0 <= a < r ==> ((#[trigger] chron@[a]).0@ == cspec[a].0 && chron@[a].1 as int
                        == cspec[a].1),
            decreases top - r,
        {
            let j = order[top - 1 - r];
            proof {
                assert(as_ints(order@)[top - 1 - r as int] == j as int);
            }
            let idx = idxs[j];
            proof {
                assert(as_ints(idxs@)[j as int] == idx as int);
            }
            let row = &self.invocations[idx];
            chron.push((row.command_id.clone(), row.timestamp.unix_millis()));
            r += 1;
        }
        proof {
            assert forall|a: int| 0 <= a < chron@.len() implies crate::mining::chron_view(
                chron@,
            )[a] == cspec[a] by {
                assert(chron@[a].0@ == cspec[a].0);
            }
            assert(crate::mining::chron_view(chron@) =~= cspec);
            // The selection is chronological and its instants are in range.
            assert forall|a: int, b: int| 0 <= a < b < cspec.len() implies (
            #[trigger] cspec[a]).1 <= (#[trigger] cspec[b]).1 by {
                let p = top as int - 1 - b;
                let q = top as int - 1 - a;
                assert(comes_before(picked_history_keys(m, pick), ord[p], ord[q]));
                assert(picked_history_keys(m, pick)[ord[p]].0 == m[pick[ord[p]]].instant);
                assert(picked_history_keys(m, pick)[ord[q]].0 == m[pick[ord[q]]].instant);
            }
            assert forall|a: int| 0 <= a < cspec.len() implies -(INSTANT_BOUND as int) < (
            #[trigger] cspec[a]).1 < INSTANT_BOUND as int by {
                let j = ord[top as int - 1 - a];
                assert(invocation_wf(m[pick[j]]));
            }
            assert(crate::mining::chron_ok(crate::mining::chron_view(chron@)));
        }
        let out = crate::mining::mine_patterns(
            &chron,
            min_sequence_length,
            max_sequence_length,
            t,
        );
        let ghost p0 = self@.patterns;
        let ghost outm = models_of(out@);
        let mut u: usize = 0;
        proof {
            assert(outm.take(0) =~= Seq::<CommandPatternModel>::empty());
        }
        while u < out.len()
            invariant
                u <= out@.len(),
                outm == models_of(out@),
                forall|a: int| 0 <= a < out@.len() ==> pattern_wf(#[trigger] models_of(out@)[a]),
                self.wf(),
                self@.patterns == refresh_all(p0, outm.take(u as int)),
                self@.invocations == old(self)@.invocations,
                self@.queries == old(self)@.queries,
                self@.resources == old(self)@.resources,
            decreases out@.len() - u,
        {
            let ghost prefix = outm.take(u as int);
            let ghost next = outm.take(u as int + 1);
            proof {
                assert(next.drop_last() =~= prefix);
                assert(next.last() == outm[u as int]);
            }
            self.refresh_pattern_row(&out[u]);
            u += 1;
        }
        proof {
            assert(outm.take(outm.len() as int) =~= outm);
        }
        out
    }

    /// Mine the recurring command sequences of the recent successful
    /// history as of the current moment, refresh them in the pattern table,
    /// and hand back the mined set with the moment used.
    pub fn detect_patterns(
        &mut self,
        min_sequence_length: usize,
        max_sequence_length: usize,
    ) -> (r: (Vec<CommandPattern>, Timestamp))
        requires
            old(self).wf(),
            min_sequence_length >= 1,
        ensures
            final(self).wf(),
            r.1.wf(),
            models_of(r.0@) == crate::mining::spec_mine(
                chron_of(old(self)@.invocations),
                min_sequence_length as int,
                max_sequence_length as int,
                r.1.instant(),
                r.1.render(),
            ),
            final(self)@.patterns == refresh_all(old(self)@.patterns, models_of(r.0@)),
            final(self)@.invocations == old(self)@.invocations,
            final(self)@.queries == old(self)@.queries,
            final(self)@.resources == old(self)@.resources,
    {
        let t = Timestamp::now();
        let out = self.detect_patterns_at(min_sequence_length, max_sequence_length, &t);
        (out, t)
    }
}

/// Find the first pattern row with the given id.
fn find_pattern_exec(rows: &Vec<CommandPattern>, id: &String) -> (r: Option<usize>)
    ensures
        (match r {
            Some(i) => i < rows@.len() && find_pattern(models_of(rows@), id@) == i as int,
            None => find_pattern(models_of(rows@), id@) == -1,
        }),
{
    let ghost m = models_of(rows@);
    let mut i: usize = 0;
    while i < rows.len()
        invariant
            i <= rows@.len(),
            m == models_of(rows@),
            forall|q: int| 0 <= q < i ==> (#[trigger] m[q]).pattern_id != id@,
        decreases rows@.len() - i,
    {
        if rows[i].pattern_id == *id {
            proof {
                lemma_find_pattern_at(m, id@, i as int);
            }
            return Some(i);
        }
        i += 1;
    }
    proof {
        lemma_find_pattern_none(m, id@);
    }
    None
}

/// A first match at `i` makes `find_pattern` return `i`.
proof fn lemma_find_pattern_at(s: Seq<CommandPatternModel>, id: Seq<char>, i: int)
    requires
        0 <= i < s.len(),
        s[i].pattern_id == id,
        forall|q: int| 0 <= q < i ==> (#[trigger] s[q]).pattern_id != id,
    ensures
        find_pattern(s, id) == i,
    decreases s.len(),
{
    if i > 0 {
        let rest = s.drop_first();
        assert(forall|q: int| 0 <= q < rest.len() ==> #[trigger] rest[q] == s[q + 1]);
        lemma_find_pattern_at(rest, id, i - 1);
    }
}

/// No match anywhere makes `find_pattern` return -1.
proof fn lemma_find_pattern_none(s: Seq<CommandPatternModel>, id: Seq<char>)
    requires
        forall|q: int| 0 <= q < s.len() ==> (#[trigger] s[q]).pattern_id != id,
    ensures
        find_pattern(s, id) == -1,
    decreases s.len(),
{
    if s.len() > 0 {
        let rest = s.drop_first();
        assert(forall|q: int| 0 <= q < rest.len() ==> #[trigger] rest[q] == s[q + 1]);
        lemma_find_pattern_none(rest, id);
    }
}

// ---------------------------------------------------------------------------
// Read operations
// ---------------------------------------------------------------------------

/// The smaller of two integers.
pub open spec fn spec_min(a: int, b: int) -> int {
    if a < b {
        a
    } else {
        b
    }
}

/// Recency keys of the query table.
pub open spec fn query_keys(s: Seq<QueryModel>) -> Seq<(int, int)> {
    Seq::new(s.len(), |i: int| (s[i].instant, 0))
}

/// A query row as handed to callers.
pub open spec fn query_out(m: QueryModel) -> RecentQueryModel {
    RecentQueryModel { query: m.query, timestamp: m.timestamp, result_count: m.result_count }
}

/// The most recent queries, newest first, capped at `limit`.
pub open spec fn spec_recent_queries(s: Seq<QueryModel>, limit: int) -> Seq<RecentQueryModel> {
    let ord = ranked_order(query_keys(s));
    Seq::new(spec_min(limit, s.len() as int) as nat, |r: int| query_out(s[ord[r]]))
}

impl CommandPaletteDb {
    /// The most recent queries, newest first, capped at `limit`.
    pub fn get_recent_queries(&self, limit: usize) -> (out: Vec<RecentQuery>)
        requires
            self.wf(),
        ensures
            models_of(out@) == spec_recent_queries(self@.queries, limit as int),
    {
        let ghost m = self@.queries;
        let mut keys: Vec<(i64, i64)> = Vec::new();
        let mut i: usize = 0;
        while i < self.queries.len()
            invariant
                i <= self.queries@.len(),
                m == self@.queries,
                keys@.len() == i,
                forall|a: int| 0 <= a < i ==> key_seq(keys@)[a] == query_keys(m)[a],
            decreases self.queries@.len() - i,
        {
            keys.push((self.queries[i].timestamp.unix_millis(), 0));
            i += 1;
        }
        proof {
            assert(key_seq(keys@) =~= query_keys(m));
        }
        let order = rank_desc(&keys);
        proof {
            lemma_ranked_order_props(query_keys(m));
        }
        let n = if limit < order.len() {
            limit
        } else {
            order.len()
        };
        let mut out: Vec<RecentQuery> = Vec::new();
        let mut r: usize = 0;
        while r < n
            invariant
                r <= n,
                n as int == spec_min(limit as int, m.len() as int),
                m == self@.queries,
                as_ints(order@) == ranked_order(query_keys(m)),
                order@.len() == m.len(),
                forall|a: int|
                    0 <= a < m.len() ==> 0 <= #[trigger] ranked_order(query_keys(m))[a] < m.len(),
                out@.len() == r,
                forall|a: int|
                    0 <= a < r ==> models_of(out@)[a] == spec_recent_queries(m, limit as int)[a],
            decreases n - r,
        {
            let idx = order[r];
            proof {
                assert(as_ints(order@)[r as int] == idx as int);
            }
            let q = &self.queries[idx];
            let ghost before = out@;
            out.push(
                RecentQuery {
                    query: q.query.clone(),
                    timestamp: q.timestamp.text().clone(),
                    result_count: q.result_count,
                },
            );
            proof {
                lemma_models_of_push(before, out@.last());
                assert(models_of(out@)[r as int] == out@.last()@);
                assert(out@.last()@ == query_out(m[idx as int]));
                assert forall|a: int| 0 <= a < r implies models_of(out@)[a] == spec_recent_queries(
                    m,
                    limit as int,
                )[a] by {
                    assert(models_of(out@)[a] == models_of(before)[a]);
                }
            }
            r += 1;
        }
        proof {
            assert(models_of(out@) =~= spec_recent_queries(m, limit as int));
        }
        out
    }
}

/// The row passes the optional kind filter.
pub open spec fn kind_matches(m: ResourceModel, filt: Option<Seq<char>>) -> bool {
    match filt {
        Some(k) => m.kind == k,
        None => true,
    }
}

/// Indices of the resource rows passing the filter, in table order.
pub open spec fn resource_pick(s: Seq<ResourceModel>, filt: Option<Seq<char>>) -> Seq<int>
    decreases s.len(),
{
    if s.len() == 0 {
        Seq::<int>::empty()
    } else {
        let p = resource_pick(s.drop_last(), filt);
        if kind_matches(s.last(), filt) {
            p.push(s.len() - 1)
        } else {
            p
        }
    }
}

/// Recency keys of the picked resource rows.
pub open spec fn picked_recent_keys(s: Seq<ResourceModel>, pick: Seq<int>) -> Seq<(int, int)> {
    Seq::new(pick.len(), |i: int| (s[pick[i]].instant, 0))
}

/// Popularity keys of the picked resource rows: count first, recency second.
pub open spec fn picked_top_keys(s: Seq<ResourceModel>, pick: Seq<int>) -> Seq<(int, int)> {
    Seq::new(pick.len(), |i: int| (s[pick[i]].access_count, s[pick[i]].instant))
}

/// A resource row as handed to callers.
pub open spec fn resource_out(m: ResourceModel) -> ResourceSummaryModel {
    ResourceSummaryModel {
        kind: m.kind,
        name: m.name,
        namespace: m.namespace,
        context: m.context,
        last_accessed: m.timestamp,
        access_count: m.access_count,
    }
}

/// The most recently touched resources passing the filter, newest first,
/// capped at `limit`.
pub open spec fn spec_recent_resources(
    s: Seq<ResourceModel>,
    filt: Option<Seq<char>>,
    limit: int,
) -> Seq<ResourceSummaryModel> {
    let pick = resource_pick(s, filt);
    let ord = ranked_order(picked_recent_keys(s, pick));
    Seq::new(spec_min(limit, pick.len() as int) as nat, |r: int| resource_out(s[pick[ord[r]]]))
}

/// The most accessed resources passing the filter, by count then recency,
/// capped at `limit`.
pub open spec fn spec_top_resources(
    s: Seq<ResourceModel>,
    filt: Option<Seq<char>>,
    limit: int,
) -> Seq<ResourceSummaryModel> {
    let pick = resource_pick(s, filt);
    let ord = ranked_order(picked_top_keys(s, pick));
    Seq::new(spec_min(limit, pick.len() as int) as nat, |r: int| resource_out(s[pick[ord[r]]]))
}

/// Indices of the successful invocations, in table order.
pub open spec fn success_pick(s: Seq<InvocationModel>) -> Seq<int>
    decreases s.len(),
{
    if s.len() == 0 {
        Seq::<int>::empty()
    } else {
        let p = success_pick(s.drop_last());
        if s.last().success {
            p.push(s.len() - 1)
        } else {
            p
        }
    }
}

/// Recency keys of the picked invocations.
pub open spec fn picked_history_keys(s: Seq<InvocationModel>, pick: Seq<int>) -> Seq<(int, int)> {
    Seq::new(pick.len(), |i: int| (s[pick[i]].instant, 0))
}

/// An invocation as handed to fuzzy search.
pub open spec fn history_out(m: InvocationModel) -> CommandHistoryModel {
    CommandHistoryModel {
        command_id: m.command_id,
        timestamp: m.timestamp,
        execution_time_ms: m.execution_time_ms,
        success: m.success,
    }
}

/// The successful invocations, newest first, capped at `limit`.
pub open spec fn spec_command_history(
    s: Seq<InvocationModel>,
    limit: int,
) -> Seq<CommandHistoryModel> {
    let pick = success_pick(s);
    let ord = ranked_order(picked_history_keys(s, pick));
    Seq::new(spec_min(limit, pick.len() as int) as nat, |r: int| history_out(s[pick[ord[r]]]))
}

/// Indices of the patterns at or above the confidence threshold, in table
/// order.
pub open spec fn confidence_pick(s: Seq<CommandPatternModel>, min_ppm: int) -> Seq<int>
    decreases s.len(),
{
    if s.len() == 0 {
        Seq::<int>::empty()
    } else {
        let p = confidence_pick(s.drop_last(), min_ppm);
        if s.last().confidence_ppm >= min_ppm {
            p.push(s.len() - 1)
        } else {
            p
        }
    }
}

/// Ranking keys of the picked patterns: confidence first, frequency second.
pub open spec fn picked_pattern_keys(s: Seq<CommandPatternModel>, pick: Seq<int>) -> Seq<
    (int, int),
> {
    Seq::new(pick.len(), |i: int| (s[pick[i]].confidence_ppm, s[pick[i]].frequency))
}

/// The persisted patterns at or above the threshold, by confidence then
/// frequency, capped at `limit`.
pub open spec fn spec_get_patterns(
    s: Seq<CommandPatternModel>,
    min_ppm: int,
    limit: int,
) -> Seq<CommandPatternModel> {
    let pick = confidence_pick(s, min_ppm);
    let ord = ranked_order(picked_pattern_keys(s, pick));
    Seq::new(spec_min(limit, pick.len() as int) as nat, |r: int| s[pick[ord[r]]])
}

impl CommandPaletteDb {
    /// The most recently touched resources passing the filter, newest first,
    /// capped at `limit`.
    pub fn get_recent_resources(&self, limit: usize, kind_filter: Option<&str>) -> (out: Vec<
        ResourceSummary,
    >)
        requires
            self.wf(),
        ensures
            models_of(out@) == spec_recent_resources(
                self@.resources,
                opt_text_model(kind_filter),
                limit as int,
            ),
    {
        let ghost m = self@.resources;
        let ghost filt = opt_text_model(kind_filter);
        let (idxs, keys) = pick_resources(&self.resources, kind_filter, false);
        let ghost pick = resource_pick(m, filt);
        let order = rank_desc(&keys);
        proof {
            lemma_ranked_order_props(picked_recent_keys(m, pick));
        }
        let n = if limit < order.len() {
            limit
        } else {
            order.len()
        };
        let mut out: Vec<ResourceSummary> = Vec::new();
        let mut r: usize = 0;
        while r < n
            invariant
                r <= n,
                n as int == spec_min(limit as int, pick.len() as int),
                m == self@.resources,
                pick == resource_pick(m, filt),
                as_ints(order@) == ranked_order(picked_recent_keys(m, pick)),
                order@.len() == pick.len(),
                as_ints(idxs@) == pick,
                forall|a: int| 0 <= a < idxs@.len() ==> #[trigger] idxs@[a] < self.resources@.len(),
                forall|a: int|
                    0 <= a < pick.len() ==> 0 <= #[trigger] ranked_order(
                        picked_recent_keys(m, pick),
                    )[a] < pick.len(),
                out@.len() == r,
                forall|a: int|
                    0 <= a < r ==> models_of(out@)[a] == spec_recent_resources(
                        m,
                        filt,
                        limit as int,
                    )[a],
            decreases n - r,
        {
            let j = order[r];
            proof {
                assert(as_ints(order@)[r as int] == j as int);
            }
            let idx = idxs[j];
            proof {
                assert(as_ints(idxs@)[j as int] == idx as int);
            }
            let row = &self.resources[idx];
            let ghost before = out@;
            out.push(
                ResourceSummary {
                    kind: row.kind.clone(),
                    name: row.name.clone(),
                    namespace: opt_string_clone(&row.namespace),
                    context: opt_string_clone(&row.context),
                    last_accessed: row.timestamp.text().clone(),
                    access_count: row.access_count,
                },
            );
            proof {
                lemma_models_of_push(before, out@.last());
                assert(models_of(out@)[r as int] == out@.last()@);
                assert(out@.last()@ == resource_out(m[idx as int]));
                assert forall|a: int| 0 <= a < r implies models_of(out@)[a]
                    == spec_recent_resources(m, filt, limit as int)[a] by {
                    assert(models_of(out@)[a] == models_of(before)[a]);
                }
            }
            r += 1;
        }
        proof {
            assert(models_of(out@) =~= spec_recent_resources(m, filt, limit as int));
        }
        out
    }

    /// The most accessed resources passing the filter, by count then
    /// recency, capped at `limit`.
    pub fn get_top_resources(&self, limit: usize, kind_filter: Option<&str>) -> (out: Vec<
        ResourceSummary,
    >)
        requires
            self.wf(),
        ensures
            models_of(out@) == spec_top_resources(
                self@.resources,
                opt_text_model(kind_filter),
                limit as int,
            ),
    {
        let ghost m = self@.resources;
        let ghost filt = opt_text_model(kind_filter);
        let (idxs, keys) = pick_resources(&self.resources, kind_filter, true);
        let ghost pick = resource_pick(m, filt);
        let order = rank_desc(&keys);
        proof {
            lemma_ranked_order_props(picked_top_keys(m, pick));
        }
        let n = if limit < order.len() {
            limit
        } else {
            order.len()
        };
        let mut out: Vec<ResourceSummary> = Vec::new();
        let mut r: usize = 0;
        while r < n
            invariant
                r <= n,
                n as int == spec_min(limit as int, pick.len() as int),
                m == self@.resources,
                pick == resource_pick(m, filt),
                as_ints(order@) == ranked_order(picked_top_keys(m, pick)),
                order@.len() == pick.len(),
                as_ints(idxs@) == pick,
                forall|a: int| 0 <= a < idxs@.len() ==> #[trigger] idxs@[a] < self.resources@.len(),
                forall|a: int|
                    0 <= a < pick.len() ==> 0 <= #[trigger] ranked_order(
                        picked_top_keys(m, pick),
                    )[a] < pick.len(),
                out@.len() == r,
                forall|a: int|
                    0 <= a < r ==> models_of(out@)[a] == spec_top_resources(
                        m,
                        filt,
                        limit as int,
                    )[a],
            decreases n - r,
        {
            let j = order[r];
            proof {
                assert(as_ints(order@)[r as int] == j as int);
            }
            let idx = idxs[j];
            proof {
                assert(as_ints(idxs@)[j as int] == idx as int);
            }
            let row = &self.resources[idx];
            let ghost before = out@;
            out.push(
                ResourceSummary {
                    kind: row.kind.clone(),
                    name: row.name.clone(),
                    namespace: opt_string_clone(&row.namespace),
                    context: opt_string_clone(&row.context),
                    last_accessed: row.timestamp.text().clone(),
                    access_count: row.access_count,
                },
            );
            proof {
                lemma_models_of_push(before, out@.last());
                assert(models_of(out@)[r as int] == out@.last()@);
                assert(out@.last()@ == resource_out(m[idx as int]));
                assert forall|a: int| 0 <= a < r implies models_of(out@)[a] == spec_top_resources(
                    m,
                    filt,
                    limit as int,
                )[a] by {
                    assert(models_of(out@)[a] == models_of(before)[a]);
                }
            }
            r += 1;
        }
        proof {
            assert(models_of(out@) =~= spec_top_resources(m, filt, limit as int));
        }
        out
    }

    /// The successful invocations, newest first, capped at `limit`, for
    /// external fuzzy search over command ids.
    pub fn get_command_history(&self, limit: usize) -> (out: Vec<CommandHistory>)
        requires
            self.wf(),
        ensures
            models_of(out@) == spec_command_history(self@.invocations, limit as int),
    {
        let ghost m = self@.invocations;
        let ghost pick = success_pick(m);
        let mut idxs: Vec<usize> = Vec::new();
        let mut keys: Vec<(i64, i64)> = Vec::new();
        let mut i: usize = 0;
        while i < self.invocations.len()
            invariant
                i <= self.invocations@.len(),
                m == self@.invocations,
                as_ints(idxs@) == success_pick(m.take(i as int)),
                idxs@.len() == keys@.len(),
                forall|a: int| 0 <= a < idxs@.len() ==> #[trigger] idxs@[a] < i,
                forall|a: int|
                    0 <= a < keys@.len() ==> key_seq(keys@)[a] == (
                    m[#[trigger] idxs@[a] as int].instant, 0int),
            decreases self.invocations@.len() - i,
        {
            let ghost prefix = m.take(i as int);
            let ghost next = m.take(i as int + 1);
            proof {
                assert(next.drop_last() =~= prefix);
                assert(next.last() == m[i as int]);
            }
            if self.invocations[i].success {
                idxs.push(i);
                keys.push((self.invocations[i].timestamp.unix_millis(), 0));
                proof {
                    assert(as_ints(idxs@) =~= success_pick(next));
                }
            }
            i += 1;
        }
        proof {
            assert(m.take(m.len() as int) =~= m);
            assert forall|a: int| 0 <= a < keys@.len() implies key_seq(keys@)[a]
                == picked_history_keys(m, pick)[a] by {
                assert(pick[a] == idxs@[a] as int);
            }
            assert(key_seq(keys@) =~= picked_history_keys(m, pick));
        }
        let order = rank_desc(&keys);
        proof {
            lemma_ranked_order_props(picked_history_keys(m, pick));
        }
        let n = if limit < order.len() {
            limit
        } else {
            order.len()
        };
        let mut out: Vec<CommandHistory> = Vec::new();
        let mut r: usize = 0;
        while r < n
            invariant
                r <= n,
                n as int == spec_min(limit as int, pick.len() as int),
                m == self@.invocations,
                pick == success_pick(m),
                as_ints(order@) == ranked_order(picked_history_keys(m, pick)),
                order@.len() == pick.len(),
                as_ints(idxs@) == pick,
                forall|a: int|
                    0 <= a < idxs@.len() ==> #[trigger] idxs@[a] < self.invocations@.len(),
                forall|a: int|
                    0 <= a < pick.len() ==> 0 <= #[trigger] ranked_order(
                        picked_history_keys(m, pick),
                    )[a] < pick.len(),
                out@.len() == r,
                forall|a: int|
                    0 <= a < r ==> models_of(out@)[a] == spec_command_history(m, limit as int)[a],
            decreases n - r,
        {
            let j = order[r];
            proof {
                assert(as_ints(order@)[r as int] == j as int);
            }
            let idx = idxs[j];
            proof {
                assert(as_ints(idxs@)[j as int] == idx as int);
            }
            let row = &self.invocations[idx];
            let ghost before = out@;
            out.push(
                CommandHistory {
                    command_id: row.command_id.clone(),
                    timestamp: row.timestamp.text().clone(),
                    execution_time_ms: row.execution_time_ms,
                    success: row.success,
                },
            );
            proof {
                lemma_models_of_push(before, out@.last());
                assert(models_of(out@)[r as int] == out@.last()@);
                assert(out@.last()@ == history_out(m[idx as int]));
                assert forall|a: int| 0 <= a < r implies models_of(out@)[a] == spec_command_history(
                    m,
                    limit as int,
                )[a] by {
                    assert(models_of(out@)[a] == models_of(before)[a]);
                }
            }
            r += 1;
        }
        proof {
            assert(models_of(out@) =~= spec_command_history(m, limit as int));
        }
        out
    }

    /// The persisted patterns at or above the confidence threshold, by
    /// confidence then frequency, capped at `limit`.
    pub fn get_patterns(&self, min_confidence_ppm: i64, limit: usize) -> (out: Vec<CommandPattern>)
        requires
            self.wf(),
        ensures
            models_of(out@) == spec_get_patterns(
                self@.patterns,
                min_confidence_ppm as int,
                limit as int,
            ),
    {
        let ghost m = self@.patterns;
        let ghost pick = confidence_pick(m, min_confidence_ppm as int);
        let mut idxs: Vec<usize> = Vec::new();
        let mut keys: Vec<(i64, i64)> = Vec::new();
        let mut i: usize = 0;
        while i < self.patterns.len()
            invariant
                i <= self.patterns@.len(),
                m == self@.patterns,
                as_ints(idxs@) == confidence_pick(m.take(i as int), min_confidence_ppm as int),
                idxs@.len() == keys@.len(),
                forall|a: int| 0 <= a < idxs@.len() ==> #[trigger] idxs@[a] < i,
                forall|a: int|
                    0 <= a < keys@.len() ==> key_seq(keys@)[a] == (
                    m[#[trigger] idxs@[a] as int].confidence_ppm,
                    m[idxs@[a] as int].frequency,
                ),
            decreases self.patterns@.len() - i,
        {
            let ghost prefix = m.take(i as int);
            let ghost next = m.take(i as int + 1);
            proof {
                assert(next.drop_last() =~= prefix);
                assert(next.last() == m[i as int]);
            }
            if self.patterns[i].confidence_ppm >= min_confidence_ppm {
                idxs.push(i);
                keys.push((self.patterns[i].confidence_ppm, self.patterns[i].frequency));
                proof {
                    assert(as_ints(idxs@) =~= confidence_pick(next, min_confidence_ppm as int));
                }
            }
            i += 1;
        }
        proof {
            assert(m.take(m.len() as int) =~= m);
            assert forall|a: int| 0 <= a < keys@.len() implies key_seq(keys@)[a]
                == picked_pattern_keys(m, pick)[a] by {
                assert(pick[a] == idxs@[a] as int);
            }
            assert(key_seq(keys@) =~= picked_pattern_keys(m, pick));
        }
        let order = rank_desc(&keys);
        proof {
            lemma_ranked_order_props(picked_pattern_keys(m, pick));
        }
        let n = if limit < order.len() {
            limit
        } else {
            order.len()
        };
        let mut out: Vec<CommandPattern> = Vec::new();
        let mut r: usize = 0;
        while r < n
            invariant
                r <= n,
                n as int == spec_min(limit as int, pick.len() as int),
                m == self@.patterns,
                pick == confidence_pick(m, min_confidence_ppm as int),
                as_ints(order@) == ranked_order(picked_pattern_keys(m, pick)),
                order@.len() == pick.len(),
                as_ints(idxs@) == pick,
                forall|a: int| 0 <= a < idxs@.len() ==> #[trigger] idxs@[a] < self.patterns@.len(),
                forall|a: int|
                    0 <= a < pick.len() ==> 0 <= #[trigger] ranked_order(
                        picked_pattern_keys(m, pick),
                    )[a] < pick.len(),
                out@.len() == r,
                forall|a: int|
                    0 <= a < r ==> models_of(out@)[a] == spec_get_patterns(
                        m,
                        min_confidence_ppm as int,
                        limit as int,
                    )[a],
            decreases n - r,
        {
            let j = order[r];
            proof {
                assert(as_ints(order@)[r as int] == j as int);
            }
            let idx = idxs[j];
            proof {
                assert(as_ints(idxs@)[j as int] == idx as int);
            }
            let row = &self.patterns[idx];
            let ghost before = out@;
            out.push(duplicate_pattern(row));
            proof {
                lemma_models_of_push(before, out@.last());
                assert(models_of(out@)[r as int] == out@.last()@);
                assert(out@.last()@ == m[idx as int]);
                assert forall|a: int| 0 <= a < r implies models_of(out@)[a] == spec_get_patterns(
                    m,
                    min_confidence_ppm as int,
                    limit as int,
                )[a] by {
                    assert(models_of(out@)[a] == models_of(before)[a]);
                }
            }
            r += 1;
        }
        proof {
            assert(models_of(out@) =~= spec_get_patterns(
                m,
                min_confidence_ppm as int,
                limit as int,
            ));
        }
        out
    }
}

// ---------------------------------------------------------------------------
// Command statistics
// ---------------------------------------------------------------------------

/// The row is a successful invocation of the command.
pub open spec fn is_hit(m: InvocationModel, id: Seq<char>) -> bool {
    m.success && m.command_id == id
}

/// How many successful invocations of the command the table holds.
pub open spec fn hit_count(s: Seq<InvocationModel>, id: Seq<char>) -> int
    decreases s.len(),
{
    if s.len() == 0 {
        0
    } else {
        hit_count(s.drop_last(), id) + if is_hit(s.last(), id) {
            1int
        } else {
            0int
        }
    }
}

/// Sum of the measured execution times of the command's successful
/// invocations, in milliseconds.
pub open spec fn exec_time_sum(s: Seq<InvocationModel>, id: Seq<char>) -> int
    decreases s.len(),
{
    if s.len() == 0 {
        0
    } else {
        exec_time_sum(s.drop_last(), id) + if is_hit(s.last(), id) {
            match s.last().execution_time_ms {
                Some(v) => v,
                None => 0,
            }
        } else {
            0
        }
    }
}

/// How many of the command's successful invocations were timed.
pub open spec fn exec_time_count(s: Seq<InvocationModel>, id: Seq<char>) -> int
    decreases s.len(),
{
    if s.len() == 0 {
        0
    } else {
        exec_time_count(s.drop_last(), id) + if is_hit(s.last(), id) && s.last().execution_time_ms
            is Some {
            1int
        } else {
            0int
        }
    }
}

/// Index of the most recent successful invocation of the command (ties
/// toward the later row), or -1 when there is none.
pub open spec fn last_used_index(s: Seq<InvocationModel>, id: Seq<char>) -> int
    decreases s.len(),
{
    if s.len() == 0 {
        -1
    } else {
        let r = last_used_index(s.drop_last(), id);
        if is_hit(s.last(), id) {
            if r < 0 || s[r].instant <= s.last().instant {
                s.len() - 1
            } else {
                r
            }
        } else {
            r
        }
    }
}

/// Clamp a non-negative integer into `i64`.
pub open spec fn to_i64(x: int) -> int {
    if x > i64::MAX as int {
        i64::MAX as int
    } else {
        x
    }
}

/// Mean execution time in microseconds: the millisecond sum scaled by 1000
/// and divided by the sample count, clamped into `i64`.
pub open spec fn avg_us(sum: int, count: int) -> int {
    to_i64(sum * 1000 / count)
}

/// The aggregated statistics of one command.
pub open spec fn stat_of(s: Seq<InvocationModel>, id: Seq<char>) -> CommandStatsModel {
    CommandStatsModel {
        command_id: id,
        hit_count: to_i64(hit_count(s, id)),
        last_used: if last_used_index(s, id) >= 0 {
            s[last_used_index(s, id)].timestamp
        } else {
            Seq::<char>::empty()
        },
        avg_execution_time_us: if exec_time_count(s, id) > 0 {
            Some(avg_us(exec_time_sum(s, id), exec_time_count(s, id)))
        } else {
            None
        },
    }
}

/// The distinct ids of the successful invocations, in order of first
/// appearance.
pub open spec fn distinct_success_ids(s: Seq<InvocationModel>) -> Seq<Seq<char>>
    decreases s.len(),
{
    if s.len() == 0 {
        Seq::<Seq<char>>::empty()
    } else {
        let p = distinct_success_ids(s.drop_last());
        if s.last().success && !p.contains(s.last().command_id) {
            p.push(s.last().command_id)
        } else {
            p
        }
    }
}

/// Ranking keys of aggregated statistics: hit count.
pub open spec fn stats_keys(stats: Seq<CommandStatsModel>) -> Seq<(int, int)> {
    Seq::new(stats.len(), |i: int| (stats[i].hit_count, 0int))
}

/// The statistics of every command with a successful invocation, most used
/// first.
pub open spec fn spec_command_stats_all(s: Seq<InvocationModel>) -> Seq<CommandStatsModel> {
    let ids = distinct_success_ids(s);
    let stats = Seq::new(ids.len(), |k: int| stat_of(s, ids[k]));
    let ord = ranked_order(stats_keys(stats));
    Seq::new(stats.len(), |r: int| stats[ord[r]])
}

/// The statistics of one command: a single record, or none when it was never
/// invoked successfully.
pub open spec fn spec_command_stats_one(s: Seq<InvocationModel>, id: Seq<char>) -> Seq<
    CommandStatsModel,
> {
    if hit_count(s, id) > 0 {
        seq![stat_of(s, id)]
    } else {
        Seq::<CommandStatsModel>::empty()
    }
}

/// The distinct success ids never repeat.
proof fn lemma_distinct_ids_nodup(s: Seq<InvocationModel>)
    ensures
        forall|a: int, b: int|
            0 <= a < b < distinct_success_ids(s).len() ==> #[trigger] distinct_success_ids(
                s,
            )[a] != #[trigger] distinct_success_ids(s)[b],
    decreases s.len(),
{
    if s.len() > 0 {
        lemma_distinct_ids_nodup(s.drop_last());
        let p = distinct_success_ids(s.drop_last());
        let ids = distinct_success_ids(s);
        assert forall|a: int, b: int| 0 <= a < b < ids.len() implies #[trigger] ids[a]
            != #[trigger] ids[b] by {
            if b < p.len() {
            } else {
                assert(!p.contains(ids[b]));
                assert(p[a] == ids[a]);
            }
        }
    }
}

/// A command absent from the distinct ids has no successful invocation.
proof fn lemma_absent_id(s: Seq<InvocationModel>, id: Seq<char>)
    requires
        !distinct_success_ids(s).contains(id),
    ensures
        hit_count(s, id) == 0,
        exec_time_sum(s, id) == 0,
        exec_time_count(s, id) == 0,
        last_used_index(s, id) == -1,
    decreases s.len(),
{
    if s.len() > 0 {
        let p = distinct_success_ids(s.drop_last());
        let ids = distinct_success_ids(s);
        assert forall|v: Seq<char>| p.contains(v) implies ids.contains(v) by {
            let w = choose|w: int| 0 <= w < p.len() && p[w] == v;
            assert(ids[w] == v);
        }
        lemma_absent_id(s.drop_last(), id);
        if is_hit(s.last(), id) {
            if !p.contains(id) {
                assert(ids.last() == id);
                assert(ids.contains(id));
            }
        }
    }
}

/// An accumulator of one command's statistics during the aggregation scan.
struct StatAcc {
    command_id: String,
    hits: usize,
    last_idx: usize,
    sum_ms: u128,
    cnt: usize,
}

/// The accumulator agrees with the mathematical aggregates over the first
/// `i` rows.
spec fn acc_ok(m: Seq<InvocationModel>, i: int, a: StatAcc, id: Seq<char>) -> bool {
    &&& a.command_id@ == id
    &&& a.hits as int == hit_count(m.take(i), id)
    &&& 1 <= a.hits as int <= i
    &&& a.cnt as int == exec_time_count(m.take(i), id)
    &&& a.cnt <= a.hits
    &&& a.sum_ms as int == exec_time_sum(m.take(i), id)
    &&& a.sum_ms as int <= a.cnt as int * (i64::MAX as int)
    &&& a.last_idx as int == last_used_index(m.take(i), id)
    &&& a.last_idx < i
}

impl CommandPaletteDb {
    /// Aggregate the statistics of every command with a successful
    /// invocation, most used first.
    fn stats_all(&self) -> (out: Vec<CommandStats>)
        requires
            self.wf(),
        ensures
            models_of(out@) == spec_command_stats_all(self@.invocations),
    {
        let ghost m = self@.invocations;
        let mut accs: Vec<StatAcc> = Vec::new();
        let mut i: usize = 0;
        while i < self.invocations.len()
            invariant
                i <= self.invocations@.len(),
                m == self@.invocations,
                invocations_wf(m),
                accs@.len() == distinct_success_ids(m.take(i as int)).len(),
                forall|k: int|
                    0 <= k < accs@.len() ==> acc_ok(
                        m,
                        i as int,
                        #[trigger] accs@[k],
                        distinct_success_ids(m.take(i as int))[k],
                    ),
            decreases self.invocations@.len() - i,
        {
            let ghost prefix = m.take(i as int);
            let ghost next = m.take(i as int + 1);
            let ghost ids = distinct_success_ids(prefix);
            proof {
                assert(next.drop_last() =~= prefix);
                assert(next.last() == m[i as int]);
                lemma_distinct_ids_nodup(prefix);
            }
            let row = &self.invocations[i];
            if row.success {
                let ghost row_id = m[i as int].command_id;
                let hit = find_acc(&accs, &row.command_id);
                if let Some(k) = hit {
                    proof {
                        assert(acc_ok(m, i as int, accs@[k as int], ids[k as int]));
                        assert(ids[k as int] == row_id);
                        assert(ids.contains(row_id));
                        assert(distinct_success_ids(next) == ids);
                    }
                    let hits2 = accs[k].hits + 1;
                    let (sum2, cnt2): (u128, usize) = match row.execution_time_ms {
                        Some(v) => {
                            proof {
                                assert(invocation_wf(m[i as int]));
                            }
                            (accs[k].sum_ms + (v as u128), accs[k].cnt + 1)
                        },
                        None => (accs[k].sum_ms, accs[k].cnt),
                    };
                    let last2 = if self.invocations[accs[k].last_idx].timestamp.unix_millis()
                        <= row.timestamp.unix_millis() {
                        i
                    } else {
                        accs[k].last_idx
                    };
                    let id_keep = accs[k].command_id.clone();
                    accs[k] = StatAcc {
                        command_id: id_keep,
                        hits: hits2,
                        last_idx: last2,
                        sum_ms: sum2,
                        cnt: cnt2,
                    };
                    proof {
                        assert forall|kk: int| 0 <= kk < accs@.len() implies acc_ok(
                            m,
                            i as int + 1,
                            #[trigger] accs@[kk],
                            distinct_success_ids(next)[kk],
                        ) by {
                            if kk != k as int {
                                assert(ids[kk] != row_id);
                                assert(acc_ok(m, i as int, accs@[kk], ids[kk]));
                            }
                        }
                    }
                } else {
                    proof {
                        assert forall|v: Seq<char>| ids.contains(v) implies v != row_id by {
                            let w = choose|w: int| 0 <= w < ids.len() && ids[w] == v;
                            assert(accs@[w].command_id@ == ids[w]);
                        }
                        assert(!ids.contains(row_id));
                        assert(distinct_success_ids(next) == ids.push(row_id));
                        lemma_absent_id(prefix, row_id);
                    }
                    let (sum0, cnt0): (u128, usize) = match row.execution_time_ms {
                        Some(v) => {
                            proof {
                                assert(invocation_wf(m[i as int]));
                            }
                            (v as u128, 1)
                        },
                        None => (0, 0),
                    };
                    accs.push(
                        StatAcc {
                            command_id: row.command_id.clone(),
                            hits: 1,
                            last_idx: i,
                            sum_ms: sum0,
                            cnt: cnt0,
                        },
                    );
                    proof {
                        assert forall|kk: int| 0 <= kk < accs@.len() implies acc_ok(
                            m,
                            i as int + 1,
                            #[trigger] accs@[kk],
                            distinct_success_ids(next)[kk],
                        ) by {
                            if kk < accs@.len() - 1 {
                                assert(ids[kk] != row_id);
                                assert(acc_ok(m, i as int, accs@[kk], ids[kk]));
                            } else {
                                assert(accs@[kk] == accs@.last());
                            }
                        }
                    }
                }
            } else {
                proof {
                    assert(distinct_success_ids(next) == ids);
                    assert forall|kk: int| 0 <= kk < accs@.len() implies acc_ok(
                        m,
                        i as int + 1,
                        #[trigger] accs@[kk],
                        distinct_success_ids(next)[kk],
                    ) by {
                        assert(acc_ok(m, i as int, accs@[kk], ids[kk]));
                    }
                }
            }
            i += 1;
        }
        proof {
            assert(m.take(m.len() as int) =~= m);
        }
        let ghost ids = distinct_success_ids(m);
        let ghost stats_spec = Seq::new(ids.len(), |k: int| stat_of(m, ids[k]));
        // Finalize the accumulators into statistics records.
        let mut stats: Vec<CommandStats> = Vec::new();
        let mut keys: Vec<(i64, i64)> = Vec::new();
        let mut k: usize = 0;
        while k < accs.len()
            invariant
                k <= accs@.len(),
                m == self@.invocations,
                accs@.len() == ids.len(),
                ids == distinct_success_ids(m),
                stats_spec == Seq::new(ids.len(), |k: int| stat_of(m, ids[k])),
                forall|kk: int|
                    0 <= kk < accs@.len() ==> acc_ok(
                        m,
                        m.len() as int,
                        #[trigger] accs@[kk],
                        ids[kk],
                    ),
                stats@.len() == k,
                keys@.len() == k,
                forall|a: int| 0 <= a < k ==> models_of(stats@)[a] == stats_spec[a],
                forall|a: int| 0 <= a < k ==> key_seq(keys@)[a] == stats_keys(stats_spec)[a],
            decreases accs@.len() - k,
        {
            proof {
                assert(acc_ok(m, m.len() as int, accs@[k as int], ids[k as int]));
                assert(m.take(m.len() as int) =~= m);
            }
            let acc = &accs[k];
            let hit_i64: i64 = if acc.hits as u64 > i64::MAX as u64 {
                i64::MAX
            } else {
                acc.hits as i64
            };
            let avg: Option<i64> = if acc.cnt > 0 {
                let q: u128 = acc.sum_ms / (acc.cnt as u128);
                let rem: u128 = acc.sum_ms % (acc.cnt as u128);
                proof {
                    assert(q <= i64::MAX as u128) by (nonlinear_arith)
                        requires
                            acc.sum_ms as int <= acc.cnt as int * (i64::MAX as int),
                            acc.cnt > 0,
                            q == acc.sum_ms as int / acc.cnt as int,
                    ;
                    assert(rem < acc.cnt as u128);
                    assert(q as int * 1000 + rem as int * 1000 / acc.cnt as int == acc.sum_ms as int
                        * 1000 / acc.cnt as int) by (nonlinear_arith)
                        requires
                            acc.cnt > 0,
                            q == acc.sum_ms as int / acc.cnt as int,
                            rem == acc.sum_ms as int % acc.cnt as int,
                    ;
                }
                let val: u128 = q * 1000 + rem * 1000 / (acc.cnt as u128);
                Some(
                    if val > i64::MAX as u128 {
                        i64::MAX
                    } else {
                        val as i64
                    },
                )
            } else {
                None
            };
            let ghost before = stats@;
            stats.push(
                CommandStats {
                    command_id: acc.command_id.clone(),
                    hit_count: hit_i64,
                    last_used: self.invocations[acc.last_idx].timestamp.text().clone(),
                    avg_execution_time_us: avg,
                },
            );
            keys.push((hit_i64, 0));
            proof {
                lemma_models_of_push(before, stats@.last());
                assert(models_of(stats@)[k as int] == stats@.last()@);
                assert(stats@.last()@ == stat_of(m, ids[k as int]));
                assert forall|a: int| 0 <= a < k implies models_of(stats@)[a] == stats_spec[a] by {
                    assert(models_of(stats@)[a] == models_of(before)[a]);
                }
            }
            k += 1;
        }
        proof {
            assert(models_of(stats@) =~= stats_spec);
            assert(key_seq(keys@) =~= stats_keys(stats_spec));
        }
        let order = rank_desc(&keys);
        proof {
            lemma_ranked_order_props(stats_keys(stats_spec));
        }
        let mut out: Vec<CommandStats> = Vec::new();
        let mut r: usize = 0;
        while r < stats.len()
            invariant
                r <= stats@.len(),
                m == self@.invocations,
                models_of(stats@) == stats_spec,
                stats_spec == Seq::new(
                    distinct_success_ids(m).len(),
                    |k: int| stat_of(m, distinct_success_ids(m)[k]),
                ),
                as_ints(order@) == ranked_order(stats_keys(stats_spec)),
                order@.len() == stats@.len(),
                forall|a: int|
                    0 <= a < stats_spec.len() ==> 0 <= #[trigger] ranked_order(
                        stats_keys(stats_spec),
                    )[a] < stats_spec.len(),
                out@.len() == r,
                forall|a: int|
                    0 <= a < r ==> models_of(out@)[a] == spec_command_stats_all(m)[a],
            decreases stats@.len() - r,
        {
            let j = order[r];
            proof {
                assert(as_ints(order@)[r as int] == j as int);
            }
            let ghost before = out@;
            out.push(duplicate_stats(&stats[j]));
            proof {
                lemma_models_of_push(before, out@.last());
                assert(models_of(out@)[r as int] == out@.last()@);
                assert(out@.last()@ == stats_spec[j as int]);
                assert forall|a: int| 0 <= a < r implies models_of(out@)[a]
                    == spec_command_stats_all(m)[a] by {
                    assert(models_of(out@)[a] == models_of(before)[a]);
                }
            }
            r += 1;
        }
        proof {
            assert(models_of(out@) =~= spec_command_stats_all(m));
        }
        out
    }

    /// The statistics of one command, or of every command (most used first)
    /// when none is named.
    pub fn get_command_stats(&self, command_id: Option<&str>) -> (out: Vec<CommandStats>)
        requires
            self.wf(),
        ensures
            (match command_id {
                Some(id) => models_of(out@) == spec_command_stats_one(self@.invocations, id@),
                None => models_of(out@) == spec_command_stats_all(self@.invocations),
            }),
    {
        match command_id {
            None => self.stats_all(),
            Some(id) => {
                let ghost m = self@.invocations;
                let id_o = id.to_owned();
                let mut hits: usize = 0;
                let mut cnt: usize = 0;
                let mut sum_ms: u128 = 0;
                let mut last_idx: usize = 0;
                let mut i: usize = 0;
                while i < self.invocations.len()
                    invariant
                        i <= self.invocations@.len(),
                        m == self@.invocations,
                        invocations_wf(m),
                        id_o@ == id@,
                        hits as int == hit_count(m.take(i as int), id@),
                        hits <= i,
                        cnt as int == exec_time_count(m.take(i as int), id@),
                        cnt <= hits,
                        sum_ms as int == exec_time_sum(m.take(i as int), id@),
                        sum_ms as int <= cnt as int * (i64::MAX as int),
                        hits > 0 ==> last_idx as int == last_used_index(m.take(i as int), id@)
                            && last_idx < i,
                        hits == 0 ==> last_used_index(m.take(i as int), id@) == -1,
                    decreases self.invocations@.len() - i,
                {
                    let ghost prefix = m.take(i as int);
                    let ghost next = m.take(i as int + 1);
                    proof {
                        assert(next.drop_last() =~= prefix);
                        assert(next.last() == m[i as int]);
                    }
                    let row = &self.invocations[i];
                    if row.success && row.command_id == id_o {
                        proof {
                            assert(invocation_wf(m[i as int]));
                        }
                        if hits == 0 {
                            last_idx = i;
                        } else if self.invocations[last_idx].timestamp.unix_millis()
                            <= row.timestamp.unix_millis() {
                            last_idx = i;
                        }
                        hits = hits + 1;
                        match row.execution_time_ms {
                            Some(v) => {
                                sum_ms = sum_ms + (v as u128);
                                cnt = cnt + 1;
                            },
                            None => {},
                        }
                    }
                    i += 1;
                }
                proof {
                    assert(m.take(m.len() as int) =~= m);
                }
                let mut out: Vec<CommandStats> = Vec::new();
                if hits > 0 {
                    let hit_i64: i64 = if hits as u64 > i64::MAX as u64 {
                        i64::MAX
                    } else {
                        hits as i64
                    };
                    let avg: Option<i64> = if cnt > 0 {
                        let q: u128 = sum_ms / (cnt as u128);
                        let rem: u128 = sum_ms % (cnt as u128);
                        proof {
                            assert(q <= i64::MAX as u128) by (nonlinear_arith)
                                requires
                                    sum_ms as int <= cnt as int * (i64::MAX as int),
                                    cnt > 0,
                                    q == sum_ms as int / cnt as int,
                            ;
                            assert(rem < cnt as u128);
                            assert(q as int * 1000 + rem as int * 1000 / cnt as int == sum_ms as int
                                * 1000 / cnt as int) by (nonlinear_arith)
                                requires
                                    cnt > 0,
                                    q == sum_ms as int / cnt as int,
                                    rem == sum_ms as int % cnt as int,
                            ;
                        }
                        let val: u128 = q * 1000 + rem * 1000 / (cnt as u128);
                        Some(
                            if val > i64::MAX as u128 {
                                i64::MAX
                            } else {
                                val as i64
                            },
                        )
                    } else {
                        None
                    };
                    out.push(
                        CommandStats {
                            command_id: id_o,
                            hit_count: hit_i64,
                            last_used: self.invocations[last_idx].timestamp.text().clone(),
                            avg_execution_time_us: avg,
                        },
                    );
                    proof {
                        assert(models_of(out@) =~= spec_command_stats_one(m, id@));
                    }
                } else {
                    proof {
                        assert(models_of(out@) =~= spec_command_stats_one(m, id@));
                    }
                }
                out
            },
        }
    }

    /// The most used commands, capped at `limit`.
    pub fn get_top_commands(&self, limit: usize) -> (out: Vec<CommandStats>)
        requires
            self.wf(),
        ensures
            models_of(out@) == spec_command_stats_all(self@.invocations).take(
                spec_min(limit as int, spec_command_stats_all(self@.invocations).len() as int),
            ),
    {
        let mut out = self.stats_all();
        let ghost full = models_of(out@);
        out.truncate(limit);
        proof {
            if limit < full.len() {
                assert(models_of(out@) =~= full.take(limit as int));
            } else {
                assert(models_of(out@) =~= full.take(full.len() as int));
                assert(full.take(full.len() as int) =~= full);
            }
        }
        out
    }
}

// ---------------------------------------------------------------------------
// Suggestions
// ---------------------------------------------------------------------------

/// Keys ordering patterns by confidence for the suggestion scan.
pub open spec fn pattern_conf_keys(s: Seq<CommandPatternModel>) -> Seq<(int, int)> {
    Seq::new(s.len(), |i: int| (s[i].confidence_ppm, 0int))
}

/// The last `w` of the caller's commands equal the first `w` of the
/// pattern's sequence.
pub open spec fn window_matches(seqn: Seq<Seq<char>>, last: Seq<Seq<char>>, w: int) -> bool {
    forall|k: int| 0 <= k < w ==> seqn[k] == last[last.len() - w + k]
}

/// Some suggestion already proposes this command.
pub open spec fn has_candidate(acc: Seq<PatternSuggestionModel>, cmd: Seq<char>) -> bool {
    exists|i: int| 0 <= i < acc.len() && acc[i].next_command == cmd
}

/// The candidates pattern `p` contributes for window widths `1 ..= w_max`:
/// wherever the caller's trailing commands equal the pattern's leading ones,
/// the pattern's next command, kept once per distinct command.
pub open spec fn add_candidates(
    acc: Seq<PatternSuggestionModel>,
    p: CommandPatternModel,
    last: Seq<Seq<char>>,
    w_max: int,
) -> Seq<PatternSuggestionModel>
    decreases w_max,
{
    if w_max < 1 {
        acc
    } else {
        let acc1 = add_candidates(acc, p, last, w_max - 1);
        if window_matches(p.command_sequence, last, w_max) && !has_candidate(
            acc1,
            p.command_sequence[w_max],
        ) {
            acc1.push(
                PatternSuggestionModel {
                    next_command: p.command_sequence[w_max],
                    confidence_ppm: p.confidence_ppm,
                    pattern_frequency: p.frequency,
                    context: p.pattern_id,
                },
            )
        } else {
            acc1
        }
    }
}

/// The widest window a pattern can be matched against.
pub open spec fn pattern_w_max(p: CommandPatternModel, last: Seq<Seq<char>>) -> int {
    spec_min(last.len() as int, p.command_sequence.len() as int - 1)
}

/// Fold the first `r` patterns of the confidence-ranked order into the
/// candidate list.
pub open spec fn suggest_fold(
    s: Seq<CommandPatternModel>,
    ord: Seq<int>,
    r: int,
    last: Seq<Seq<char>>,
) -> Seq<PatternSuggestionModel>
    decreases r,
{
    if r <= 0 {
        Seq::<PatternSuggestionModel>::empty()
    } else {
        let p = s[ord[r - 1]];
        add_candidates(suggest_fold(s, ord, r - 1, last), p, last, pattern_w_max(p, last))
    }
}

/// The next-command suggestions for the caller's recent commands, best
/// confidence first, capped at `limit`.
pub open spec fn spec_pattern_suggestions(
    s: Seq<CommandPatternModel>,
    last: Seq<Seq<char>>,
    limit: int,
) -> Seq<PatternSuggestionModel> {
    let full = suggest_fold(s, ranked_order(pattern_conf_keys(s)), s.len() as int, last);
    full.take(spec_min(limit, full.len() as int))
}

impl CommandPaletteDb {
    /// Predict the next command from the caller's recent commands
    /// (chronological, most recent last), best confidence first, capped at
    /// `limit`.
    pub fn get_pattern_suggestions(&self, last_commands: Vec<String>, limit: usize) -> (out: Vec<
        PatternSuggestion,
    >)
        requires
            self.wf(),
        ensures
            models_of(out@) == spec_pattern_suggestions(
                self@.patterns,
                last_commands.deep_view(),
                limit as int,
            ),
    {
        let ghost m = self@.patterns;
        let ghost lastv = last_commands.deep_view();
        let mut keys: Vec<(i64, i64)> = Vec::new();
        let mut i: usize = 0;
        while i < self.patterns.len()
            invariant
                i <= self.patterns@.len(),
                m == self@.patterns,
                keys@.len() == i,
                forall|a: int| 0 <= a < i ==> key_seq(keys@)[a] == pattern_conf_keys(m)[a],
            decreases self.patterns@.len() - i,
        {
            keys.push((self.patterns[i].confidence_ppm, 0));
            i += 1;
        }
        proof {
            assert(key_seq(keys@) =~= pattern_conf_keys(m));
        }
        let order = rank_desc(&keys);
        let ghost ord = ranked_order(pattern_conf_keys(m));
        proof {
            lemma_ranked_order_props(pattern_conf_keys(m));
        }
        let mut out: Vec<PatternSuggestion> = Vec::new();
        let mut r: usize = 0;
        while r < order.len()
            invariant
                r <= order@.len(),
                m == self@.patterns,
                lastv == last_commands.deep_view(),
                as_ints(order@) == ord,
                ord == ranked_order(pattern_conf_keys(m)),
                order@.len() == m.len(),
                forall|a: int| 0 <= a < m.len() ==> 0 <= #[trigger] ord[a] < m.len(),
                models_of(out@) == suggest_fold(m, ord, r as int, lastv),
            decreases order@.len() - r,
        {
            let idx = order[r];
            proof {
                assert(as_ints(order@)[r as int] == idx as int);
            }
            let p = &self.patterns[idx];
            let ghost pm = m[idx as int];
            let ghost base = models_of(out@);
            let w_bound: usize = if p.command_sequence.len() >= 1 {
                if last_commands.len() < p.command_sequence.len() - 1 {
                    last_commands.len()
                } else {
                    p.command_sequence.len() - 1
                }
            } else {
                0
            };
            proof {
                assert(pm.command_sequence == p.command_sequence.deep_view());
                if p.command_sequence.len() >= 1 {
                    assert(w_bound as int == pattern_w_max(pm, lastv));
                } else {
                    assert(pattern_w_max(pm, lastv) < 1);
                    assert(add_candidates(base, pm, lastv, pattern_w_max(pm, lastv)) == base);
                    assert(add_candidates(base, pm, lastv, w_bound as int) == base);
                }
            }
            let mut w: usize = 1;
            while w <= w_bound
                invariant
                    1 <= w <= w_bound + 1,
                    w_bound < usize::MAX,
                    w_bound <= last_commands@.len(),
                    p == &self.patterns[idx as int],
                    idx < self.patterns@.len(),
                    w_bound as int <= pm.command_sequence.len(),
                    w_bound >= 1 ==> w_bound as int <= pm.command_sequence.len() - 1,
                    m == self@.patterns,
                    lastv == last_commands.deep_view(),
                    pm == m[idx as int],
                    models_of(out@) == add_candidates(base, pm, lastv, w as int - 1),
                decreases w_bound + 1 - w,
            {
                let is_match = window_matches_exec(&p.command_sequence, &last_commands, w);
                if is_match {
                    let cand = &p.command_sequence[w];
                    proof {
                        assert(cand@ == pm.command_sequence[w as int]);
                    }
                    let present = has_candidate_exec(&out, cand);
                    if !present {
                        let ghost before = out@;
                        out.push(
                            PatternSuggestion {
                                next_command: cand.clone(),
                                confidence_ppm: p.confidence_ppm,
                                pattern_frequency: p.frequency,
                                context: p.pattern_id.clone(),
                            },
                        );
                        proof {
                            lemma_models_of_push(before, out@.last());
                            assert(models_of(out@) =~= models_of(before).push(out@.last()@));
                        }
                    }
                }
                w += 1;
            }
            proof {
                assert(models_of(out@) == add_candidates(base, pm, lastv, w_bound as int));
                assert(models_of(out@) == suggest_fold(m, ord, r as int + 1, lastv));
            }
            r += 1;
        }
        let ghost full = suggest_fold(m, ord, m.len() as int, lastv);
        out.truncate(limit);
        proof {
            if limit < full.len() {
                assert(models_of(out@) =~= full.take(limit as int));
            } else {
                assert(models_of(out@) =~= full.take(full.len() as int));
                assert(full.take(full.len() as int) =~= full);
            }
        }
        out
    }
}

/// Decide whether the last `w` caller commands equal the pattern's first
/// `w`.
fn window_matches_exec(seqn: &Vec<String>, last: &Vec<String>, w: usize) -> (r: bool)
    requires
        w <= last@.len(),
        w <= seqn@.len(),
    ensures
        r == window_matches(seqn.deep_view(), last.deep_view(), w as int),
{
    let mut k: usize = 0;
    while k < w
        invariant
            k <= w,
            w <= last@.len(),
            w <= seqn@.len(),
            forall|q: int|
                0 <= q < k ==> seqn.deep_view()[q] == last.deep_view()[last@.len() - w + q],
        decreases w - k,
    {
        if !(seqn[k] == last[last.len() - w + k]) {
            proof {
                assert(seqn.deep_view()[k as int] != last.deep_view()[last@.len() - w + k]);
            }
            return false;
        }
        proof {
            assert(seqn.deep_view()[k as int] == last.deep_view()[last@.len() - w + k]);
        }
        k += 1;
    }
    true
}

/// Decide whether a command is already suggested.
fn has_candidate_exec(out: &Vec<PatternSuggestion>, cmd: &String) -> (r: bool)
    ensures
        r == has_candidate(models_of(out@), cmd@),
{
    let mut i: usize = 0;
    while i < out.len()
        invariant
            i <= out@.len(),
            forall|q: int| 0 <= q < i ==> (#[trigger] models_of(out@)[q]).next_command != cmd@,
        decreases out@.len() - i,
    {
        if out[i].next_command == *cmd {
            proof {
                assert(models_of(out@)[i as int].next_command == cmd@);
            }
            return true;
        }
        i += 1;
    }
    false
}

/// Find the accumulator of a command id.
fn find_acc(accs: &Vec<StatAcc>, id: &String) -> (r: Option<usize>)
    ensures
        (match r {
            Some(k) => k < accs@.len() && accs@[k as int].command_id@ == id@,
            None => forall|q: int| 0 <= q < accs@.len() ==> (#[trigger] accs@[q]).command_id@ != id@,
        }),
{
    let mut k: usize = 0;
    while k < accs.len()
        invariant
            k <= accs@.len(),
            forall|q: int| 0 <= q < k ==> (#[trigger] accs@[q]).command_id@ != id@,
        decreases accs@.len() - k,
    {
        if accs[k].command_id == *id {
            return Some(k);
        }
        k += 1;
    }
    None
}

/// Duplicate a statistics record.
fn duplicate_stats(s: &CommandStats) -> (r: CommandStats)
    ensures
        r == *s,
{
    CommandStats {
        command_id: s.command_id.clone(),
        hit_count: s.hit_count,
        last_used: s.last_used.clone(),
        avg_execution_time_us: s.avg_execution_time_us,
    }
}

/// Pick the resource rows passing the filter, with their ranking keys: by
/// recency, or by count then recency.
fn pick_resources(rows: &Vec<ResourceRow>, kind_filter: Option<&str>, by_count: bool) -> (r: (
    Vec<usize>,
    Vec<(i64, i64)>,
))
    ensures
        as_ints(r.0@) == resource_pick(models_of(rows@), opt_text_model(kind_filter)),
        r.0@.len() == r.1@.len(),
        forall|a: int| 0 <= a < r.0@.len() ==> #[trigger] r.0@[a] < rows@.len(),
        key_seq(r.1@) == if by_count {
            picked_top_keys(
                models_of(rows@),
                resource_pick(models_of(rows@), opt_text_model(kind_filter)),
            )
        } else {
            picked_recent_keys(
                models_of(rows@),
                resource_pick(models_of(rows@), opt_text_model(kind_filter)),
            )
        },
{
    let ghost m = models_of(rows@);
    let ghost filt = opt_text_model(kind_filter);
    let filter_owned: Option<String> = opt_to_string(kind_filter);
    let mut idxs: Vec<usize> = Vec::new();
    let mut keys: Vec<(i64, i64)> = Vec::new();
    let mut i: usize = 0;
    while i < rows.len()
        invariant
            i <= rows@.len(),
            m == models_of(rows@),
            opt_string_model(filter_owned) == filt,
            as_ints(idxs@) == resource_pick(m.take(i as int), filt),
            idxs@.len() == keys@.len(),
            forall|a: int| 0 <= a < idxs@.len() ==> #[trigger] idxs@[a] < i,
            forall|a: int|
                0 <= a < keys@.len() ==> key_seq(keys@)[a] == if by_count {
                    (m[#[trigger] idxs@[a] as int].access_count, m[idxs@[a] as int].instant)
                } else {
                    (m[#[trigger] idxs@[a] as int].instant, 0int)
                },
        decreases rows@.len() - i,
    {
        let ghost prefix = m.take(i as int);
        let ghost next = m.take(i as int + 1);
        proof {
            assert(next.drop_last() =~= prefix);
            assert(next.last() == m[i as int]);
        }
        let row = &rows[i];
        let hit = match &filter_owned {
            Some(k) => row.kind == *k,
            None => true,
        };
        if hit {
            idxs.push(i);
            if by_count {
                keys.push((row.access_count, row.timestamp.unix_millis()));
            } else {
                keys.push((row.timestamp.unix_millis(), 0));
            }
            proof {
                assert(as_ints(idxs@) =~= resource_pick(next, filt));
            }
        }
        i += 1;
    }
    proof {
        assert(m.take(m.len() as int) =~= m);
        let pick = resource_pick(m, filt);
        if by_count {
            assert forall|a: int| 0 <= a < keys@.len() implies key_seq(keys@)[a]
                == picked_top_keys(m, pick)[a] by {
                assert(pick[a] == idxs@[a] as int);
            }
            assert(key_seq(keys@) =~= picked_top_keys(m, pick));
        } else {
            assert forall|a: int| 0 <= a < keys@.len() implies key_seq(keys@)[a]
                == picked_recent_keys(m, pick)[a] by {
                assert(pick[a] == idxs@[a] as int);
            }
            assert(key_seq(keys@) =~= picked_recent_keys(m, pick));
        }
    }
    (idxs, keys)
}

/// Duplicate a pattern row.
fn duplicate_pattern(row: &CommandPattern) -> (r: CommandPattern)
    ensures
        r@ == (*row)@,
{
    let r = CommandPattern {
        pattern_id: row.pattern_id.clone(),
        command_sequence: clone_strings(&row.command_sequence),
        frequency: row.frequency,
        confidence_ppm: row.confidence_ppm,
        last_seen: row.last_seen.clone(),
        avg_time_between_commands_ms: row.avg_time_between_commands_ms,
    };
    proof {
        assert(r.command_sequence.deep_view() =~= row.command_sequence.deep_view());
    }
    r
}

/// Duplicate an invocation row.
fn duplicate_invocation(row: &InvocationRow) -> (r: InvocationRow)
    ensures
        r == *row,
{
    InvocationRow {
        command_id: row.command_id.clone(),
        timestamp: row.timestamp.duplicate(),
        execution_time_ms: row.execution_time_ms,
        success: row.success,
        error_message: opt_string_clone(&row.error_message),
        context: opt_string_clone(&row.context),
    }
}

/// Clone an optional owned string.
fn opt_string_clone(o: &Option<String>) -> (r: Option<String>)
    ensures
        r == *o,
{
    match o {
        Some(s) => Some(s.clone()),
        None => None,
    }
}

/// Compare an optional owned string with an optional owned string.
fn opt_string_eq(a: &Option<String>, b: &Option<String>) -> (r: bool)
    ensures
        r == (opt_string_model(*a) == opt_string_model(*b)),
{
    match (a, b) {
        (Some(x), Some(y)) => *x == *y,
        (None, None) => true,
        _ => false,
    }
}

/// Mathematical image of an optional owned string.
pub open spec fn opt_string_model(o: Option<String>) -> Option<Seq<char>> {
    match o {
        Some(s) => Some(s@),
        None => None,
    }
}

/// Find the first resource row carrying the key.
fn find_resource_exec(
    rows: &Vec<ResourceRow>,
    kind: &String,
    name: &String,
    namespace: &Option<String>,
    context: &Option<String>,
) -> (r: Option<usize>)
    ensures
        (match r {
            Some(i) => i < rows@.len() && find_resource(
                models_of(rows@),
                kind@,
                name@,
                opt_string_model(*namespace),
                opt_string_model(*context),
            ) == i as int,
            None => find_resource(
                models_of(rows@),
                kind@,
                name@,
                opt_string_model(*namespace),
                opt_string_model(*context),
            ) == -1,
        }),
{
    let ghost m = models_of(rows@);
    let mut i: usize = 0;
    while i < rows.len()
        invariant
            i <= rows@.len(),
            m == models_of(rows@),
            forall|q: int|
                0 <= q < i ==> !resource_key_is(
                    #[trigger] m[q],
                    kind@,
                    name@,
                    opt_string_model(*namespace),
                    opt_string_model(*context),
                ),
        decreases rows@.len() - i,
    {
        let row = &rows[i];
        let hit = row.kind == *kind && row.name == *name && opt_string_eq(&row.namespace, namespace)
            && opt_string_eq(&row.context, context);
        if hit {
            proof {
                lemma_find_resource_at(
                    m,
                    kind@,
                    name@,
                    opt_string_model(*namespace),
                    opt_string_model(*context),
                    i as int,
                );
            }
            return Some(i);
        }
        i += 1;
    }
    proof {
        lemma_find_resource_none(
            m,
            kind@,
            name@,
            opt_string_model(*namespace),
            opt_string_model(*context),
        );
    }
    None
}

/// A first match at `i` makes `find_resource` return `i`.
proof fn lemma_find_resource_at(
    s: Seq<ResourceModel>,
    kind: Seq<char>,
    name: Seq<char>,
    namespace: Option<Seq<char>>,
    context: Option<Seq<char>>,
    i: int,
)
    requires
        0 <= i < s.len(),
        resource_key_is(s[i], kind, name, namespace, context),
        forall|q: int| 0 <= q < i ==> !resource_key_is(#[trigger] s[q], kind, name, namespace, context),
    ensures
        find_resource(s, kind, name, namespace, context) == i,
    decreases s.len(),
{
    if i > 0 {
        let rest = s.drop_first();
        assert(forall|q: int| 0 <= q < rest.len() ==> #[trigger] rest[q] == s[q + 1]);
        lemma_find_resource_at(rest, kind, name, namespace, context, i - 1);
    }
}

/// No match anywhere makes `find_resource` return -1.
proof fn lemma_find_resource_none(
    s: Seq<ResourceModel>,
    kind: Seq<char>,
    name: Seq<char>,
    namespace: Option<Seq<char>>,
    context: Option<Seq<char>>,
)
    requires
        forall|q: int|
            0 <= q < s.len() ==> !resource_key_is(#[trigger] s[q], kind, name, namespace, context),
    ensures
        find_resource(s, kind, name, namespace, context) == -1,
    decreases s.len(),
{
    if s.len() > 0 {
        let rest = s.drop_first();
        assert(forall|q: int| 0 <= q < rest.len() ==> #[trigger] rest[q] == s[q + 1]);
        lemma_find_resource_none(rest, kind, name, namespace, context);
    }
}

/// Find the first index holding the minimal instant of a non-empty resource
/// table.
fn oldest_resource_exec(rows: &Vec<ResourceRow>) -> (victim: usize)
    requires
        rows@.len() >= 1,
    ensures
        victim as int == oldest_resource(models_of(rows@)),
        victim < rows@.len(),
{
    let ghost m = models_of(rows@);
    let mut best: usize = 0;
    let mut i: usize = 1;
    while i < rows.len()
        invariant
            1 <= i <= rows@.len(),
            best < i,
            m == models_of(rows@),
            best as int == oldest_resource(m.take(i as int)),
        decreases rows@.len() - i,
    {
        proof {
            assert(m.take(i as int + 1).drop_last() =~= m.take(i as int));
            assert(m.take(i as int + 1).last() == m[i as int]);
        }
        if rows[i].timestamp.unix_millis() < rows[best].timestamp.unix_millis() {
            best = i;
        }
        i += 1;
    }
    proof {
        assert(m.take(rows@.len() as int) =~= m);
    }
    best
}

/// Mathematical image of an optional borrowed string.
pub open spec fn opt_text_model(o: Option<&str>) -> Option<Seq<char>> {
    match o {
        Some(s) => Some(s@),
        None => None,
    }
}

/// Turn an optional borrowed string into an owned one.
fn opt_to_string(o: Option<&str>) -> (r: Option<String>)
    ensures
        (match r {
            Some(ref s) => opt_text_model(o) == Some(s@),
            None => opt_text_model(o) is None,
        }),
{
    match o {
        Some(s) => Some(s.to_owned()),
        None => None,
    }
}

/// Find the first index holding the minimal instant of a non-empty query
/// table.
fn oldest_query_exec(rows: &Vec<QueryRow>) -> (victim: usize)
    requires
        rows@.len() >= 1,
    ensures
        victim as int == oldest_query(models_of(rows@)),
        victim < rows@.len(),
{
    let ghost m = models_of(rows@);
    let mut best: usize = 0;
    let mut i: usize = 1;
    while i < rows.len()
        invariant
            1 <= i <= rows@.len(),
            best < i,
            m == models_of(rows@),
            best as int == oldest_query(m.take(i as int)),
        decreases rows@.len() - i,
    {
        proof {
            assert(m.take(i as int + 1).drop_last() =~= m.take(i as int));
            assert(m.take(i as int + 1).last() == m[i as int]);
        }
        if rows[i].timestamp.unix_millis() < rows[best].timestamp.unix_millis() {
            best = i;
        }
        i += 1;
    }
    proof {
        assert(m.take(rows@.len() as int) =~= m);
    }
    best
}

} // verus!
