//! Crate-level laws: properties that relate several operations of the
//! store, stated and proved over the same specifications that the
//! operations' contracts use.

use vstd::prelude::*;

use crate::order::{comes_before, lemma_ranked_order_props, ranked_order};
use crate::store::{
    add_candidates, confidence_pick, find_pattern, lemma_find_pattern, lemma_oldest_query_props,
    oldest_query, pattern_conf_keys, pattern_w_max, picked_pattern_keys, spec_get_patterns,
    spec_min, spec_pattern_suggestions, store_pattern, suggest_fold, trim_queries,
};
use crate::types::{CommandPatternModel, PatternSuggestionModel, QueryModel};
use crate::RETENTION_CAP;

verus! {

/// The picked indices of the pattern table are in range and point at rows at
/// or above the threshold.
proof fn lemma_confidence_pick_range(s: Seq<CommandPatternModel>, min_ppm: int)
    ensures
        forall|k: int|
            0 <= k < confidence_pick(s, min_ppm).len() ==> {
                let i = #[trigger] confidence_pick(s, min_ppm)[k];
                0 <= i < s.len() && s[i].confidence_ppm >= min_ppm
            },
    decreases s.len(),
{
    if s.len() > 0 {
        lemma_confidence_pick_range(s.drop_last(), min_ppm);
        let p = confidence_pick(s.drop_last(), min_ppm);
        assert(forall|k: int| 0 <= k < p.len() ==> s.drop_last()[#[trigger] p[k]] == s[p[k]]);
    }
}

/// Everything `get_patterns` reports is a row of the pattern table,
/// unchanged, and lies at or above the confidence threshold.
pub proof fn lemma_get_patterns_reports_rows(
    s: Seq<CommandPatternModel>,
    min_ppm: int,
    limit: int,
    r: int,
)
    requires
        0 <= limit,
        0 <= r < spec_get_patterns(s, min_ppm, limit).len(),
    ensures
        exists|i: int|
            0 <= i < s.len() && #[trigger] s[i] == spec_get_patterns(s, min_ppm, limit)[r],
        spec_get_patterns(s, min_ppm, limit)[r].confidence_ppm >= min_ppm,
{
    let pick = confidence_pick(s, min_ppm);
    lemma_confidence_pick_range(s, min_ppm);
    lemma_ranked_order_props(picked_pattern_keys(s, pick));
    let ord = ranked_order(picked_pattern_keys(s, pick));
    assert(spec_get_patterns(s, min_ppm, limit).len() == spec_min(
        limit,
        confidence_pick(s, min_ppm).len() as int,
    ) as nat);
    assert(spec_min(limit, pick.len() as int) <= pick.len() as int);
    assert(spec_get_patterns(s, min_ppm, limit).len() <= pick.len());
    assert(picked_pattern_keys(s, pick).len() == pick.len());
    assert(0 <= ord[r] < pick.len());
    let i = pick[ord[r]];
    assert(0 <= i < s.len());
    assert(spec_get_patterns(s, min_ppm, limit)[r] == s[i]);
}

/// Round trip: a pattern row written into the table and read back through
/// `get_patterns` comes back as the very row that was written; in
/// particular its ordered command sequence is reproduced exactly.
pub proof fn lemma_pattern_round_trip(
    s: Seq<CommandPatternModel>,
    row: CommandPatternModel,
    min_ppm: int,
    limit: int,
    r: int,
)
    requires
        forall|i: int, j: int|
            0 <= i < j < s.len() ==> (#[trigger] s[i]).pattern_id != (#[trigger] s[j]).pattern_id,
        0 <= limit,
        0 <= r < spec_get_patterns(store_pattern(s, row), min_ppm, limit).len(),
        spec_get_patterns(store_pattern(s, row), min_ppm, limit)[r].pattern_id == row.pattern_id,
    ensures
        spec_get_patterns(store_pattern(s, row), min_ppm, limit)[r] == row,
        spec_get_patterns(store_pattern(s, row), min_ppm, limit)[r].command_sequence
            == row.command_sequence,
{
    let s2 = store_pattern(s, row);
    lemma_find_pattern(s, row.pattern_id);
    let f = find_pattern(s, row.pattern_id);
    assert forall|i: int|
        0 <= i < s2.len() && (#[trigger] s2[i]).pattern_id == row.pattern_id implies s2[i]
        == row by {
        if f >= 0 {
            if i != f {
                assert(s2[i] == s[i]);
                assert(s[i].pattern_id != s[f].pattern_id);
            }
        } else {
            if i < s.len() {
                assert(s2[i] == s[i]);
            }
        }
    }
    let pick = confidence_pick(s2, min_ppm);
    lemma_confidence_pick_range(s2, min_ppm);
    lemma_ranked_order_props(picked_pattern_keys(s2, pick));
    let ord = ranked_order(picked_pattern_keys(s2, pick));
    assert(spec_get_patterns(s2, min_ppm, limit).len() == spec_min(
        limit,
        confidence_pick(s2, min_ppm).len() as int,
    ) as nat);
    assert(spec_min(limit, pick.len() as int) <= pick.len() as int);
    assert(spec_get_patterns(s2, min_ppm, limit).len() <= pick.len());
    assert(0 <= r < pick.len());
    assert(picked_pattern_keys(s2, pick).len() == pick.len());
    assert(0 <= ord[r] < pick.len());
    let i = pick[ord[r]];
    assert(0 <= i < s2.len());
    assert(spec_get_patterns(s2, min_ppm, limit)[r] == s2[i]);
    assert(s2[i].pattern_id == row.pattern_id);
}

/// The suggestions are listed best confidence first.
pub open spec fn suggestions_sorted(s: Seq<PatternSuggestionModel>) -> bool {
    forall|a: int, b: int|
        0 <= a < b < s.len() ==> (#[trigger] s[a]).confidence_ppm >= (
        #[trigger] s[b]).confidence_ppm
}

/// Folding one pattern into a sorted candidate list whose entries all score
/// at least as high as the pattern keeps the list sorted, extends it only
/// with entries scoring exactly the pattern's confidence, and leaves the
/// old entries in place.
proof fn lemma_add_candidates_keeps_order(
    acc: Seq<PatternSuggestionModel>,
    p: CommandPatternModel,
    last: Seq<Seq<char>>,
    w: int,
)
    requires
        suggestions_sorted(acc),
        forall|i: int| 0 <= i < acc.len() ==> (#[trigger] acc[i]).confidence_ppm >= p.confidence_ppm,
    ensures
        suggestions_sorted(add_candidates(acc, p, last, w)),
        add_candidates(acc, p, last, w).len() >= acc.len(),
        forall|i: int|
            0 <= i < add_candidates(acc, p, last, w).len() ==> (#[trigger] add_candidates(
                acc,
                p,
                last,
                w,
            )[i]).confidence_ppm >= p.confidence_ppm,
        forall|i: int| 0 <= i < acc.len() ==> #[trigger] add_candidates(acc, p, last, w)[i]
            == acc[i],
    decreases w,
{
    if w >= 1 {
        lemma_add_candidates_keeps_order(acc, p, last, w - 1);
    }
}

/// Every prefix of the suggestion fold is sorted, and every entry scores at
/// least as high as any pattern the fold has not reached yet.
proof fn lemma_suggest_fold_sorted(
    s: Seq<CommandPatternModel>,
    last: Seq<Seq<char>>,
    r: int,
)
    requires
        0 <= r <= s.len(),
    ensures
        suggestions_sorted(suggest_fold(s, ranked_order(pattern_conf_keys(s)), r, last)),
        forall|i: int, q: int|
            r <= q < s.len() && 0 <= i < suggest_fold(
                s,
                ranked_order(pattern_conf_keys(s)),
                r,
                last,
            ).len() ==> (#[trigger] suggest_fold(s, ranked_order(pattern_conf_keys(s)), r, last)[i]).confidence_ppm
                >= s[#[trigger] ranked_order(pattern_conf_keys(s))[q]].confidence_ppm,
    decreases r,
{
    let ord = ranked_order(pattern_conf_keys(s));
    lemma_ranked_order_props(pattern_conf_keys(s));
    if r > 0 {
        lemma_suggest_fold_sorted(s, last, r - 1);
        let prev = suggest_fold(s, ord, r - 1, last);
        let p = s[ord[r - 1]];
        assert forall|i: int| 0 <= i < prev.len() implies (#[trigger] prev[i]).confidence_ppm
            >= p.confidence_ppm by {
            assert(r - 1 <= r - 1 < s.len());
        }
        lemma_add_candidates_keeps_order(prev, p, last, pattern_w_max(p, last));
        let now = suggest_fold(s, ord, r, last);
        assert forall|i: int, q: int|
            r <= q < s.len() && 0 <= i < now.len() implies (#[trigger] now[i]).confidence_ppm
            >= s[#[trigger] ord[q]].confidence_ppm by {
            assert(comes_before(pattern_conf_keys(s), ord[r - 1], ord[q]));
            assert(pattern_conf_keys(s)[ord[r - 1]].0 == s[ord[r - 1]].confidence_ppm);
            assert(pattern_conf_keys(s)[ord[q]].0 == s[ord[q]].confidence_ppm);
            if i < prev.len() {
                assert(now[i] == prev[i]);
            }
        }
    }
}

/// Suggestion ranking: the suggestion list always comes back sorted by
/// confidence, best first.
pub proof fn lemma_suggestions_ranked(
    s: Seq<CommandPatternModel>,
    last: Seq<Seq<char>>,
    limit: int,
)
    requires
        0 <= limit,
    ensures
        suggestions_sorted(spec_pattern_suggestions(s, last, limit)),
{
    lemma_suggest_fold_sorted(s, last, s.len() as int);
    let full = suggest_fold(s, ranked_order(pattern_conf_keys(s)), s.len() as int, last);
    let taken = spec_pattern_suggestions(s, last, limit);
    assert forall|a: int, b: int|
        0 <= a < b < taken.len() implies (#[trigger] taken[a]).confidence_ppm >= (
    #[trigger] taken[b]).confidence_ppm by {
        assert(taken[a] == full[a]);
        assert(taken[b] == full[b]);
    }
}

/// Retention: trimming an over-full query table keeps it at the cap and
/// evicts a row that is no newer than any kept row.
pub proof fn lemma_query_retention(s: Seq<QueryModel>)
    requires
        s.len() == RETENTION_CAP as int + 1,
    ensures
        trim_queries(s).len() == RETENTION_CAP as int,
        forall|i: int|
            0 <= i < trim_queries(s).len() ==> s[oldest_query(s)].instant <= (#[trigger] trim_queries(
                s,
            )[i]).instant,
{
    lemma_oldest_query_props(s);
    let v = oldest_query(s);
    s.remove_ensures(v);
    assert forall|i: int| 0 <= i < trim_queries(s).len() implies s[v].instant <= (
    #[trigger] trim_queries(s)[i]).instant by {
        if i < v {
            assert(trim_queries(s)[i] == s[i]);
        } else {
            assert(trim_queries(s)[i] == s[i + 1]);
        }
    }
}

} // verus!
