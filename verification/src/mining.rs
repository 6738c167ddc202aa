//! The pattern miner.
//!
//! Given a chronological list of successful command invocations, the miner
//! slides windows of every requested length across it, accumulates each
//! distinct command sequence (keyed by its joined id) with the gaps between
//! its commands, keeps the sequences seen at least twice, and scores each
//! with a confidence blending how often and how recently it occurred.

use vstd::prelude::*;

use crate::time::{days_between, days_between_exec, Timestamp, INSTANT_BOUND};
use crate::types::{
    clone_strings, lemma_models_of_push, models_of, pattern_wf, CommandPattern,
    CommandPatternModel, PPM,
};

verus! {

/// Strict bound on a single gap between consecutive commands, in whole
/// seconds: two in-range instants lie within `2 * INSTANT_BOUND`
/// milliseconds of one another.
pub const GAP_BOUND_S: i64 = 18_000_000_000_000;

/// A chronological invocation: command id and millisecond instant.
pub open spec fn chron_view(s: Seq<(String, i64)>) -> Seq<(Seq<char>, int)> {
    Seq::new(s.len(), |i: int| (s[i].0@, s[i].1 as int))
}

/// The list is chronological and its instants are in range.
pub open spec fn chron_ok(c: Seq<(Seq<char>, int)>) -> bool {
    &&& forall|a: int, b: int| 0 <= a < b < c.len() ==> (#[trigger] c[a]).1 <= (#[trigger] c[b]).1
    &&& forall|a: int|
        0 <= a < c.len() ==> -(INSTANT_BOUND as int) < (#[trigger] c[a]).1 < INSTANT_BOUND as int
}

/// A command sequence joined into its canonical pattern id.
pub open spec fn join_arrow(s: Seq<Seq<char>>) -> Seq<char>
    decreases s.len(),
{
    if s.len() == 0 {
        Seq::<char>::empty()
    } else if s.len() == 1 {
        s[0]
    } else {
        join_arrow(s.drop_last()) + " -> "@ + s.last()
    }
}

/// The command ids of the window of length `l` at position `i`.
pub open spec fn window_cmds(c: Seq<(Seq<char>, int)>, i: int, l: int) -> Seq<Seq<char>> {
    Seq::new(l as nat, |k: int| c[i + k].0)
}

/// One gap inside the window, in whole seconds.
pub open spec fn gap_s(c: Seq<(Seq<char>, int)>, j: int) -> int {
    (c[j + 1].1 - c[j].1) / 1000
}

/// The summed gaps of the window of length `l` at position `i`, in whole
/// seconds.
pub open spec fn window_gap_sum(c: Seq<(Seq<char>, int)>, i: int, l: int) -> int
    decreases l,
{
    if l <= 1 {
        0
    } else {
        window_gap_sum(c, i, l - 1) + gap_s(c, i + l - 2)
    }
}

/// One accumulated pattern during mining.
pub ghost struct AccModel {
    /// The joined pattern id, which is the dedup key.
    pub key: Seq<char>,
    /// The sequence of the first window that produced the key.
    pub sequence: Seq<Seq<char>>,
    /// How many gaps were accumulated over all occurrences.
    pub gap_count: int,
    /// Their sum, in whole seconds.
    pub gap_sum_s: int,
    /// The latest instant of an occurrence's last command.
    pub last_instant: int,
}

/// Index of the first accumulator with the key, or -1 when none has it.
pub open spec fn find_acc_key(accs: Seq<AccModel>, key: Seq<char>) -> int
    decreases accs.len(),
{
    if accs.len() == 0 {
        -1
    } else if accs[0].key == key {
        0
    } else {
        let r = find_acc_key(accs.drop_first(), key);
        if r < 0 {
            -1
        } else {
            r + 1
        }
    }
}

/// Fold the window of length `l` at position `i` into the accumulators.
pub open spec fn acc_step(
    accs: Seq<AccModel>,
    c: Seq<(Seq<char>, int)>,
    i: int,
    l: int,
) -> Seq<AccModel> {
    let seqn = window_cmds(c, i, l);
    let key = join_arrow(seqn);
    let gsum = window_gap_sum(c, i, l);
    let last = c[i + l - 1].1;
    let f = find_acc_key(accs, key);
    if f >= 0 {
        accs.update(
            f,
            (AccModel {
                gap_count: accs[f].gap_count + (l - 1),
                gap_sum_s: accs[f].gap_sum_s + gsum,
                last_instant: if accs[f].last_instant >= last {
                    accs[f].last_instant
                } else {
                    last
                },
                ..accs[f]
            }),
        )
    } else {
        accs.push(
            (AccModel {
                key: key,
                sequence: seqn,
                gap_count: l - 1,
                gap_sum_s: gsum,
                last_instant: last,
            }),
        )
    }
}

/// Fold the first `upto` windows of length `l`.
pub open spec fn acc_windows(
    accs: Seq<AccModel>,
    c: Seq<(Seq<char>, int)>,
    l: int,
    upto: int,
) -> Seq<AccModel>
    decreases upto,
{
    if upto <= 0 {
        accs
    } else {
        acc_step(acc_windows(accs, c, l, upto - 1), c, upto - 1, l)
    }
}

/// How many windows of length `l` fit in a list of `c_len` commands.
pub open spec fn windows_count(c_len: int, l: int) -> int {
    if l <= c_len {
        c_len - l + 1
    } else {
        0
    }
}

/// Fold every window of the lengths `min_l ..= l`.
pub open spec fn acc_lengths(c: Seq<(Seq<char>, int)>, min_l: int, l: int) -> Seq<AccModel>
    decreases l,
{
    if l < min_l || l < 1 {
        Seq::<AccModel>::empty()
    } else {
        acc_windows(acc_lengths(c, min_l, l - 1), c, l, windows_count(c.len() as int, l))
    }
}

/// The accumulators after sliding every window of every length in
/// `min_l ..= max_l` across the list.
pub open spec fn mined_accs(
    c: Seq<(Seq<char>, int)>,
    min_l: int,
    max_l: int,
) -> Seq<AccModel> {
    acc_lengths(c, min_l, if max_l < c.len() as int {
        max_l
    } else {
        c.len() as int
    })
}

/// Occurrence count of an accumulated pattern: accumulated gaps, normalized
/// by the gaps of one occurrence of its (first) sequence.
pub open spec fn acc_frequency(a: AccModel) -> int {
    a.gap_count / (if a.sequence.len() as int - 1 >= 1 {
        a.sequence.len() as int - 1
    } else {
        1
    })
}

/// Recency weight in parts per million: `1 / (1 + days/30)`, clamped into
/// `[0.1, 1.0]`.
pub open spec fn recency_factor_ppm(days: int) -> int {
    if 30 + days > 0 {
        let raw = 30_000_000int / (30 + days);
        if raw > PPM as int {
            PPM as int
        } else if raw < 100_000 {
            100_000
        } else {
            raw
        }
    } else if 30 + days == 0 {
        PPM as int
    } else {
        100_000
    }
}

/// Frequency weight in parts per million: `frequency / 20`, saturating at
/// 1.0.
pub open spec fn frequency_factor_ppm(freq: int) -> int {
    if freq >= 20 {
        PPM as int
    } else {
        freq * 50_000
    }
}

/// Blended confidence in parts per million: 70% frequency weight, 30%
/// recency weight, capped at 1.0.
pub open spec fn confidence_of(freq: int, days: int) -> int {
    let c = (7 * frequency_factor_ppm(freq) + 3 * recency_factor_ppm(days)) / 10;
    if c > PPM as int {
        PPM as int
    } else {
        c
    }
}

/// Clamp a non-negative integer into `i64`.
pub open spec fn cap_i64(x: int) -> int {
    if x > i64::MAX as int {
        i64::MAX as int
    } else {
        x
    }
}

/// The pattern record an accumulator becomes, stamped with the mining
/// moment.
pub open spec fn pattern_of_acc(
    a: AccModel,
    now_instant: int,
    now_text: Seq<char>,
) -> CommandPatternModel {
    CommandPatternModel {
        pattern_id: a.key,
        command_sequence: a.sequence,
        frequency: acc_frequency(a),
        confidence_ppm: confidence_of(acc_frequency(a), days_between(a.last_instant, now_instant)),
        last_seen: now_text,
        avg_time_between_commands_ms: if a.gap_count > 0 {
            Some(cap_i64(a.gap_sum_s * 1000 / a.gap_count))
        } else {
            None
        },
    }
}

/// Keep the accumulators that occurred at least twice, in first-appearance
/// order, as scored pattern records.
pub open spec fn finalize_accs(
    accs: Seq<AccModel>,
    now_instant: int,
    now_text: Seq<char>,
) -> Seq<CommandPatternModel>
    decreases accs.len(),
{
    if accs.len() == 0 {
        Seq::<CommandPatternModel>::empty()
    } else {
        let rest = finalize_accs(accs.drop_last(), now_instant, now_text);
        if acc_frequency(accs.last()) >= 2 {
            rest.push(pattern_of_acc(accs.last(), now_instant, now_text))
        } else {
            rest
        }
    }
}

/// An accumulated pattern during the mining scan.
struct MineAcc {
    key: String,
    sequence: Vec<String>,
    gap_count: u64,
    gap_sum_s: u128,
    last_instant: i64,
}

impl View for MineAcc {
    type V = AccModel;

    closed spec fn view(&self) -> AccModel {
        AccModel {
            key: self.key@,
            sequence: self.sequence.deep_view(),
            gap_count: self.gap_count as int,
            gap_sum_s: self.gap_sum_s as int,
            last_instant: self.last_instant as int,
        }
    }
}

/// A first match at `i` makes `find_acc_key` return `i`.
proof fn lemma_find_acc_key_at(s: Seq<AccModel>, key: Seq<char>, i: int)
    requires
        0 <= i < s.len(),
        s[i].key == key,
        forall|q: int| 0 <= q < i ==> (#[trigger] s[q]).key != key,
    ensures
        find_acc_key(s, key) == i,
    decreases s.len(),
{
    if i > 0 {
        let rest = s.drop_first();
        assert(forall|q: int| 0 <= q < rest.len() ==> #[trigger] rest[q] == s[q + 1]);
        lemma_find_acc_key_at(rest, key, i - 1);
    }
}

/// No match anywhere makes `find_acc_key` return -1.
proof fn lemma_find_acc_key_none(s: Seq<AccModel>, key: Seq<char>)
    requires
        forall|q: int| 0 <= q < s.len() ==> (#[trigger] s[q]).key != key,
    ensures
        find_acc_key(s, key) == -1,
    decreases s.len(),
{
    if s.len() > 0 {
        let rest = s.drop_first();
        assert(forall|q: int| 0 <= q < rest.len() ==> #[trigger] rest[q] == s[q + 1]);
        lemma_find_acc_key_none(rest, key);
    }
}

/// Find the first accumulator carrying the key.
fn find_mine_acc(accs: &Vec<MineAcc>, key: &String) -> (r: Option<usize>)
    ensures
        (match r {
            Some(i) => i < accs@.len() && find_acc_key(models_of(accs@), key@) == i as int,
            None => find_acc_key(models_of(accs@), key@) == -1,
        }),
{
    let ghost m = models_of(accs@);
    let mut i: usize = 0;
    while i < accs.len()
        invariant
            i <= accs@.len(),
            m == models_of(accs@),
            forall|q: int| 0 <= q < i ==> (#[trigger] m[q]).key != key@,
        decreases accs@.len() - i,
    {
        if accs[i].key == *key {
            proof {
                lemma_find_acc_key_at(m, key@, i as int);
            }
            return Some(i);
        }
        i += 1;
    }
    proof {
        lemma_find_acc_key_none(m, key@);
    }
    None
}

/// Join a command sequence with the canonical separator.
fn join_exec(w: &Vec<String>) -> (r: String)
    requires
        w@.len() >= 1,
    ensures
        r@ == join_arrow(w.deep_view()),
{
    let ghost wv = w.deep_view();
    let mut r: String = w[0].clone();
    let mut k: usize = 1;
    proof {
        assert(wv.take(1).len() == 1);
        assert(wv.take(1)[0] == wv[0]);
        assert(r@ == join_arrow(wv.take(1)));
    }
    while k < w.len()
        invariant
            1 <= k <= w@.len(),
            wv == w.deep_view(),
            r@ == join_arrow(wv.take(k as int)),
        decreases w@.len() - k,
    {
        let ghost next = wv.take(k as int + 1);
        proof {
            assert(next.drop_last() =~= wv.take(k as int));
            assert(next.last() == wv[k as int]);
            assert(next.len() >= 2);
        }
        r.append(" -> ");
        r.append(w[k].as_str());
        k += 1;
    }
    proof {
        assert(wv.take(wv.len() as int) =~= wv);
    }
    r
}

/// Everything the miner returns for a chronological list: nothing when the
/// list is shorter than the minimal length, else the scored recurring
/// patterns.
pub open spec fn spec_mine(
    c: Seq<(Seq<char>, int)>,
    min_l: int,
    max_l: int,
    now_instant: int,
    now_text: Seq<char>,
) -> Seq<CommandPatternModel> {
    if c.len() < min_l {
        Seq::<CommandPatternModel>::empty()
    } else {
        finalize_accs(mined_accs(c, min_l, max_l), now_instant, now_text)
    }
}

/// Bounds every accumulator respects during the scan: counts within the
/// running total, sums within count-many gaps, instants in range, sequences
/// non-empty.
spec fn accs_bounded(s: Seq<AccModel>, gtot: int) -> bool {
    forall|k: int|
        0 <= k < s.len() ==> {
            let a = #[trigger] s[k];
            &&& 0 <= a.gap_count <= gtot
            &&& 0 <= a.gap_sum_s <= a.gap_count * (GAP_BOUND_S as int)
            &&& -(INSTANT_BOUND as int) < a.last_instant < INSTANT_BOUND as int
            &&& 1 <= a.sequence.len()
        }
}

/// Mine the recurring command patterns of a chronological invocation list,
/// scored as of the given moment.
pub fn mine_patterns(
    chron: &Vec<(String, i64)>,
    min_len: usize,
    max_len: usize,
    t: &Timestamp,
) -> (out: Vec<CommandPattern>)
    requires
        chron_ok(chron_view(chron@)),
        chron@.len() <= 1000,
        min_len >= 1,
        t.wf(),
    ensures
        models_of(out@) == spec_mine(
            chron_view(chron@),
            min_len as int,
            max_len as int,
            t.instant(),
            t.render(),
        ),
        forall|a: int| 0 <= a < out@.len() ==> pattern_wf(#[trigger] models_of(out@)[a]),
{
    let ghost cv = chron_view(chron@);
    if chron.len() < min_len {
        let out: Vec<CommandPattern> = Vec::new();
        proof {
            assert(models_of(out@) =~= spec_mine(
                cv,
                min_len as int,
                max_len as int,
                t.instant(),
                t.render(),
            ));
        }
        return out;
    }
    let mut accs: Vec<MineAcc> = Vec::new();
    let ghost mut gtot: int = 0int;
    let lmax: usize = if max_len < chron.len() {
        max_len
    } else {
        chron.len()
    };
    let mut l: usize = min_len;
    proof {
        assert(models_of(accs@) =~= acc_lengths(cv, min_len as int, l as int - 1));
    }
    while l <= lmax
        invariant
            min_len >= 1,
            min_len <= l,
            l <= lmax + 1 || l == min_len,
            lmax <= chron@.len(),
            chron@.len() <= 1000,
            lmax as int == if (max_len as int) < cv.len() as int {
                max_len as int
            } else {
                cv.len() as int
            },
            cv == chron_view(chron@),
            chron_ok(cv),
            cv.len() == chron@.len(),
            models_of(accs@) == acc_lengths(cv, min_len as int, l as int - 1),
            accs_bounded(models_of(accs@), gtot),
            0 <= gtot <= (l - min_len) * 1_000_000,
        decreases lmax + 1 - l,
    {
        let ghost base_l = acc_lengths(cv, min_len as int, l as int - 1);
        let nwin: usize = chron.len() - l + 1;
        proof {
            assert(windows_count(cv.len() as int, l as int) == nwin as int);
        }
        let mut i: usize = 0;
        while i < nwin
            invariant
                min_len >= 1,
                min_len <= l,
                l <= lmax,
                lmax <= chron@.len(),
                chron@.len() <= 1000,
                i <= nwin,
                nwin as int == windows_count(cv.len() as int, l as int),
                nwin as int == cv.len() as int - l as int + 1,
                cv == chron_view(chron@),
                chron_ok(cv),
                cv.len() == chron@.len(),
                base_l == acc_lengths(cv, min_len as int, l as int - 1),
                models_of(accs@) == acc_windows(base_l, cv, l as int, i as int),
                accs_bounded(models_of(accs@), gtot),
                0 <= gtot <= (l - min_len) * 1_000_000 + i * 1000,
                gtot <= 1_000_000_000,
            decreases nwin - i,
        {
            let ghost before = models_of(accs@);
            // The window's command ids.
            let mut wseq: Vec<String> = Vec::new();
            let mut k: usize = 0;
            while k < l
                invariant
                    k <= l,
                    i as int + l as int <= cv.len() as int,
                    wseq@.len() == k,
                    cv == chron_view(chron@),
                    cv.len() == chron@.len(),
                    chron@.len() <= 1000,
                    forall|a: int| 0 <= a < k ==> (#[trigger] wseq@[a])@ == cv[i + a].0,
                decreases l - k,
            {
                wseq.push(chron[i + k].0.clone());
                k += 1;
            }
            proof {
                assert forall|a: int| 0 <= a < l implies wseq.deep_view()[a] == window_cmds(
                    cv,
                    i as int,
                    l as int,
                )[a] by {
                    assert(wseq.deep_view()[a] == wseq@[a].deep_view());
                    assert(wseq@[a]@ == cv[i + a].0);
                }
                assert(wseq.deep_view() =~= window_cmds(cv, i as int, l as int));
            }
            let key = join_exec(&wseq);
            // The gaps between the window's commands, in whole seconds.
            let mut wsum: u64 = 0;
            let mut g: usize = 0;
            while g < l - 1
                invariant
                    g <= l - 1,
                    l >= 1,
                    i as int + l as int <= cv.len() as int,
                    cv == chron_view(chron@),
                    cv.len() == chron@.len(),
                    chron@.len() <= 1000,
                    chron_ok(cv),
                    wsum as int == window_gap_sum(cv, i as int, g as int + 1),
                    wsum as int <= g * (GAP_BOUND_S as int),
                decreases l - 1 - g,
            {
                let a = chron[i + g].1;
                let b = chron[i + g + 1].1;
                proof {
                    assert(cv[i as int + g as int].1 == a as int);
                    assert(cv[i as int + g as int + 1].1 == b as int);
                    assert(a <= b);
                }
                let gap: u64 = ((b - a) as u64) / 1000;
                proof {
                    assert(gap as int == gap_s(cv, i as int + g as int));
                    assert(gap as int <= GAP_BOUND_S as int);
                }
                wsum = wsum + gap;
                g += 1;
            }
            let last_inst = chron[i + l - 1].1;
            proof {
                assert(cv[i as int + l as int - 1].1 == last_inst as int);
                assert(wsum as int == window_gap_sum(cv, i as int, l as int));
            }
            let found = find_mine_acc(&accs, &key);
            match found {
                Some(f) => {
                    let acc = &accs[f];
                    proof {
                        assert(accs_bounded(before, gtot));
                        assert(before[f as int] == acc@);
                    }
                    let new_count = acc.gap_count + (l as u64 - 1);
                    let new_sum = acc.gap_sum_s + (wsum as u128);
                    let new_last = if acc.last_instant >= last_inst {
                        acc.last_instant
                    } else {
                        last_inst
                    };
                    let key_keep = acc.key.clone();
                    let seq_keep = clone_strings(&acc.sequence);
                    accs[f] = MineAcc {
                        key: key_keep,
                        sequence: seq_keep,
                        gap_count: new_count,
                        gap_sum_s: new_sum,
                        last_instant: new_last,
                    };
                    proof {
                        assert(accs@[f as int].sequence.deep_view() =~= before[f as int].sequence);
                        assert(models_of(accs@) =~= before.update(
                            f as int,
                            (AccModel {
                                gap_count: before[f as int].gap_count + (l as int - 1),
                                gap_sum_s: before[f as int].gap_sum_s + window_gap_sum(
                                    cv,
                                    i as int,
                                    l as int,
                                ),
                                last_instant: if before[f as int].last_instant >= cv[i as int
                                    + l as int - 1].1 {
                                    before[f as int].last_instant
                                } else {
                                    cv[i as int + l as int - 1].1
                                },
                                ..before[f as int]
                            }),
                        ));
                        assert(models_of(accs@) == acc_step(before, cv, i as int, l as int));
                        gtot = gtot + (l as int - 1);
                        assert forall|kk: int| 0 <= kk < models_of(accs@).len() implies {
                            let am = #[trigger] models_of(accs@)[kk];
                            &&& 0 <= am.gap_count <= gtot
                            &&& 0 <= am.gap_sum_s <= am.gap_count * (GAP_BOUND_S as int)
                            &&& -(INSTANT_BOUND as int) < am.last_instant < INSTANT_BOUND as int
                            &&& 1 <= am.sequence.len()
                        } by {
                            if kk != f as int {
                                assert(models_of(accs@)[kk] == before[kk]);
                            }
                        }
                    }
                },
                None => {
                    let acc_new = MineAcc {
                        key,
                        sequence: wseq,
                        gap_count: l as u64 - 1,
                        gap_sum_s: wsum as u128,
                        last_instant: last_inst,
                    };
                    let ghost acc_new_m = acc_new@;
                    proof {
                        lemma_models_of_push(accs@, acc_new);
                    }
                    accs.push(acc_new);
                    proof {
                        assert(models_of(accs@) == before.push(acc_new_m));
                        assert(acc_new_m == (AccModel {
                            key: join_arrow(window_cmds(cv, i as int, l as int)),
                            sequence: window_cmds(cv, i as int, l as int),
                            gap_count: l as int - 1,
                            gap_sum_s: window_gap_sum(cv, i as int, l as int),
                            last_instant: cv[i as int + l as int - 1].1,
                        }));
                        assert(models_of(accs@) == acc_step(before, cv, i as int, l as int));
                        gtot = gtot + (l as int - 1);
                        assert forall|kk: int| 0 <= kk < models_of(accs@).len() implies {
                            let am = #[trigger] models_of(accs@)[kk];
                            &&& 0 <= am.gap_count <= gtot
                            &&& 0 <= am.gap_sum_s <= am.gap_count * (GAP_BOUND_S as int)
                            &&& -(INSTANT_BOUND as int) < am.last_instant < INSTANT_BOUND as int
                            &&& 1 <= am.sequence.len()
                        } by {
                            if kk < models_of(accs@).len() - 1 {
                                assert(models_of(accs@)[kk] == before[kk]);
                            }
                        }
                    }
                },
            }
            i += 1;
        }
        l += 1;
    }
    proof {
        assert(models_of(accs@) == mined_accs(cv, min_len as int, max_len as int));
    }
    // Score the recurring accumulators.
    let now_ms = t.unix_millis();
    let mut out: Vec<CommandPattern> = Vec::new();
    let mut kx: usize = 0;
    let ghost accs_m = models_of(accs@);
    proof {
        assert(models_of(out@) =~= finalize_accs(accs_m.take(0), t.instant(), t.render()));
    }
    while kx < accs.len()
        invariant
            kx <= accs@.len(),
            accs_m == models_of(accs@),
            accs_bounded(accs_m, gtot),
            gtot <= 1_000_000_000,
            t.wf(),
            now_ms as int == t.instant(),
            models_of(out@) == finalize_accs(accs_m.take(kx as int), t.instant(), t.render()),
            forall|a: int| 0 <= a < out@.len() ==> pattern_wf(#[trigger] models_of(out@)[a]),
        decreases accs@.len() - kx,
    {
        let ghost prefix = accs_m.take(kx as int);
        let ghost next = accs_m.take(kx as int + 1);
        proof {
            assert(next.drop_last() =~= prefix);
            assert(next.last() == accs_m[kx as int]);
            assert(accs_bounded(accs_m, gtot));
        }
        let acc = &accs[kx];
        let denom: u64 = if acc.sequence.len() >= 2 {
            (acc.sequence.len() - 1) as u64
        } else {
            1
        };
        let freq: u64 = acc.gap_count / denom;
        proof {
            assert(freq as int == acc_frequency(accs_m[kx as int]));
            assert(freq <= acc.gap_count);
        }
        if freq >= 2 {
            let days = days_between_exec(acc.last_instant, now_ms);
            let denom30: i64 = 30 + days;
            let rf: i64 = if denom30 > 0 {
                let raw: u64 = 30_000_000u64 / (denom30 as u64);
                if raw > 1_000_000 {
                    1_000_000i64
                } else if raw < 100_000 {
                    100_000i64
                } else {
                    raw as i64
                }
            } else if denom30 == 0 {
                1_000_000i64
            } else {
                100_000i64
            };
            proof {
                assert(rf as int == recency_factor_ppm(days_between(
                    accs_m[kx as int].last_instant,
                    t.instant(),
                )));
            }
            let ff: i64 = if freq >= 20 {
                1_000_000i64
            } else {
                (freq as i64) * 50_000
            };
            let c64: u64 = (7 * (ff as u64) + 3 * (rf as u64)) / 10;
            let conf: i64 = if c64 > 1_000_000 {
                1_000_000i64
            } else {
                c64 as i64
            };
            proof {
                assert(conf as int == confidence_of(
                    acc_frequency(accs_m[kx as int]),
                    days_between(accs_m[kx as int].last_instant, t.instant()),
                ));
            }
            let avg: Option<i64> = if acc.gap_count > 0 {
                proof {
                    assert(accs_m[kx as int].gap_sum_s <= accs_m[kx as int].gap_count * (
                    GAP_BOUND_S as int));
                    assert(accs_m[kx as int].gap_count <= 1_000_000_000);
                }
                let v: u128 = acc.gap_sum_s * 1000 / (acc.gap_count as u128);
                Some(
                    if v > i64::MAX as u128 {
                        i64::MAX
                    } else {
                        v as i64
                    },
                )
            } else {
                None
            };
            let ghost before_out = out@;
            out.push(
                CommandPattern {
                    pattern_id: acc.key.clone(),
                    command_sequence: clone_strings(&acc.sequence),
                    frequency: freq as i64,
                    confidence_ppm: conf,
                    last_seen: t.text().clone(),
                    avg_time_between_commands_ms: avg,
                },
            );
            proof {
                lemma_models_of_push(before_out, out@.last());
                assert(out@.last().command_sequence.deep_view() =~= accs_m[kx as int].sequence);
                assert(out@.last()@ == pattern_of_acc(accs_m[kx as int], t.instant(), t.render()));
                assert(models_of(out@) == finalize_accs(next, t.instant(), t.render()));
            }
        }
        kx += 1;
    }
    proof {
        assert(accs_m.take(accs_m.len() as int) =~= accs_m);
        assert(models_of(out@) == spec_mine(
            cv,
            min_len as int,
            max_len as int,
            t.instant(),
            t.render(),
        ));
    }
    out
}

} // verus!
