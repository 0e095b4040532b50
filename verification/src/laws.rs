//! The engine's laws, proved once for every net: arbitration leaves at most
//! one winner at every contested place, it leaves exactly one where the
//! contenders are distinct and contend nowhere else, and an uncontested
//! firing pass moves exactly the tokens that its connections name.

use vstd::prelude::*;

use crate::connection::{ConnectionType, InputFrom};
use crate::simulation::{
    arb_group, arb_upto, arbitrated, consume_effect, consume_list, contested_places,
    contested_pred, cycle_fired,
    demote_losers, enabled_feed_subset, enabled_map, feed_conns, feed_pred, fire_all, fire_upto,
    input_conns, input_pred, is_contested, is_feed_conn, is_input_conn, is_output_conn,
    lemma_matching_upto, output_conns, output_pred, propagate_list, shape_wf, NetShape,
};

verus! {

/// At most one of the connections drawing on place `p` has its target
/// transition enabled in `en` — stated as: any two of them with enabled
/// targets share the same target.
pub open spec fn at_most_one_winner(sh: NetShape, en: Seq<bool>, p: int) -> bool {
    forall|j1: int, j2: int|
        0 <= j1 < feed_conns(sh, p).len() && 0 <= j2 < feed_conns(sh, p).len() && en[sh.conns[
            #[trigger] feed_conns(sh, p)[j1]
        ].transition as int] && en[sh.conns[#[trigger] feed_conns(sh, p)[j2]].transition as int]
            ==> sh.conns[feed_conns(sh, p)[j1]].transition == sh.conns[feed_conns(
            sh,
            p,
        )[j2]].transition
}

/// The candidate subset holds exactly the group members whose target is
/// enabled, in group order; its elements are strictly increasing whenever
/// the group's are.
pub proof fn lemma_enabled_feed_subset(sh: NetShape, en: Seq<bool>, group: Seq<int>)
    ensures
        forall|k: int|
            0 <= k < enabled_feed_subset(sh, en, group).len() ==> group.contains(
                #[trigger] enabled_feed_subset(sh, en, group)[k],
            ) && en[sh.conns[enabled_feed_subset(sh, en, group)[k]].transition as int],
        forall|j: int|
            0 <= j < group.len() && en[sh.conns[#[trigger] group[j]].transition as int]
                ==> enabled_feed_subset(sh, en, group).contains(group[j]),
        enabled_feed_subset(sh, en, group).len() <= group.len(),
        (forall|k1: int, k2: int| 0 <= k1 < k2 < group.len() ==> group[k1] < group[k2])
            ==> (forall|k1: int, k2: int|
            0 <= k1 < k2 < enabled_feed_subset(sh, en, group).len() ==> enabled_feed_subset(
                sh,
                en,
                group,
            )[k1] < enabled_feed_subset(sh, en, group)[k2]),
    decreases group.len(),
{
    if group.len() > 0 {
        lemma_enabled_feed_subset(sh, en, group.drop_last());
        let rest = group.drop_last();
        let prev = enabled_feed_subset(sh, en, rest);
        let cur = enabled_feed_subset(sh, en, group);
        assert(forall|k: int| 0 <= k < rest.len() ==> rest[k] == group[k]);
        assert forall|k: int|
            0 <= k < cur.len() implies group.contains(#[trigger] cur[k]) && en[sh.conns[cur[k]].transition as int] by {
            if k < prev.len() {
                assert(cur[k] == prev[k]);
                assert(rest.contains(prev[k]));
                let kk = choose|kk: int| 0 <= kk < rest.len() && rest[kk] == prev[k];
                assert(group[kk] == prev[k]);
            } else {
                assert(cur[k] == group.last());
                assert(group[group.len() - 1] == group.last());
            }
        }
        assert forall|j: int|
            0 <= j < group.len() && en[sh.conns[#[trigger] group[j]].transition as int]
            implies cur.contains(group[j]) by {
            if j < group.len() - 1 {
                assert(rest[j] == group[j]);
                assert(prev.contains(group[j]));
                let kk = choose|kk: int| 0 <= kk < prev.len() && prev[kk] == group[j];
                assert(cur[kk] == group[j]);
            } else {
                assert(group[j] == group.last());
                assert(en[sh.conns[group.last()].transition as int]);
                assert(cur.last() == group.last());
                assert(cur[cur.len() - 1] == group[j]);
            }
        }
        if forall|k1: int, k2: int| 0 <= k1 < k2 < group.len() ==> group[k1] < group[k2] {
            assert forall|k1: int, k2: int| 0 <= k1 < k2 < rest.len() implies rest[k1]
                < rest[k2] by {
                assert(group[k1] < group[k2]);
            }
            assert forall|k1: int, k2: int| 0 <= k1 < k2 < cur.len() implies cur[k1]
                < cur[k2] by {
                if k2 < prev.len() {
                } else if en[sh.conns[group.last()].transition as int] && cur.len() == prev.len()
                    + 1 && k2 == prev.len() {
                    assert(cur[k2] == group.last());
                    assert(cur[k1] == prev[k1]);
                    assert(rest.contains(prev[k1]));
                    let kk = choose|kk: int| 0 <= kk < rest.len() && rest[kk] == prev[k1];
                    assert(group[kk] == prev[k1]);
                    assert(group[kk] < group[group.len() - 1]);
                }
            }
        }
    }
}

/// Arbitration at one place keeps the length of the enabled set and only
/// ever demotes: it never enables a transition.
pub proof fn lemma_arb_group_monotone(sh: NetShape, en: Seq<bool>, group: Seq<int>, pick: int)
    ensures
        arb_group(sh, en, group, pick).len() == en.len(),
        forall|t: int|
            0 <= t < en.len() && #[trigger] arb_group(sh, en, group, pick)[t] ==> en[t],
{
}

/// The enabled set after `k` arbitration steps keeps its length.
pub proof fn lemma_arb_upto_len(sh: NetShape, en: Seq<bool>, picks: Seq<int>, k: int)
    ensures
        arb_upto(sh, en, picks, k).len() == en.len(),
    decreases k,
{
    if k > 0 {
        lemma_arb_upto_len(sh, en, picks, k - 1);
        lemma_arb_group_monotone(
            sh,
            arb_upto(sh, en, picks, k - 1),
            feed_conns(sh, contested_places(sh)[k - 1]),
            picks[k - 1],
        );
    }
}

/// Later arbitration steps only ever demote further: a transition enabled
/// after `k2` steps was enabled after any earlier `k1` steps.
pub proof fn lemma_arb_upto_monotone(sh: NetShape, en: Seq<bool>, picks: Seq<int>, k1: int, k2: int)
    requires
        0 <= k1 <= k2,
    ensures
        forall|t: int|
            0 <= t < en.len() && #[trigger] arb_upto(sh, en, picks, k2)[t] ==> arb_upto(
                sh,
                en,
                picks,
                k1,
            )[t],
    decreases k2 - k1,
{
    if k1 < k2 {
        lemma_arb_upto_monotone(sh, en, picks, k1, k2 - 1);
        lemma_arb_upto_len(sh, en, picks, k2 - 1);
        lemma_arb_group_monotone(
            sh,
            arb_upto(sh, en, picks, k2 - 1),
            feed_conns(sh, contested_places(sh)[k2 - 1]),
            picks[k2 - 1],
        );
    }
}

/// After arbitration at place `p`, at most one of the connections drawing on
/// `p` still has an enabled target.
pub proof fn lemma_arb_group_at_most_one(sh: NetShape, en: Seq<bool>, p: int, pick: int)
    requires
        shape_wf(sh),
        en.len() == sh.n_trans,
    ensures
        at_most_one_winner(sh, arb_group(sh, en, feed_conns(sh, p), pick), p),
{
    let group = feed_conns(sh, p);
    lemma_matching_upto(feed_pred(sh, p), sh.conns.len() as int);
    lemma_enabled_feed_subset(sh, en, group);
    let s = enabled_feed_subset(sh, en, group);
    let en2 = arb_group(sh, en, group, pick);
    if s.len() < 2 {
        assert(en2 == en);
        assert forall|j1: int, j2: int|
            0 <= j1 < group.len() && 0 <= j2 < group.len() && en2[sh.conns[
                #[trigger] group[j1]
            ].transition as int] && en2[sh.conns[#[trigger] group[j2]].transition as int]
            implies sh.conns[group[j1]].transition == sh.conns[group[j2]].transition by {
            assert(s.contains(group[j1]));
            assert(s.contains(group[j2]));
            let k1 = choose|k1: int| 0 <= k1 < s.len() && s[k1] == group[j1];
            let k2 = choose|k2: int| 0 <= k2 < s.len() && s[k2] == group[j2];
            assert(k1 == 0 && k2 == 0);
            assert(group[j1] == group[j2]);
        }
    } else {
        let w = pick % (s.len() as int);
        assert(en2 == demote_losers(sh, en, s, w));
        assert(0 <= w < s.len());
        assert forall|j1: int, j2: int|
            0 <= j1 < group.len() && 0 <= j2 < group.len() && en2[sh.conns[
                #[trigger] group[j1]
            ].transition as int] && en2[sh.conns[#[trigger] group[j2]].transition as int]
            implies sh.conns[group[j1]].transition == sh.conns[group[j2]].transition by {
            let t1 = sh.conns[group[j1]].transition as int;
            let t2 = sh.conns[group[j2]].transition as int;
            assert(en[t1] && en[t2]);
            assert(s.contains(group[j1]));
            assert(s.contains(group[j2]));
            let k1 = choose|k1: int| 0 <= k1 < s.len() && s[k1] == group[j1];
            let k2 = choose|k2: int| 0 <= k2 < s.len() && s[k2] == group[j2];
            if k1 != w {
                assert(sh.conns[s[k1]].transition as int == t1);
                assert(false);
            }
            if k2 != w {
                assert(sh.conns[s[k2]].transition as int == t2);
                assert(false);
            }
            assert(group[j1] == s[w] && group[j2] == s[w]);
        }
    }
}

/// The at-most-one-winner law of arbitration: for any contested place,
/// however many of its candidates were enabled beforehand and whatever the
/// picks, after the full arbitration pass at most one of the transitions
/// drawing on it is still permitted to fire (two permitted candidates always
/// share their target).
pub proof fn lemma_arbitration_at_most_one(sh: NetShape, en: Seq<bool>, picks: Seq<int>, p: int)
    requires
        shape_wf(sh),
        en.len() == sh.n_trans,
        0 <= p < sh.n_places,
        is_contested(sh, p),
    ensures
        at_most_one_winner(sh, arbitrated(sh, en, picks), p),
{
    let cps = contested_places(sh);
    lemma_matching_upto(contested_pred(sh), sh.n_places);
    assert(contested_pred(sh)(p));
    assert(cps.contains(p));
    let gi = choose|gi: int| 0 <= gi < cps.len() && cps[gi] == p;
    let en_before = arb_upto(sh, en, picks, gi);
    let en_after = arb_upto(sh, en, picks, gi + 1);
    lemma_arb_upto_len(sh, en, picks, gi);
    lemma_arb_upto_len(sh, en, picks, gi + 1);
    lemma_arb_group_at_most_one(sh, en_before, p, picks[gi]);
    assert(en_after == arb_group(sh, en_before, feed_conns(sh, p), picks[gi]));
    lemma_arb_upto_monotone(sh, en, picks, gi + 1, cps.len() as int);
    let fin = arbitrated(sh, en, picks);
    let group = feed_conns(sh, p);
    lemma_matching_upto(feed_pred(sh, p), sh.conns.len() as int);
    assert forall|j1: int, j2: int|
        0 <= j1 < group.len() && 0 <= j2 < group.len() && fin[sh.conns[
            #[trigger] group[j1]
        ].transition as int] && fin[sh.conns[#[trigger] group[j2]].transition as int]
        implies sh.conns[group[j1]].transition == sh.conns[group[j2]].transition by {
        let t1 = sh.conns[group[j1]].transition as int;
        let t2 = sh.conns[group[j2]].transition as int;
        assert(0 <= group[j1] < sh.conns.len());
        assert(0 <= group[j2] < sh.conns.len());
        assert(0 <= t1 < en.len() && 0 <= t2 < en.len());
        assert(en_after[t1] && en_after[t2]);
    }
}

/// The at-most-one-winner law at the level of a full cycle: whatever the
/// marking and the picks, the fired set of a cycle permits at most one of
/// the transitions drawing on any contested place to consume from it.
pub proof fn lemma_cycle_at_most_one_winner(sh: NetShape, m: Seq<int>, picks: Seq<int>, p: int)
    requires
        shape_wf(sh),
        sh.n_trans >= 0,
        0 <= p < sh.n_places,
        is_contested(sh, p),
    ensures
        at_most_one_winner(sh, cycle_fired(sh, m, picks), p),
{
    assert(enabled_map(sh, m).len() == sh.n_trans);
    lemma_arbitration_at_most_one(sh, enabled_map(sh, m), picks, p);
}

/// The candidate subset depends only on the enabled flags of the group
/// members' targets.
proof fn lemma_enabled_feed_subset_congruent(
    sh: NetShape,
    en1: Seq<bool>,
    en2: Seq<bool>,
    group: Seq<int>,
)
    requires
        forall|k: int|
            0 <= k < group.len() ==> en1[sh.conns[#[trigger] group[k]].transition as int]
                == en2[sh.conns[group[k]].transition as int],
    ensures
        enabled_feed_subset(sh, en1, group) == enabled_feed_subset(sh, en2, group),
    decreases group.len(),
{
    if group.len() > 0 {
        lemma_enabled_feed_subset_congruent(sh, en1, en2, group.drop_last());
        assert(group[group.len() - 1] == group.last());
    }
}

/// Arbitration steps whose contested places have no candidate targeting `t`
/// leave `t`'s flag alone.
proof fn lemma_arb_skips_target(
    sh: NetShape,
    en: Seq<bool>,
    picks: Seq<int>,
    t: int,
    k1: int,
    k2: int,
)
    requires
        0 <= t < en.len(),
        0 <= k1 <= k2,
        forall|k: int, i2: int|
            #![trigger contested_places(sh)[k], sh.conns[i2]]
            k1 <= k < k2 && 0 <= i2 < sh.conns.len() && is_feed_conn(
                sh,
                i2,
                contested_places(sh)[k],
            ) ==> sh.conns[i2].transition != t,
    ensures
        arb_upto(sh, en, picks, k2)[t] == arb_upto(sh, en, picks, k1)[t],
    decreases k2 - k1,
{
    if k1 < k2 {
        lemma_arb_skips_target(sh, en, picks, t, k1, k2 - 1);
        let cur = arb_upto(sh, en, picks, k2 - 1);
        let q = contested_places(sh)[k2 - 1];
        let group = feed_conns(sh, q);
        lemma_matching_upto(feed_pred(sh, q), sh.conns.len() as int);
        lemma_arb_upto_len(sh, en, picks, k2 - 1);
        let s = enabled_feed_subset(sh, cur, group);
        lemma_enabled_feed_subset(sh, cur, group);
        if s.len() >= 2 {
            let w = picks[k2 - 1] % (s.len() as int);
            assert(arb_upto(sh, en, picks, k2) == demote_losers(sh, cur, s, w));
            assert forall|j: int| 0 <= j < s.len() implies sh.conns[#[trigger] s[j]].transition
                != t by {
                assert(group.contains(s[j]));
                let a = choose|a: int| 0 <= a < group.len() && group[a] == s[j];
                assert(is_feed_conn(sh, group[a], q));
            }
            assert(demote_losers(sh, cur, s, w)[t] == cur[t]);
        }
    }
}

/// The exactly-one-winner law: when a contested place has at least two
/// candidates with enabled targets, its candidates target pairwise distinct
/// transitions, and none of those transitions also draws on another
/// contested place, arbitration leaves exactly one of the candidates'
/// transitions permitted — never zero, never more than one.
pub proof fn lemma_contention_exactly_one(sh: NetShape, en: Seq<bool>, picks: Seq<int>, p: int)
    requires
        shape_wf(sh),
        en.len() == sh.n_trans,
        0 <= p < sh.n_places,
        is_contested(sh, p),
        forall|j1: int, j2: int|
            0 <= j1 < j2 < feed_conns(sh, p).len() ==> sh.conns[
                #[trigger] feed_conns(sh, p)[j1]
            ].transition != sh.conns[#[trigger] feed_conns(sh, p)[j2]].transition,
        forall|i1: int, i2: int|
            #![trigger sh.conns[i1], sh.conns[i2]]
            0 <= i1 < sh.conns.len() && 0 <= i2 < sh.conns.len() && is_feed_conn(sh, i1, p)
                && sh.conns[i2].input_from == InputFrom::PLACE && sh.conns[i2].place != p
                && is_contested(sh, sh.conns[i2].place as int) ==> sh.conns[i1].transition
                != sh.conns[i2].transition,
        enabled_feed_subset(sh, en, feed_conns(sh, p)).len() >= 2,
    ensures
        exists|j: int|
            0 <= j < feed_conns(sh, p).len() && en[sh.conns[
                #[trigger] feed_conns(sh, p)[j]
            ].transition as int] && arbitrated(sh, en, picks)[sh.conns[feed_conns(
                sh,
                p,
            )[j]].transition as int],
        forall|j1: int, j2: int|
            0 <= j1 < feed_conns(sh, p).len() && 0 <= j2 < feed_conns(sh, p).len() && arbitrated(
                sh,
                en,
                picks,
            )[sh.conns[#[trigger] feed_conns(sh, p)[j1]].transition as int] && arbitrated(
                sh,
                en,
                picks,
            )[sh.conns[#[trigger] feed_conns(sh, p)[j2]].transition as int] ==> j1 == j2,
{
    let cps = contested_places(sh);
    lemma_matching_upto(contested_pred(sh), sh.n_places);
    assert(contested_pred(sh)(p));
    assert(cps.contains(p));
    let gi = choose|gi: int| 0 <= gi < cps.len() && cps[gi] == p;
    let group = feed_conns(sh, p);
    lemma_matching_upto(feed_pred(sh, p), sh.conns.len() as int);
    let en_at = arb_upto(sh, en, picks, gi);
    lemma_arb_upto_len(sh, en, picks, gi);
    // Arbitration at the earlier contested places never touches the targets
    // of this place's candidates.
    assert forall|k: int| 0 <= k < group.len() implies en_at[sh.conns[
        #[trigger] group[k]
    ].transition as int] == en[sh.conns[group[k]].transition as int] by {
        let t = sh.conns[group[k]].transition as int;
        assert(is_feed_conn(sh, group[k], p));
        assert(0 <= t < en.len());
        assert forall|kk: int, i2: int|
            #![trigger contested_places(sh)[kk], sh.conns[i2]]
            0 <= kk < gi && 0 <= i2 < sh.conns.len() && is_feed_conn(
                sh,
                i2,
                contested_places(sh)[kk],
            ) implies sh.conns[i2].transition != t by {
            assert(cps[kk] < cps[gi]);
            assert(contested_pred(sh)(cps[kk]));
            assert(is_contested(sh, cps[kk]));
            assert(sh.conns[i2].place == cps[kk]);
        }
        lemma_arb_skips_target(sh, en, picks, t, 0, gi);
        assert(arb_upto(sh, en, picks, 0) == en);
    }
    lemma_enabled_feed_subset_congruent(sh, en_at, en, group);
    let s = enabled_feed_subset(sh, en_at, group);
    assert(s == enabled_feed_subset(sh, en, group));
    assert(s.len() >= 2);
    lemma_enabled_feed_subset(sh, en_at, group);
    let w = picks[gi] % (s.len() as int);
    assert(0 <= w < s.len());
    let en_next = arb_upto(sh, en, picks, gi + 1);
    assert(en_next == arb_group(sh, en_at, group, picks[gi]));
    assert(en_next == demote_losers(sh, en_at, s, w));
    let tw = sh.conns[s[w]].transition as int;
    assert(group.contains(s[w]));
    let jw = choose|jw: int| 0 <= jw < group.len() && group[jw] == s[w];
    assert(0 <= s[w] < sh.conns.len());
    assert(0 <= tw < en.len());
    // No demoted candidate shares the winner's target.
    assert forall|jj: int| 0 <= jj < s.len() && jj != w implies sh.conns[
        #[trigger] s[jj]
    ].transition as int != tw by {
        assert(group.contains(s[jj]));
        let ja = choose|ja: int| 0 <= ja < group.len() && group[ja] == s[jj];
        if jj < w {
            assert(s[jj] < s[w]);
        } else {
            assert(s[w] < s[jj]);
        }
        assert(group[ja] != group[jw]);
        assert(ja != jw);
        if ja < jw {
            assert(sh.conns[group[ja]].transition != sh.conns[group[jw]].transition);
        } else {
            assert(sh.conns[group[jw]].transition != sh.conns[group[ja]].transition);
        }
    }
    assert(en_at[tw]);
    assert(en_next[tw]);
    // Arbitration at the later contested places never touches the winner's
    // target either.
    assert forall|kk: int, i2: int|
        #![trigger contested_places(sh)[kk], sh.conns[i2]]
        gi + 1 <= kk < cps.len() && 0 <= i2 < sh.conns.len() && is_feed_conn(
            sh,
            i2,
            contested_places(sh)[kk],
        ) implies sh.conns[i2].transition != tw by {
        assert(cps[gi] < cps[kk]);
        assert(contested_pred(sh)(cps[kk]));
        assert(is_contested(sh, cps[kk]));
        assert(is_feed_conn(sh, group[jw], p));
        assert(sh.conns[i2].place == cps[kk]);
    }
    lemma_arb_skips_target(sh, en, picks, tw, gi + 1, cps.len() as int);
    let fin = arbitrated(sh, en, picks);
    assert(fin[tw] == en_next[tw]);
    assert(en[tw]);
    assert(0 <= jw < group.len() && en[sh.conns[group[jw]].transition as int] && fin[sh.conns[
        group[jw]
    ].transition as int]);
    // Uniqueness comes from the at-most-one law and the distinct targets.
    lemma_arbitration_at_most_one(sh, en, picks, p);
    assert forall|j1: int, j2: int|
        0 <= j1 < group.len() && 0 <= j2 < group.len() && fin[sh.conns[
            #[trigger] group[j1]
        ].transition as int] && fin[sh.conns[#[trigger] group[j2]].transition as int]
        implies j1 == j2 by {
        assert(sh.conns[group[j1]].transition == sh.conns[group[j2]].transition);
        if j1 < j2 {
            assert(sh.conns[group[j1]].transition != sh.conns[group[j2]].transition);
        }
        if j2 < j1 {
            assert(sh.conns[group[j2]].transition != sh.conns[group[j1]].transition);
        }
    }
}

/// Connection `i` is an input connection of a transition that fires.
pub open spec fn is_fired_in(sh: NetShape, fired: Seq<bool>, i: int) -> bool {
    &&& sh.conns[i].input_from == InputFrom::PLACE
    &&& fired[sh.conns[i].transition as int]
}

/// Connection `i` is an output connection of a transition that fires.
pub open spec fn is_fired_out(sh: NetShape, fired: Seq<bool>, i: int) -> bool {
    &&& sh.conns[i].input_from == InputFrom::TRANSITION
    &&& fired[sh.conns[i].transition as int]
}

/// Place `p` is drawn on by some input connection of a firing transition.
pub open spec fn fired_in_place(sh: NetShape, fired: Seq<bool>, p: int) -> bool {
    exists|i: int|
        0 <= i < sh.conns.len() && #[trigger] is_fired_in(sh, fired, i) && sh.conns[i].place == p
}

/// Place `p` is fed by some output connection of a firing transition.
pub open spec fn fired_out_place(sh: NetShape, fired: Seq<bool>, p: int) -> bool {
    exists|i: int|
        0 <= i < sh.conns.len() && #[trigger] is_fired_out(sh, fired, i) && sh.conns[i].place == p
}

/// The summed weight of the connections in `list` whose place is `p`.
pub open spec fn list_weight_sum_to(sh: NetShape, list: Seq<int>, p: int) -> int
    decreases list.len(),
{
    if list.len() == 0 {
        0
    } else {
        list_weight_sum_to(sh, list.drop_last(), p) + (if sh.conns[list.last()].place == p {
            sh.conns[list.last()].weight as int
        } else {
            0
        })
    }
}

/// The summed weight delivered to place `p` by the output connections of the
/// firing transitions among the first `k`.
pub open spec fn fired_out_sum_upto(sh: NetShape, fired: Seq<bool>, p: int, k: int) -> int
    decreases k,
{
    if k <= 0 {
        0
    } else {
        fired_out_sum_upto(sh, fired, p, k - 1) + (if fired[k - 1] {
            list_weight_sum_to(sh, output_conns(sh, k - 1), p)
        } else {
            0
        })
    }
}

/// The summed weight delivered to place `p` by all firing transitions.
pub open spec fn fired_out_sum(sh: NetShape, fired: Seq<bool>, p: int) -> int {
    fired_out_sum_upto(sh, fired, p, sh.n_trans)
}

/// A list of connections none of which draws on `p` delivers no weight to
/// `p`.
pub proof fn lemma_weight_sum_absent(sh: NetShape, list: Seq<int>, p: int)
    requires
        forall|k: int| 0 <= k < list.len() ==> sh.conns[#[trigger] list[k]].place != p,
    ensures
        list_weight_sum_to(sh, list, p) == 0,
    decreases list.len(),
{
    if list.len() > 0 {
        lemma_weight_sum_absent(sh, list.drop_last(), p);
    }
}

/// A place that no firing transition outputs to receives no weight.
pub proof fn lemma_fired_out_sum_absent(sh: NetShape, fired: Seq<bool>, p: int, k: int)
    requires
        !fired_out_place(sh, fired, p),
    ensures
        fired_out_sum_upto(sh, fired, p, k) == 0,
    decreases k,
{
    if k > 0 {
        lemma_fired_out_sum_absent(sh, fired, p, k - 1);
        if fired[k - 1] {
            let list = output_conns(sh, k - 1);
            lemma_matching_upto(output_pred(sh, k - 1), sh.conns.len() as int);
            assert forall|j: int| 0 <= j < list.len() implies sh.conns[#[trigger] list[j]].place
                != p by {
                assert(is_output_conn(sh, list[j], k - 1));
                assert(is_fired_out(sh, fired, list[j]));
            }
            lemma_weight_sum_absent(sh, list, p);
        }
    }
}

/// Consuming over connections that draw on pairwise distinct places applies
/// each connection's effect to the place's original count and leaves every
/// other place alone.
pub proof fn lemma_consume_distinct_places(sh: NetShape, cur: Seq<int>, list: Seq<int>)
    requires
        shape_wf(sh),
        cur.len() == sh.n_places,
        forall|k: int| 0 <= k < list.len() ==> 0 <= #[trigger] list[k] < sh.conns.len(),
        forall|k1: int, k2: int|
            0 <= k1 < k2 < list.len() ==> sh.conns[#[trigger] list[k1]].place != sh.conns[
                #[trigger] list[k2]
            ].place,
    ensures
        consume_list(sh, cur, list).len() == sh.n_places,
        forall|k: int|
            0 <= k < list.len() ==> consume_list(sh, cur, list)[sh.conns[
                #[trigger] list[k]
            ].place as int] == (match sh.conns[list[k]].con_type {
                ConnectionType::NORMAL => cur[sh.conns[list[k]].place as int] - sh.conns[
                    list[k]
                ].weight,
                ConnectionType::INHIBITOR => cur[sh.conns[list[k]].place as int],
                ConnectionType::RESET => 0,
            }),
        forall|p: int|
            0 <= p < sh.n_places && !(exists|k: int|
                0 <= k < list.len() && sh.conns[#[trigger] list[k]].place == p) ==> consume_list(
                sh,
                cur,
                list,
            )[p] == cur[p],
    decreases list.len(),
{
    if list.len() > 0 {
        let rest = list.drop_last();
        lemma_consume_distinct_places(sh, cur, rest);
        let prev = consume_list(sh, cur, rest);
        let fin = consume_list(sh, cur, list);
        let last = list.last();
        let pl = sh.conns[last].place as int;
        assert(!(exists|k: int| 0 <= k < rest.len() && sh.conns[#[trigger] rest[k]].place == pl))
            by {
            assert forall|k: int| 0 <= k < rest.len() implies sh.conns[#[trigger] rest[k]].place
                != pl by {
                assert(rest[k] == list[k]);
                assert(sh.conns[list[k]].place != sh.conns[list[list.len() - 1]].place);
            }
        }
        assert(prev[pl] == cur[pl]);
        assert forall|k: int|
            0 <= k < list.len() implies fin[sh.conns[#[trigger] list[k]].place as int] == (
        match sh.conns[list[k]].con_type {
            ConnectionType::NORMAL => cur[sh.conns[list[k]].place as int] - sh.conns[
                list[k]
            ].weight,
            ConnectionType::INHIBITOR => cur[sh.conns[list[k]].place as int],
            ConnectionType::RESET => 0,
        }) by {
            if k < list.len() - 1 {
                assert(rest[k] == list[k]);
                assert(sh.conns[list[k]].place != sh.conns[list[list.len() - 1]].place);
            }
        }
    }
}

/// Consumption preserves the length of the marking.
pub proof fn lemma_consume_len(sh: NetShape, cur: Seq<int>, list: Seq<int>)
    requires
        shape_wf(sh),
        cur.len() == sh.n_places,
        forall|k: int| 0 <= k < list.len() ==> 0 <= #[trigger] list[k] < sh.conns.len(),
    ensures
        consume_list(sh, cur, list).len() == cur.len(),
    decreases list.len(),
{
    if list.len() > 0 {
        assert(forall|k: int|
            0 <= k < list.drop_last().len() ==> #[trigger] list.drop_last()[k] == list[k]);
        lemma_consume_len(sh, cur, list.drop_last());
        let prev = consume_list(sh, cur, list.drop_last());
        assert(list[list.len() - 1] == list.last());
        assert(consume_list(sh, cur, list) == consume_effect(sh, prev, list.last()));
        assert(0 <= sh.conns[list.last()].place < sh.n_places);
        assert(consume_effect(sh, prev, list.last()).len() == prev.len());
    }
}

/// When every connection in the list that draws on `p` is NORMAL, the
/// consumption subtracts from `p` exactly the summed weight of those
/// connections — however many there are, and whatever the other
/// connections do elsewhere.
pub proof fn lemma_consume_normal_sum(sh: NetShape, cur: Seq<int>, list: Seq<int>, p: int)
    requires
        shape_wf(sh),
        cur.len() == sh.n_places,
        0 <= p < sh.n_places,
        forall|k: int| 0 <= k < list.len() ==> 0 <= #[trigger] list[k] < sh.conns.len(),
        forall|k: int|
            0 <= k < list.len() && sh.conns[#[trigger] list[k]].place == p ==> sh.conns[
                list[k]
            ].con_type == ConnectionType::NORMAL,
    ensures
        consume_list(sh, cur, list)[p] == cur[p] - list_weight_sum_to(sh, list, p),
    decreases list.len(),
{
    if list.len() > 0 {
        lemma_consume_normal_sum(sh, cur, list.drop_last(), p);
        lemma_consume_len(sh, cur, list.drop_last());
        assert(list[list.len() - 1] == list.last());
    }
}

/// When every connection in the list that draws on `p` is RESET and at
/// least one of them does, the consumption leaves `p` at exactly zero,
/// whatever the weights and whatever `p` held before.
pub proof fn lemma_consume_reset_zero(sh: NetShape, cur: Seq<int>, list: Seq<int>, p: int)
    requires
        shape_wf(sh),
        cur.len() == sh.n_places,
        0 <= p < sh.n_places,
        forall|k: int| 0 <= k < list.len() ==> 0 <= #[trigger] list[k] < sh.conns.len(),
        forall|k: int|
            0 <= k < list.len() && sh.conns[#[trigger] list[k]].place == p ==> sh.conns[
                list[k]
            ].con_type == ConnectionType::RESET,
        exists|k: int| 0 <= k < list.len() && sh.conns[#[trigger] list[k]].place == p,
    ensures
        consume_list(sh, cur, list)[p] == 0,
    decreases list.len(),
{
    if list.len() > 0 {
        lemma_consume_len(sh, cur, list.drop_last());
        if sh.conns[list.last()].place == p {
            assert(list[list.len() - 1] == list.last());
        } else {
            let k = choose|k: int|
                0 <= k < list.len() && sh.conns[#[trigger] list[k]].place == p;
            assert(k < list.len() - 1);
            assert(list.drop_last()[k] == list[k]);
            lemma_consume_reset_zero(sh, cur, list.drop_last(), p);
        }
    }
}

/// A place whose every connection in the list drawing on it is INHIBITOR —
/// in particular a place that no connection in the list draws on — is
/// unchanged by the consumption.
pub proof fn lemma_consume_inhibitor_unchanged(sh: NetShape, cur: Seq<int>, list: Seq<int>, p: int)
    requires
        shape_wf(sh),
        cur.len() == sh.n_places,
        0 <= p < sh.n_places,
        forall|k: int| 0 <= k < list.len() ==> 0 <= #[trigger] list[k] < sh.conns.len(),
        forall|k: int|
            0 <= k < list.len() && sh.conns[#[trigger] list[k]].place == p ==> sh.conns[
                list[k]
            ].con_type == ConnectionType::INHIBITOR,
    ensures
        consume_list(sh, cur, list)[p] == cur[p],
    decreases list.len(),
{
    if list.len() > 0 {
        lemma_consume_inhibitor_unchanged(sh, cur, list.drop_last(), p);
        lemma_consume_len(sh, cur, list.drop_last());
        assert(list[list.len() - 1] == list.last());
    }
}

/// Propagating over any list of output connections adds to each place
/// exactly the summed weight that the list delivers to it.
pub proof fn lemma_propagate_sum(sh: NetShape, cur: Seq<int>, list: Seq<int>)
    requires
        shape_wf(sh),
        cur.len() == sh.n_places,
        forall|k: int| 0 <= k < list.len() ==> 0 <= #[trigger] list[k] < sh.conns.len(),
    ensures
        propagate_list(sh, cur, list).len() == sh.n_places,
        forall|p: int|
            0 <= p < sh.n_places ==> propagate_list(sh, cur, list)[p] == cur[p]
                + list_weight_sum_to(sh, list, p),
    decreases list.len(),
{
    if list.len() > 0 {
        lemma_propagate_sum(sh, cur, list.drop_last());
    }
}

/// The conservation invariant after firing the first `k` transitions of the
/// set, under the preconditions of `lemma_conservation`: inputs of already
/// fired transitions carry their final effect, inputs of transitions not yet
/// fired are untouched, and every other place has gained exactly the weight
/// delivered so far.
proof fn lemma_conservation_upto(sh: NetShape, m: Seq<int>, fired: Seq<bool>, k: int)
    requires
        shape_wf(sh),
        sh.n_trans >= 0,
        m.len() == sh.n_places,
        fired.len() == sh.n_trans,
        forall|i: int|
            0 <= i < sh.conns.len() && #[trigger] is_fired_in(sh, fired, i) ==> feed_conns(
                sh,
                sh.conns[i].place as int,
            ).len() == 1,
        forall|i: int, o: int|
            0 <= i < sh.conns.len() && 0 <= o < sh.conns.len() && #[trigger] is_fired_in(
                sh,
                fired,
                i,
            ) && #[trigger] is_fired_out(sh, fired, o) ==> sh.conns[i].place != sh.conns[o].place,
        0 <= k <= sh.n_trans,
    ensures
        fire_upto(sh, m, fired, k).len() == sh.n_places,
        forall|i: int|
            0 <= i < sh.conns.len() && #[trigger] is_fired_in(sh, fired, i)
                && sh.conns[i].transition < k ==> fire_upto(sh, m, fired, k)[sh.conns[i].place as int]
                == (match sh.conns[i].con_type {
                ConnectionType::NORMAL => m[sh.conns[i].place as int] - sh.conns[i].weight,
                ConnectionType::INHIBITOR => m[sh.conns[i].place as int],
                ConnectionType::RESET => 0,
            }),
        forall|i: int|
            0 <= i < sh.conns.len() && #[trigger] is_fired_in(sh, fired, i)
                && sh.conns[i].transition >= k ==> fire_upto(sh, m, fired, k)[sh.conns[i].place as int]
                == m[sh.conns[i].place as int],
        forall|p: int|
            0 <= p < sh.n_places && !fired_in_place(sh, fired, p) ==> fire_upto(sh, m, fired, k)[p]
                == m[p] + fired_out_sum_upto(sh, fired, p, k),
    decreases k,
{
    if k > 0 {
        lemma_conservation_upto(sh, m, fired, k - 1);
        let cur = fire_upto(sh, m, fired, k - 1);
        let next = fire_upto(sh, m, fired, k);
        let t = k - 1;
        if fired[t] {
            let ins = input_conns(sh, t);
            let outs = output_conns(sh, t);
            lemma_matching_upto(input_pred(sh, t), sh.conns.len() as int);
            lemma_matching_upto(output_pred(sh, t), sh.conns.len() as int);
            assert forall|kk: int| 0 <= kk < ins.len() implies is_fired_in(sh, fired, #[trigger] ins[kk])
                && sh.conns[ins[kk]].transition == t by {
                assert(is_input_conn(sh, ins[kk], t));
            }
            assert forall|kk: int| 0 <= kk < outs.len() implies is_fired_out(
                sh,
                fired,
                #[trigger] outs[kk],
            ) by {
                assert(is_output_conn(sh, outs[kk], t));
            }
            assert forall|k1: int, k2: int| 0 <= k1 < k2 < ins.len() implies sh.conns[
                #[trigger] ins[k1]
            ].place != sh.conns[#[trigger] ins[k2]].place by {
                let p = sh.conns[ins[k1]].place as int;
                if sh.conns[ins[k2]].place as int == p {
                    lemma_matching_upto(feed_pred(sh, p), sh.conns.len() as int);
                    assert(is_feed_conn(sh, ins[k1], p));
                    assert(is_feed_conn(sh, ins[k2], p));
                    let fc = feed_conns(sh, p);
                    assert(fc.contains(ins[k1]));
                    assert(fc.contains(ins[k2]));
                    let a1 = choose|a1: int| 0 <= a1 < fc.len() && fc[a1] == ins[k1];
                    let a2 = choose|a2: int| 0 <= a2 < fc.len() && fc[a2] == ins[k2];
                    assert(ins[k1] < ins[k2]);
                    assert(a1 != a2);
                    assert(fc.len() >= 2);
                    assert(fc.len() == 1);
                }
            }
            lemma_consume_distinct_places(sh, cur, ins);
            let mid = consume_list(sh, cur, ins);
            lemma_propagate_sum(sh, mid, outs);
            assert(next == propagate_list(sh, mid, outs));
            // A place fed by some firing transition's input never receives
            // output weight in this cycle.
            assert forall|i: int|
                0 <= i < sh.conns.len() && #[trigger] is_fired_in(sh, fired, i) implies {
                let p = sh.conns[i].place as int;
                list_weight_sum_to(sh, outs, p) == 0
            } by {
                let p = sh.conns[i].place as int;
                assert forall|j: int| 0 <= j < outs.len() implies sh.conns[#[trigger] outs[j]].place
                    != p by {
                    assert(is_fired_out(sh, fired, outs[j]));
                }
                lemma_weight_sum_absent(sh, outs, p);
            }
            // Inputs of transitions other than `t` keep their value over
            // this step.
            assert forall|i: int|
                0 <= i < sh.conns.len() && #[trigger] is_fired_in(sh, fired, i)
                    && sh.conns[i].transition != t implies next[sh.conns[i].place as int]
                == cur[sh.conns[i].place as int] by {
                let p = sh.conns[i].place as int;
                assert(!(exists|kk: int|
                    0 <= kk < ins.len() && sh.conns[#[trigger] ins[kk]].place == p)) by {
                    assert forall|kk: int| 0 <= kk < ins.len() implies sh.conns[
                        #[trigger] ins[kk]
                    ].place != p by {
                        if sh.conns[ins[kk]].place as int == p {
                            lemma_matching_upto(feed_pred(sh, p), sh.conns.len() as int);
                            assert(is_feed_conn(sh, ins[kk], p));
                            assert(is_feed_conn(sh, i, p));
                            let fc = feed_conns(sh, p);
                            assert(fc.contains(ins[kk]));
                            assert(fc.contains(i));
                            let a1 = choose|a1: int| 0 <= a1 < fc.len() && fc[a1] == ins[kk];
                            let a2 = choose|a2: int| 0 <= a2 < fc.len() && fc[a2] == i;
                            assert(sh.conns[ins[kk]].transition == t);
                            assert(ins[kk] != i);
                            assert(a1 != a2);
                            assert(fc.len() >= 2);
                            assert(fc.len() == 1);
                        }
                    }
                }
                assert(mid[p] == cur[p]);
                assert(0 <= p < sh.n_places);
                assert(next[p] == mid[p] + list_weight_sum_to(sh, outs, p));
            }
            // The inputs of `t` itself take their effect from the original
            // marking.
            assert forall|i: int|
                0 <= i < sh.conns.len() && #[trigger] is_fired_in(sh, fired, i)
                    && sh.conns[i].transition == t implies next[sh.conns[i].place as int] == (
            match sh.conns[i].con_type {
                ConnectionType::NORMAL => m[sh.conns[i].place as int] - sh.conns[i].weight,
                ConnectionType::INHIBITOR => m[sh.conns[i].place as int],
                ConnectionType::RESET => 0,
            }) by {
                let p = sh.conns[i].place as int;
                assert(is_input_conn(sh, i, t));
                assert(ins.contains(i));
                let kk = choose|kk: int| 0 <= kk < ins.len() && ins[kk] == i;
                assert(cur[p] == m[p]);
                assert(mid[sh.conns[ins[kk]].place as int] == (match sh.conns[ins[kk]].con_type {
                    ConnectionType::NORMAL => cur[sh.conns[ins[kk]].place as int] - sh.conns[
                        ins[kk]
                    ].weight,
                    ConnectionType::INHIBITOR => cur[sh.conns[ins[kk]].place as int],
                    ConnectionType::RESET => 0,
                }));
                assert(0 <= p < sh.n_places);
                assert(next[p] == mid[p] + list_weight_sum_to(sh, outs, p));
                assert(list_weight_sum_to(sh, outs, p) == 0);
            }
            // Places without firing inputs gain exactly this transition's
            // delivery on top of what came before.
            assert forall|p: int| 0 <= p < sh.n_places && !fired_in_place(sh, fired, p) implies next[p]
                == m[p] + fired_out_sum_upto(sh, fired, p, k) by {
                assert(!(exists|kk: int|
                    0 <= kk < ins.len() && sh.conns[#[trigger] ins[kk]].place == p)) by {
                    assert forall|kk: int| 0 <= kk < ins.len() implies sh.conns[
                        #[trigger] ins[kk]
                    ].place != p by {
                        if sh.conns[ins[kk]].place as int == p {
                            assert(is_fired_in(sh, fired, ins[kk]));
                            assert(fired_in_place(sh, fired, p));
                        }
                    }
                }
                assert(mid[p] == cur[p]);
                assert(next[p] == mid[p] + list_weight_sum_to(sh, outs, p));
            }
        } else {
            assert(next == cur);
        }
    }
}

/// The conservation law for uncontested firing: when no firing transition
/// draws on a contested place, and no place is at once an input of one
/// firing transition and an output of another (or the same), then after the
/// whole firing pass each NORMAL input place has lost exactly its
/// connection's weight, each RESET input place holds exactly zero, each
/// INHIBITOR input place is unchanged, every place without a firing input
/// has gained exactly the summed weight of the firing transitions' output
/// connections to it, and a place touched by neither is unchanged.
pub proof fn lemma_conservation(sh: NetShape, m: Seq<int>, fired: Seq<bool>)
    requires
        shape_wf(sh),
        sh.n_trans >= 0,
        m.len() == sh.n_places,
        fired.len() == sh.n_trans,
        forall|i: int|
            0 <= i < sh.conns.len() && #[trigger] is_fired_in(sh, fired, i) ==> feed_conns(
                sh,
                sh.conns[i].place as int,
            ).len() == 1,
        forall|i: int, o: int|
            0 <= i < sh.conns.len() && 0 <= o < sh.conns.len() && #[trigger] is_fired_in(
                sh,
                fired,
                i,
            ) && #[trigger] is_fired_out(sh, fired, o) ==> sh.conns[i].place != sh.conns[o].place,
    ensures
        fire_all(sh, m, fired).len() == sh.n_places,
        forall|i: int|
            0 <= i < sh.conns.len() && #[trigger] is_fired_in(sh, fired, i) ==> fire_all(
                sh,
                m,
                fired,
            )[sh.conns[i].place as int] == (match sh.conns[i].con_type {
                ConnectionType::NORMAL => m[sh.conns[i].place as int] - sh.conns[i].weight,
                ConnectionType::INHIBITOR => m[sh.conns[i].place as int],
                ConnectionType::RESET => 0,
            }),
        forall|p: int|
            0 <= p < sh.n_places && !fired_in_place(sh, fired, p) ==> fire_all(sh, m, fired)[p]
                == m[p] + fired_out_sum(sh, fired, p),
        forall|p: int|
            0 <= p < sh.n_places && !fired_in_place(sh, fired, p) && !fired_out_place(
                sh,
                fired,
                p,
            ) ==> fire_all(sh, m, fired)[p] == m[p],
{
    lemma_conservation_upto(sh, m, fired, sh.n_trans);
    assert forall|i: int|
        0 <= i < sh.conns.len() && #[trigger] is_fired_in(sh, fired, i) implies sh.conns[i].transition
        < sh.n_trans by {
        assert(sh.conns[i].place < sh.n_places);
    }
    assert forall|p: int|
        0 <= p < sh.n_places && !fired_in_place(sh, fired, p) && !fired_out_place(sh, fired, p)
        implies fire_all(sh, m, fired)[p] == m[p] by {
        lemma_fired_out_sum_absent(sh, fired, p, sh.n_trans);
    }
}

} // verus!
