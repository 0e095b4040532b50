use vstd::prelude::*;

use crate::connection::{guard_sat, Connection, ConnectionType, InputFrom};
use crate::net::PetriNet;
use crate::place::Place;

verus! {

/// A fatal engine error: the net handed to the engine violated its
/// structural invariants, a cycle drove some place's token count outside the
/// range of its counter, or the trace grew to the machine's limit on vector
/// length.
#[derive(Clone, Copy, Debug, PartialEq, Eq, Structural)]
pub enum SimError {
    InvariantViolation,
    MarkingOverflow,
    TraceOverflow,
}

/// One recorded cycle: the cycle index, every place's token count at cycle
/// start, and for every transition whether it fired in this cycle.
#[derive(Clone, Debug)]
pub struct TraceRow {
    pub cycle: usize,
    pub marks: Vec<i32>,
    pub fired: Vec<bool>,
}

/// The structural part of a net that the cycle semantics reads: the
/// connections and the sizes of the two arenas. Token counts are deliberately
/// not part of the shape; they are passed around as a separate marking, so
/// that the shape of a net is unchanged by running it.
pub struct NetShape {
    pub conns: Seq<Connection>,
    pub n_places: int,
    pub n_trans: int,
}

/// Every connection of the shape stays inside the two arenas and carries a
/// positive weight.
pub open spec fn shape_wf(sh: NetShape) -> bool {
    forall|i: int|
        0 <= i < sh.conns.len() ==> {
            let c = #[trigger] sh.conns[i];
            &&& c.place < sh.n_places
            &&& c.transition < sh.n_trans
            &&& c.weight >= 1
        }
}

impl PetriNet {
    /// The shape of this net.
    pub open spec fn shape(self) -> NetShape {
        NetShape {
            conns: self.connections@,
            n_places: self.places.len() as int,
            n_trans: self.transitions.len() as int,
        }
    }
}

/// The marking of a net: every place's token count, in arena order.
pub open spec fn marking_of(net: PetriNet) -> Seq<int> {
    net.places@.map_values(|p: Place| p.tokens as int)
}

/// A sequence of small indices, widened for use in specifications.
pub open spec fn as_ints(v: Seq<usize>) -> Seq<int> {
    v.map_values(|x: usize| x as int)
}

/// Whether `v` fits a place's token counter.
pub open spec fn in_i32(v: int) -> bool {
    i32::MIN <= v <= i32::MAX
}

/// Two nets with the same shape and the same place identities; only token
/// counts may differ. Running the engine changes nothing else.
pub open spec fn same_structure(a: PetriNet, b: PetriNet) -> bool {
    &&& b.connections@ == a.connections@
    &&& b.transitions@ == a.transitions@
    &&& b.places.len() == a.places.len()
    &&& forall|i: int|
        0 <= i < a.places.len() ==> (#[trigger] b.places[i].id) == a.places[i].id
            && b.places[i].name == a.places[i].name
}

/// Connection `i` is an input of transition `t`: it feeds the transition from
/// its place.
pub open spec fn is_input_conn(sh: NetShape, i: int, t: int) -> bool {
    &&& sh.conns[i].input_from == InputFrom::PLACE
    &&& sh.conns[i].transition == t
}

/// Connection `i` is an output of transition `t`: it feeds its place from the
/// transition.
pub open spec fn is_output_conn(sh: NetShape, i: int, t: int) -> bool {
    &&& sh.conns[i].input_from == InputFrom::TRANSITION
    &&& sh.conns[i].transition == t
}

/// Connection `i` draws on place `p`: it is an input of its transition and
/// its place is `p`.
pub open spec fn is_feed_conn(sh: NetShape, i: int, p: int) -> bool {
    &&& sh.conns[i].input_from == InputFrom::PLACE
    &&& sh.conns[i].place == p
}

/// The indices below `n` that satisfy `pred`, in increasing order.
pub open spec fn matching_upto(pred: spec_fn(int) -> bool, n: int) -> Seq<int>
    decreases n,
{
    if n <= 0 {
        Seq::empty()
    } else if pred(n - 1) {
        matching_upto(pred, n - 1).push(n - 1)
    } else {
        matching_upto(pred, n - 1)
    }
}

pub open spec fn input_pred(sh: NetShape, t: int) -> spec_fn(int) -> bool {
    |i: int| is_input_conn(sh, i, t)
}

pub open spec fn output_pred(sh: NetShape, t: int) -> spec_fn(int) -> bool {
    |i: int| is_output_conn(sh, i, t)
}

pub open spec fn feed_pred(sh: NetShape, p: int) -> spec_fn(int) -> bool {
    |i: int| is_feed_conn(sh, i, p)
}

pub open spec fn input_conns_upto(sh: NetShape, t: int, n: int) -> Seq<int> {
    matching_upto(input_pred(sh, t), n)
}

/// The input connections of transition `t`, in net order.
pub open spec fn input_conns(sh: NetShape, t: int) -> Seq<int> {
    input_conns_upto(sh, t, sh.conns.len() as int)
}

pub open spec fn output_conns_upto(sh: NetShape, t: int, n: int) -> Seq<int> {
    matching_upto(output_pred(sh, t), n)
}

/// The output connections of transition `t`, in net order.
pub open spec fn output_conns(sh: NetShape, t: int) -> Seq<int> {
    output_conns_upto(sh, t, sh.conns.len() as int)
}

pub open spec fn feed_conns_upto(sh: NetShape, p: int, n: int) -> Seq<int> {
    matching_upto(feed_pred(sh, p), n)
}

/// The connections that draw on place `p`, in net order.
pub open spec fn feed_conns(sh: NetShape, p: int) -> Seq<int> {
    feed_conns_upto(sh, p, sh.conns.len() as int)
}

/// A place is contested when two or more connections draw on it.
pub open spec fn is_contested(sh: NetShape, p: int) -> bool {
    feed_conns(sh, p).len() >= 2
}

pub open spec fn contested_pred(sh: NetShape) -> spec_fn(int) -> bool {
    |p: int| is_contested(sh, p)
}

pub open spec fn contested_upto(sh: NetShape, n: int) -> Seq<int> {
    matching_upto(contested_pred(sh), n)
}

/// The contested places of the net, in increasing order of index.
pub open spec fn contested_places(sh: NetShape) -> Seq<int> {
    contested_upto(sh, sh.n_places)
}

/// The elements of `matching_upto(pred, n)` are exactly the indices below `n`
/// satisfying `pred`, listed in strictly increasing order.
pub proof fn lemma_matching_upto(pred: spec_fn(int) -> bool, n: int)
    ensures
        forall|k: int|
            0 <= k < matching_upto(pred, n).len() ==> 0 <= #[trigger] matching_upto(pred, n)[k]
                < n && pred(matching_upto(pred, n)[k]),
        forall|i: int| 0 <= i < n && pred(i) ==> #[trigger] matching_upto(pred, n).contains(i),
        forall|k1: int, k2: int|
            0 <= k1 < k2 < matching_upto(pred, n).len() ==> matching_upto(pred, n)[k1]
                < matching_upto(pred, n)[k2],
        matching_upto(pred, n).len() <= (if n >= 0 {
            n
        } else {
            0
        }),
    decreases (if n >= 0 {
        n
    } else {
        0
    }),
{
    if n > 0 {
        lemma_matching_upto(pred, n - 1);
        let prev = matching_upto(pred, n - 1);
        let cur = matching_upto(pred, n);
        assert forall|i: int| 0 <= i < n && pred(i) implies #[trigger] cur.contains(i) by {
            if i < n - 1 {
                assert(prev.contains(i));
                let k = choose|k: int| 0 <= k < prev.len() && prev[k] == i;
                if pred(n - 1) {
                    assert(cur == prev.push(n - 1));
                }
                assert(0 <= k < cur.len());
                assert(cur[k] == i);
            } else {
                assert(pred(n - 1));
                assert(cur.last() == n - 1);
                assert(cur[cur.len() - 1] == i);
            }
        }
    }
}

/// Transition `t` is enabled under marking `m`: every one of its input
/// connections individually satisfies its guard.
pub open spec fn trans_enabled(sh: NetShape, m: Seq<int>, t: int) -> bool {
    forall|i: int|
        0 <= i < sh.conns.len() && #[trigger] is_input_conn(sh, i, t) ==> guard_sat(
            sh.conns[i].con_type,
            sh.conns[i].weight as int,
            m[sh.conns[i].place as int],
        )
}

/// The enabled set under marking `m`, as one flag per transition.
pub open spec fn enabled_map(sh: NetShape, m: Seq<int>) -> Seq<bool> {
    Seq::new(sh.n_trans as nat, |t: int| trans_enabled(sh, m, t))
}

/// The members of `group` (connection indices, in net order) whose target
/// transition is enabled in `en`: the candidates that arbitration chooses
/// among.
pub open spec fn enabled_feed_subset(sh: NetShape, en: Seq<bool>, group: Seq<int>) -> Seq<int>
    decreases group.len(),
{
    if group.len() == 0 {
        Seq::empty()
    } else {
        let rest = enabled_feed_subset(sh, en, group.drop_last());
        if en[sh.conns[group.last()].transition as int] {
            rest.push(group.last())
        } else {
            rest
        }
    }
}

/// Demotes the target transition of every candidate in `s` except the winner
/// at position `w`. Removal is global: a transition demoted here does not
/// fire this cycle at all.
pub open spec fn demote_losers(sh: NetShape, en: Seq<bool>, s: Seq<int>, w: int) -> Seq<bool> {
    Seq::new(
        en.len(),
        |t: int|
            en[t] && !(exists|j: int|
                0 <= j < s.len() && j != w && sh.conns[#[trigger] s[j]].transition == t),
    )
}

/// Arbitration at one contested place: if at least two candidates are
/// enabled, the pick (reduced modulo the candidate count) selects the
/// surviving connection and all other candidates' transitions are demoted;
/// with fewer than two enabled candidates nothing changes. The exclusion
/// count is sized by the enabled candidate subset, not by the place's total
/// connection count, so a sole enabled contender is never starved.
pub open spec fn arb_group(sh: NetShape, en: Seq<bool>, group: Seq<int>, pick: int) -> Seq<bool> {
    let s = enabled_feed_subset(sh, en, group);
    if s.len() < 2 {
        en
    } else {
        demote_losers(sh, en, s, pick % (s.len() as int))
    }
}

/// Arbitration over the first `k` contested places, in increasing order of
/// place index, each consuming one entry of `picks`.
pub open spec fn arb_upto(sh: NetShape, en: Seq<bool>, picks: Seq<int>, k: int) -> Seq<bool>
    decreases k,
{
    if k <= 0 {
        en
    } else {
        arb_group(
            sh,
            arb_upto(sh, en, picks, k - 1),
            feed_conns(sh, contested_places(sh)[k - 1]),
            picks[k - 1],
        )
    }
}

/// The enabled set after arbitration at every contested place.
pub open spec fn arbitrated(sh: NetShape, en: Seq<bool>, picks: Seq<int>) -> Seq<bool> {
    arb_upto(sh, en, picks, contested_places(sh).len() as int)
}

/// The transitions that fire in a cycle starting from marking `m` with the
/// arbitration picks `picks`: the enabled set, reduced by arbitration.
pub open spec fn cycle_fired(sh: NetShape, m: Seq<int>, picks: Seq<int>) -> Seq<bool> {
    arbitrated(sh, enabled_map(sh, m), picks)
}

/// Whether any transition fired.
pub open spec fn any_fired(fired: Seq<bool>) -> bool {
    exists|t: int| 0 <= t < fired.len() && fired[t]
}

/// Arbitration reads only the first `k` picks.
pub proof fn lemma_arb_upto_prefix(
    sh: NetShape,
    en: Seq<bool>,
    p1: Seq<int>,
    p2: Seq<int>,
    k: int,
)
    requires
        forall|j: int| 0 <= j < k ==> p1[j] == p2[j],
    ensures
        arb_upto(sh, en, p1, k) == arb_upto(sh, en, p2, k),
    decreases k,
{
    if k > 0 {
        lemma_arb_upto_prefix(sh, en, p1, p2, k - 1);
    }
}

/// A marking snapshot, widened from the token counters.
pub open spec fn marks_of(v: Seq<i32>) -> Seq<int> {
    v.map_values(|x: i32| x as int)
}

/// The effect on the marking of firing over one input connection: NORMAL
/// subtracts the weight from the place, INHIBITOR leaves it alone, RESET sets
/// it to zero regardless of the weight.
pub open spec fn consume_effect(sh: NetShape, m: Seq<int>, ci: int) -> Seq<int> {
    let c = sh.conns[ci];
    match c.con_type {
        ConnectionType::NORMAL => m.update(c.place as int, m[c.place as int] - c.weight),
        ConnectionType::INHIBITOR => m,
        ConnectionType::RESET => m.update(c.place as int, 0),
    }
}

/// Whether the consumption stays inside the token counter's range.
pub open spec fn consume_effect_ok(sh: NetShape, m: Seq<int>, ci: int) -> bool {
    let c = sh.conns[ci];
    match c.con_type {
        ConnectionType::NORMAL => in_i32(m[c.place as int] - c.weight),
        ConnectionType::INHIBITOR => true,
        ConnectionType::RESET => true,
    }
}

/// The effect on the marking of firing over one output connection: the
/// weight is added to the place.
pub open spec fn propagate_effect(sh: NetShape, m: Seq<int>, ci: int) -> Seq<int> {
    let c = sh.conns[ci];
    m.update(c.place as int, m[c.place as int] + c.weight)
}

/// Whether the propagation stays inside the token counter's range.
pub open spec fn propagate_effect_ok(sh: NetShape, m: Seq<int>, ci: int) -> bool {
    let c = sh.conns[ci];
    in_i32(m[c.place as int] + c.weight)
}

/// Consumption over a list of input connections, applied left to right.
pub open spec fn consume_list(sh: NetShape, m: Seq<int>, list: Seq<int>) -> Seq<int>
    decreases list.len(),
{
    if list.len() == 0 {
        m
    } else {
        consume_effect(sh, consume_list(sh, m, list.drop_last()), list.last())
    }
}

/// Every step of the consumption stays in range.
pub open spec fn consume_list_ok(sh: NetShape, m: Seq<int>, list: Seq<int>) -> bool
    decreases list.len(),
{
    if list.len() == 0 {
        true
    } else {
        consume_list_ok(sh, m, list.drop_last()) && consume_effect_ok(
            sh,
            consume_list(sh, m, list.drop_last()),
            list.last(),
        )
    }
}

/// Propagation over a list of output connections, applied left to right.
pub open spec fn propagate_list(sh: NetShape, m: Seq<int>, list: Seq<int>) -> Seq<int>
    decreases list.len(),
{
    if list.len() == 0 {
        m
    } else {
        propagate_effect(sh, propagate_list(sh, m, list.drop_last()), list.last())
    }
}

/// Every step of the propagation stays in range.
pub open spec fn propagate_list_ok(sh: NetShape, m: Seq<int>, list: Seq<int>) -> bool
    decreases list.len(),
{
    if list.len() == 0 {
        true
    } else {
        propagate_list_ok(sh, m, list.drop_last()) && propagate_effect_ok(
            sh,
            propagate_list(sh, m, list.drop_last()),
            list.last(),
        )
    }
}

/// Firing one transition: consume over all its input connections, then
/// propagate over all its output connections.
pub open spec fn fire_transition(sh: NetShape, m: Seq<int>, t: int) -> Seq<int> {
    propagate_list(sh, consume_list(sh, m, input_conns(sh, t)), output_conns(sh, t))
}

/// Whether firing transition `t` stays in range throughout.
pub open spec fn fire_transition_ok(sh: NetShape, m: Seq<int>, t: int) -> bool {
    &&& consume_list_ok(sh, m, input_conns(sh, t))
    &&& propagate_list_ok(sh, consume_list(sh, m, input_conns(sh, t)), output_conns(sh, t))
}

/// Firing, in arena order, every transition among the first `k` whose flag
/// is set.
pub open spec fn fire_upto(sh: NetShape, m: Seq<int>, fired: Seq<bool>, k: int) -> Seq<int>
    decreases k,
{
    if k <= 0 {
        m
    } else {
        let prev = fire_upto(sh, m, fired, k - 1);
        if fired[k - 1] {
            fire_transition(sh, prev, k - 1)
        } else {
            prev
        }
    }
}

/// Whether every firing among the first `k` stays in range.
pub open spec fn fire_ok_upto(sh: NetShape, m: Seq<int>, fired: Seq<bool>, k: int) -> bool
    decreases k,
{
    if k <= 0 {
        true
    } else {
        fire_ok_upto(sh, m, fired, k - 1) && (fired[k - 1] ==> fire_transition_ok(
            sh,
            fire_upto(sh, m, fired, k - 1),
            k - 1,
        ))
    }
}

/// The marking after firing the whole set `fired` from marking `m`.
pub open spec fn fire_all(sh: NetShape, m: Seq<int>, fired: Seq<bool>) -> Seq<int> {
    fire_upto(sh, m, fired, sh.n_trans)
}

/// Whether firing the whole set stays in range.
pub open spec fn fire_all_ok(sh: NetShape, m: Seq<int>, fired: Seq<bool>) -> bool {
    fire_ok_upto(sh, m, fired, sh.n_trans)
}

/// The marking after one full cycle from marking `m` with arbitration picks
/// `picks`: evaluate, arbitrate, fire.
pub open spec fn cycle_marking(sh: NetShape, m: Seq<int>, picks: Seq<int>) -> Seq<int> {
    fire_all(sh, m, cycle_fired(sh, m, picks))
}

/// Whether the whole cycle stays inside the token counter's range.
pub open spec fn cycle_ok(sh: NetShape, m: Seq<int>, picks: Seq<int>) -> bool {
    fire_all_ok(sh, m, cycle_fired(sh, m, picks))
}

/// A pick sequence fit for arbitration over the net: one non-negative entry
/// per contested place.
pub open spec fn picks_wf(sh: NetShape, picks: Seq<int>) -> bool {
    &&& picks.len() == contested_places(sh).len()
    &&& forall|j: int| 0 <= j < picks.len() ==> #[trigger] picks[j] >= 0
}

/// If the whole consumption stays in range, so does every prefix.
pub proof fn lemma_consume_list_ok_prefix(sh: NetShape, m: Seq<int>, list: Seq<int>, k: int)
    requires
        0 <= k <= list.len(),
    ensures
        consume_list_ok(sh, m, list) ==> consume_list_ok(sh, m, list.take(k)),
    decreases list.len() - k,
{
    if k == list.len() {
        assert(list.take(k) =~= list);
    } else {
        lemma_consume_list_ok_prefix(sh, m, list, k + 1);
        assert(list.take(k + 1).drop_last() =~= list.take(k));
    }
}

/// If the whole propagation stays in range, so does every prefix.
pub proof fn lemma_propagate_list_ok_prefix(sh: NetShape, m: Seq<int>, list: Seq<int>, k: int)
    requires
        0 <= k <= list.len(),
    ensures
        propagate_list_ok(sh, m, list) ==> propagate_list_ok(sh, m, list.take(k)),
    decreases list.len() - k,
{
    if k == list.len() {
        assert(list.take(k) =~= list);
    } else {
        lemma_propagate_list_ok_prefix(sh, m, list, k + 1);
        assert(list.take(k + 1).drop_last() =~= list.take(k));
    }
}

/// If firing the first `n` transitions stays in range, so does firing any
/// shorter prefix.
pub proof fn lemma_fire_ok_prefix(sh: NetShape, m: Seq<int>, fired: Seq<bool>, k: int, n: int)
    requires
        0 <= k <= n,
    ensures
        fire_ok_upto(sh, m, fired, n) ==> fire_ok_upto(sh, m, fired, k),
    decreases n - k,
{
    if k < n {
        lemma_fire_ok_prefix(sh, m, fired, k + 1, n);
    }
}

/// A cycle that fires nothing leaves the marking unchanged, and trivially
/// stays in range.
pub proof fn lemma_fire_none(sh: NetShape, m: Seq<int>, fired: Seq<bool>, k: int)
    requires
        forall|t: int| 0 <= t < k ==> !fired[t],
    ensures
        fire_upto(sh, m, fired, k) == m,
        fire_ok_upto(sh, m, fired, k),
    decreases k,
{
    if k > 0 {
        lemma_fire_none(sh, m, fired, k - 1);
    }
}

/// What one cycle of the engine guarantees, relating the state before
/// (`pre`) and after (`post`) through the arbitration picks and the result.
/// On success the marking becomes the cycle's firing result, one trace row is
/// appended recording the pre-cycle marking and the fired set, and the
/// returned flag says whether anything fired. The cycle fails exactly when
/// some token update would leave the counter's range; then no row is
/// appended.
pub open spec fn cycle_post(
    pre: Simulation,
    post: Simulation,
    picks: Seq<int>,
    r: Result<bool, SimError>,
) -> bool {
    let sh = pre.net.shape();
    let m0 = marking_of(pre.net);
    &&& picks_wf(sh, picks)
    &&& match r {
        Ok(b) => {
            &&& cycle_ok(sh, m0, picks)
            &&& marking_of(post.net) == cycle_marking(sh, m0, picks)
            &&& b == any_fired(cycle_fired(sh, m0, picks))
            &&& post.rows@.len() == pre.rows@.len() + 1
            &&& forall|i: int| 0 <= i < pre.rows@.len() ==> post.rows@[i] == pre.rows@[i]
            &&& post.rows@.last().cycle == pre.rows@.len()
            &&& post.rows@.last().marks@.len() == pre.net.places.len()
            &&& post.rows@.last().fired@.len() == pre.net.transitions.len()
            &&& marks_of(post.rows@.last().marks@) == m0
            &&& post.rows@.last().fired@ == cycle_fired(sh, m0, picks)
        },
        Err(e) => {
            &&& e == SimError::MarkingOverflow
            &&& !cycle_ok(sh, m0, picks)
            &&& post.rows == pre.rows
        },
    }
}

/// Structural equality of nets is transitive.
pub proof fn lemma_same_structure_trans(a: PetriNet, b: PetriNet, c: PetriNet)
    requires
        same_structure(a, b),
        same_structure(b, c),
    ensures
        same_structure(a, c),
{
    assert forall|i: int| 0 <= i < a.places.len() implies (#[trigger] c.places[i].id)
        == a.places[i].id && c.places[i].name == a.places[i].name by {
        assert(0 <= i < b.places.len());
        assert(b.places[i].id == a.places[i].id);
        assert(c.places[i].id == b.places[i].id);
        assert(b.places[i].name == a.places[i].name);
        assert(c.places[i].name == b.places[i].name);
    }
}

/// A net whose places differ from another's in the token count of at most
/// one place shares its structure.
pub proof fn lemma_same_structure_update(a: PetriNet, b: PetriNet, p: int)
    requires
        b.connections@ == a.connections@,
        b.transitions@ == a.transitions@,
        b.places.len() == a.places.len(),
        0 <= p < a.places.len(),
        forall|i: int| 0 <= i < a.places.len() && i != p ==> b.places[i] == a.places[i],
        b.places[p].id == a.places[p].id,
        b.places[p].name == a.places[p].name,
    ensures
        same_structure(a, b),
{
    assert forall|i: int| 0 <= i < a.places.len() implies (#[trigger] b.places[i].id)
        == a.places[i].id && b.places[i].name == a.places[i].name by {
        if i != p {
            assert(b.places[i] == a.places[i]);
        }
    }
}

/// The marking that a run's recorded rows lead to: the entry marking when
/// nothing was recorded, else the outcome of the last recorded cycle, for
/// the picks that produced its fired set.
pub open spec fn trace_resumes_at(
    sh: NetShape,
    entry: Seq<int>,
    rows: Seq<TraceRow>,
    m: Seq<int>,
) -> bool {
    if rows.len() == 0 {
        m == entry
    } else {
        exists|picks: Seq<int>|
            {
                &&& picks_wf(sh, picks)
                &&& rows.last().fired@ == cycle_fired(sh, marks_of(rows.last().marks@), picks)
                &&& cycle_ok(sh, marks_of(rows.last().marks@), picks)
                &&& m == cycle_marking(sh, marks_of(rows.last().marks@), picks)
            }
    }
}

/// The engine's derived index is unchanged between two of its states.
pub open spec fn same_index(pre: Simulation, post: Simulation) -> bool {
    &&& post.incoming_connections == pre.incoming_connections
    &&& post.outgoing_connections == pre.outgoing_connections
    &&& post.concurrent_places == pre.concurrent_places
    &&& post.concurrent_groups == pre.concurrent_groups
}

/// Relies on rand::random_range: a value drawn uniformly at random from the
/// half-open range of the integers below `bound`.
#[verifier::external_body]
fn random_below(bound: usize) -> (r: usize)
    requires
        bound >= 1,
    ensures
        r < bound,
{
    rand::random_range(0..bound)
}

/// The execution engine: a finalized net, the derived connection index, and
/// the accumulated trace.
pub struct Simulation {
    pub net: PetriNet,
    pub incoming_connections: Vec<Vec<usize>>,
    pub outgoing_connections: Vec<Vec<usize>>,
    pub concurrent_places: Vec<usize>,
    pub concurrent_groups: Vec<Vec<usize>>,
    pub rows: Vec<TraceRow>,
}

impl Simulation {
    /// The net is well formed and the index lists are exactly the per-node
    /// connection lists derived from it.
    pub open spec fn wf(self) -> bool {
        let sh = self.net.shape();
        &&& self.net.wf()
        &&& self.incoming_connections.len() == self.net.transitions.len()
        &&& self.outgoing_connections.len() == self.net.transitions.len()
        &&& forall|t: int|
            0 <= t < self.net.transitions.len() ==> as_ints(
                (#[trigger] self.incoming_connections[t])@,
            ) == input_conns(sh, t)
        &&& forall|t: int|
            0 <= t < self.net.transitions.len() ==> as_ints(
                (#[trigger] self.outgoing_connections[t])@,
            ) == output_conns(sh, t)
        &&& as_ints(self.concurrent_places@) == contested_places(sh)
        &&& self.concurrent_groups.len() == self.concurrent_places.len()
        &&& forall|g: int|
            0 <= g < self.concurrent_groups.len() ==> as_ints(
                (#[trigger] self.concurrent_groups[g])@,
            ) == feed_conns(sh, self.concurrent_places[g] as int)
    }

    /// Checks at run time whether `net` satisfies its structural invariants.
    fn check_well_formed(net: &PetriNet) -> (r: bool)
        ensures
            r == net.wf(),
    {
        let mut i: usize = 0;
        while i < net.places.len()
            invariant
                i <= net.places.len(),
                forall|j: int| 0 <= j < i ==> (#[trigger] net.places[j].id) == j,
            decreases net.places.len() - i,
        {
            if net.places[i].id != i {
                return false;
            }
            i = i + 1;
        }
        let mut i: usize = 0;
        while i < net.transitions.len()
            invariant
                i <= net.transitions.len(),
                forall|j: int| 0 <= j < i ==> (#[trigger] net.transitions[j].id) == j,
            decreases net.transitions.len() - i,
        {
            if net.transitions[i].id != i {
                return false;
            }
            i = i + 1;
        }
        let mut i: usize = 0;
        while i < net.connections.len()
            invariant
                i <= net.connections.len(),
                forall|j: int|
                    0 <= j < i ==> {
                        let c = #[trigger] net.connections[j];
                        &&& c.place < net.places.len()
                        &&& c.transition < net.transitions.len()
                        &&& c.weight >= 1
                    },
            decreases net.connections.len() - i,
        {
            let c = &net.connections[i];
            if c.place >= net.places.len() || c.transition >= net.transitions.len() || c.weight < 1
            {
                return false;
            }
            i = i + 1;
        }
        true
    }

    /// Builds the two per-transition lists of connection indices: the inputs
    /// (place feeds transition) and the outputs (transition feeds place).
    fn scan_connections(net: &PetriNet) -> (r: (Vec<Vec<usize>>, Vec<Vec<usize>>))
        requires
            net.wf(),
        ensures
            r.0.len() == net.transitions.len(),
            r.1.len() == net.transitions.len(),
            forall|t: int|
                0 <= t < net.transitions.len() ==> as_ints((#[trigger] r.0[t])@) == input_conns(
                    net.shape(),
                    t,
                ),
            forall|t: int|
                0 <= t < net.transitions.len() ==> as_ints((#[trigger] r.1[t])@) == output_conns(
                    net.shape(),
                    t,
                ),
    {
        let ghost sh = net.shape();
        let n = net.transitions.len();
        let mut incoming: Vec<Vec<usize>> = Vec::new();
        let mut outgoing: Vec<Vec<usize>> = Vec::new();
        let mut t: usize = 0;
        while t < n
            invariant
                t <= n,
                incoming.len() == t,
                outgoing.len() == t,
                forall|u: int| 0 <= u < t ==> (#[trigger] incoming[u])@.len() == 0,
                forall|u: int| 0 <= u < t ==> (#[trigger] outgoing[u])@.len() == 0,
            decreases n - t,
        {
            incoming.push(Vec::new());
            outgoing.push(Vec::new());
            t = t + 1;
        }
        assert forall|u: int| 0 <= u < n implies as_ints((#[trigger] incoming[u])@)
            == input_conns_upto(sh, u, 0) && as_ints((#[trigger] outgoing[u])@)
            == output_conns_upto(sh, u, 0) by {
            assert(as_ints(incoming[u]@) =~= Seq::empty());
            assert(as_ints(outgoing[u]@) =~= Seq::empty());
        }
        let mut i: usize = 0;
        while i < net.connections.len()
            invariant
                i <= net.connections.len(),
                net.wf(),
                sh == net.shape(),
                incoming.len() == n,
                outgoing.len() == n,
                n == net.transitions.len(),
                forall|u: int|
                    0 <= u < n ==> as_ints((#[trigger] incoming[u])@) == input_conns_upto(
                        sh,
                        u,
                        i as int,
                    ),
                forall|u: int|
                    0 <= u < n ==> as_ints((#[trigger] outgoing[u])@) == output_conns_upto(
                        sh,
                        u,
                        i as int,
                    ),
            decreases net.connections.len() - i,
        {
            let c = &net.connections[i];
            let tr = c.transition;
            let ghost old_incoming = incoming@;
            let ghost old_outgoing = outgoing@;
            match c.input_from {
                InputFrom::PLACE => {
                    incoming[tr].push(i);
                    assert(as_ints(incoming[tr as int]@) =~= as_ints(old_incoming[tr as int]@).push(
                        i as int,
                    ));
                },
                InputFrom::TRANSITION => {
                    outgoing[tr].push(i);
                    assert(as_ints(outgoing[tr as int]@) =~= as_ints(old_outgoing[tr as int]@).push(
                        i as int,
                    ));
                },
            }
            i = i + 1;
        }
        (incoming, outgoing)
    }

    /// Builds the contested-place index: the places drawn on by at least two
    /// connections, each with the list of those connections.
    fn check_concurrency(net: &PetriNet) -> (r: (Vec<usize>, Vec<Vec<usize>>))
        requires
            net.wf(),
        ensures
            as_ints(r.0@) == contested_places(net.shape()),
            r.1.len() == r.0.len(),
            forall|g: int|
                0 <= g < r.1.len() ==> as_ints((#[trigger] r.1[g])@) == feed_conns(
                    net.shape(),
                    r.0[g] as int,
                ),
    {
        let ghost sh = net.shape();
        let n = net.places.len();
        let mut feeds: Vec<Vec<usize>> = Vec::new();
        let mut p: usize = 0;
        while p < n
            invariant
                p <= n,
                feeds.len() == p,
                forall|u: int| 0 <= u < p ==> (#[trigger] feeds[u])@.len() == 0,
            decreases n - p,
        {
            feeds.push(Vec::new());
            p = p + 1;
        }
        assert forall|u: int| 0 <= u < n implies as_ints((#[trigger] feeds[u])@)
            == feed_conns_upto(sh, u, 0) by {
            assert(as_ints(feeds[u]@) =~= Seq::empty());
        }
        let mut i: usize = 0;
        while i < net.connections.len()
            invariant
                i <= net.connections.len(),
                net.wf(),
                sh == net.shape(),
                feeds.len() == n,
                n == net.places.len(),
                forall|u: int|
                    0 <= u < n ==> as_ints((#[trigger] feeds[u])@) == feed_conns_upto(
                        sh,
                        u,
                        i as int,
                    ),
            decreases net.connections.len() - i,
        {
            let c = &net.connections[i];
            let ghost old_feeds = feeds@;
            match c.input_from {
                InputFrom::PLACE => {
                    let pl = c.place;
                    feeds[pl].push(i);
                    assert(as_ints(feeds[pl as int]@) =~= as_ints(old_feeds[pl as int]@).push(
                        i as int,
                    ));
                },
                InputFrom::TRANSITION => {},
            }
            i = i + 1;
        }
        let mut concurrent_places: Vec<usize> = Vec::new();
        let mut concurrent_groups: Vec<Vec<usize>> = Vec::new();
        let mut p: usize = 0;
        while p < n
            invariant
                p <= n,
                feeds.len() == n,
                n == net.places.len(),
                sh == net.shape(),
                forall|u: int|
                    0 <= u < n ==> as_ints((#[trigger] feeds[u])@) == feed_conns(sh, u),
                as_ints(concurrent_places@) == contested_upto(sh, p as int),
                concurrent_groups.len() == concurrent_places.len(),
                forall|g: int|
                    0 <= g < concurrent_groups.len() ==> as_ints((#[trigger] concurrent_groups[g])@)
                        == feed_conns(sh, concurrent_places[g] as int),
            decreases n - p,
        {
            let ghost old_places = concurrent_places@;
            if feeds[p].len() >= 2 {
                assert(feed_conns(sh, p as int).len() >= 2);
                concurrent_places.push(p);
                concurrent_groups.push(feeds[p].clone());
                assert(as_ints(concurrent_places@) =~= as_ints(old_places).push(p as int));
            } else {
                assert(feed_conns(sh, p as int).len() < 2);
            }
            p = p + 1;
        }
        (concurrent_places, concurrent_groups)
    }

    /// Builds an engine for `net`, deriving the connection index eagerly.
    /// Fails exactly when the net's structural invariants do not hold.
    pub fn new(net: PetriNet) -> (r: Result<Simulation, SimError>)
        ensures
            r is Ok <==> net.wf(),
            match r {
                Ok(sim) => sim.wf() && sim.net == net && sim.rows@.len() == 0,
                Err(e) => e == SimError::InvariantViolation,
            },
    {
        if !Self::check_well_formed(&net) {
            return Err(SimError::InvariantViolation);
        }
        let (incoming_connections, outgoing_connections) = Self::scan_connections(&net);
        let (concurrent_places, concurrent_groups) = Self::check_concurrency(&net);
        Ok(
            Simulation {
                net,
                incoming_connections,
                outgoing_connections,
                concurrent_places,
                concurrent_groups,
                rows: Vec::new(),
            },
        )
    }

    /// Whether the single input connection `connection` is satisfied by the
    /// token count of `place`: a NORMAL edge is satisfied exactly when the
    /// place holds at least `weight` tokens, an INHIBITOR edge exactly when
    /// it holds fewer than `weight`, and a RESET edge always.
    pub fn place_matches_requirement(&self, place: &Place, connection: &Connection) -> (r: bool)
        ensures
            r == guard_sat(connection.con_type, connection.weight as int, place.tokens as int),
            connection.con_type == ConnectionType::NORMAL ==> (r <==> place.tokens
                >= connection.weight),
            connection.con_type == ConnectionType::INHIBITOR ==> (r <==> place.tokens
                < connection.weight),
            connection.con_type == ConnectionType::RESET ==> r,
    {
        let tokens = place.tokens();
        match connection.connection_type() {
            ConnectionType::NORMAL => connection.weight() <= tokens,
            ConnectionType::INHIBITOR => connection.weight() > tokens,
            ConnectionType::RESET => true,
        }
    }

    /// Whether transition `transition` is enabled under the net's current
    /// marking: all of its input connections satisfy their guards.
    pub fn transition_enabled(&self, transition: usize) -> (r: bool)
        requires
            self.wf(),
            transition < self.net.transitions.len(),
        ensures
            r == trans_enabled(self.net.shape(), marking_of(self.net), transition as int),
    {
        let ghost sh = self.net.shape();
        let ghost m = marking_of(self.net);
        let ghost t = transition as int;
        let list = &self.incoming_connections[transition];
        proof {
            lemma_matching_upto(input_pred(sh, t), sh.conns.len() as int);
        }
        let mut k: usize = 0;
        while k < list.len()
            invariant
                self.wf(),
                sh == self.net.shape(),
                m == marking_of(self.net),
                t == transition as int,
                0 <= t < self.net.transitions.len(),
                list == &self.incoming_connections[t],
                as_ints(list@) == input_conns(sh, t),
                k <= list.len(),
                forall|j: int|
                    0 <= j < k ==> guard_sat(
                        sh.conns[#[trigger] (list@[j]) as int].con_type,
                        sh.conns[list@[j] as int].weight as int,
                        m[sh.conns[list@[j] as int].place as int],
                    ),
            decreases list.len() - k,
        {
            proof {
                lemma_matching_upto(input_pred(sh, t), sh.conns.len() as int);
                assert(as_ints(list@)[k as int] == list@[k as int] as int);
            }
            let ci = list[k];
            assert(is_input_conn(sh, ci as int, t));
            let c = &self.net.connections[ci];
            let p = &self.net.places[c.place];
            assert(m[c.place as int] == p.tokens as int);
            if !self.place_matches_requirement(p, c) {
                assert(!trans_enabled(sh, m, t));
                return false;
            }
            k = k + 1;
        }
        proof {
            lemma_matching_upto(input_pred(sh, t), sh.conns.len() as int);
            assert forall|i: int| 0 <= i < sh.conns.len() && #[trigger] is_input_conn(sh, i, t)
                implies guard_sat(
                sh.conns[i].con_type,
                sh.conns[i].weight as int,
                m[sh.conns[i].place as int],
            ) by {
                assert(input_pred(sh, t)(i));
                assert(input_conns(sh, t).contains(i));
                let kk = choose|kk: int|
                    0 <= kk < input_conns(sh, t).len() && input_conns(sh, t)[kk] == i;
                assert(as_ints(list@)[kk] == i);
                assert(list@[kk] as int == i);
            }
        }
        true
    }

    /// Arbitrates contention: for every contested place whose enabled
    /// candidate set holds at least two connections, keeps exactly one
    /// candidate and demotes the target transitions of all others. The
    /// winner at each place comes from the matching entry of `choices`
    /// (reduced modulo the candidate count), or, when no choices are given,
    /// from a fresh uniformly random draw. Returns the picks that were used.
    fn arbitrate(&self, enabled: &mut Vec<bool>, choices: Option<&Vec<usize>>) -> (picks: Ghost<
        Seq<int>,
    >)
        requires
            self.wf(),
            old(enabled).len() == self.net.transitions.len(),
            match choices {
                Some(c) => c@.len() == contested_places(self.net.shape()).len(),
                None => true,
            },
        ensures
            picks@.len() == contested_places(self.net.shape()).len(),
            forall|j: int| 0 <= j < picks@.len() ==> #[trigger] picks@[j] >= 0,
            final(enabled)@.len() == old(enabled)@.len(),
            final(enabled)@ == arbitrated(self.net.shape(), old(enabled)@, picks@),
            match choices {
                Some(c) => picks@ == as_ints(c@),
                None => true,
            },
    {
        let ghost sh = self.net.shape();
        let ghost en0 = enabled@;
        let ghost cps = contested_places(sh);
        let mut picks: Ghost<Seq<int>> = Ghost(Seq::empty());
        let n_groups = self.concurrent_groups.len();
        proof {
            assert(as_ints(self.concurrent_places@).len() == cps.len());
        }
        proof {
            if let Some(c) = choices {
                assert(picks@ =~= as_ints(c@).take(0));
            }
        }
        let mut g: usize = 0;
        while g < n_groups
            invariant
                self.wf(),
                sh == self.net.shape(),
                cps == contested_places(sh),
                n_groups == self.concurrent_groups.len(),
                n_groups == cps.len(),
                g <= n_groups,
                enabled.len() == en0.len(),
                en0.len() == self.net.transitions.len(),
                picks@.len() == g,
                forall|j: int| 0 <= j < picks@.len() ==> #[trigger] picks@[j] >= 0,
                enabled@ == arb_upto(sh, en0, picks@, g as int),
                match choices {
                    Some(c) => c@.len() == cps.len() && picks@ == as_ints(c@).take(g as int),
                    None => true,
                },
            decreases n_groups - g,
        {
            let ghost p_g = cps[g as int];
            let group = &self.concurrent_groups[g];
            let ghost gs = as_ints(group@);
            proof {
                assert(as_ints(self.concurrent_places@)[g as int] == p_g);
                assert(self.concurrent_places@[g as int] as int == p_g);
                assert(gs == feed_conns(sh, p_g));
                lemma_matching_upto(feed_pred(sh, p_g), sh.conns.len() as int);
            }
            // Collect the candidates: the group members whose target is enabled.
            let ghost en_g = enabled@;
            let mut s: Vec<usize> = Vec::new();
            let mut k: usize = 0;
            while k < group.len()
                invariant
                    self.wf(),
                    sh == self.net.shape(),
                    group == &self.concurrent_groups[g as int],
                    g < self.concurrent_groups.len(),
                    gs == as_ints(group@),
                    forall|x: int| 0 <= x < gs.len() ==> 0 <= #[trigger] gs[x] < sh.conns.len(),
                    en_g == enabled@,
                    enabled.len() == self.net.transitions.len(),
                    k <= group.len(),
                    as_ints(s@) == enabled_feed_subset(sh, en_g, gs.take(k as int)),
                    forall|x: int|
                        0 <= x < s@.len() ==> (((#[trigger] s@[x]) as int) < sh.conns.len()),
                decreases group.len() - k,
            {
                let ci = group[k];
                proof {
                    assert(gs[k as int] == ci as int);
                }
                let tr = self.net.connections[ci].transition;
                let ghost old_s = s@;
                if enabled[tr] {
                    s.push(ci);
                }
                proof {
                    assert(gs.take(k as int + 1).drop_last() =~= gs.take(k as int));
                    assert(gs.take(k as int + 1).last() == ci as int);
                    if enabled@[tr as int] {
                        assert(as_ints(s@) =~= as_ints(old_s).push(ci as int));
                    }
                }
                k = k + 1;
            }
            proof {
                assert(gs.take(group.len() as int) =~= gs);
            }
            let ghost s_spec = as_ints(s@);
            let ghost mut pick_used: int = 0;
            if s.len() >= 2 {
                let pick: usize = match choices {
                    Some(c) => c[g],
                    None => random_below(s.len()),
                };
                let w = pick % s.len();
                proof {
                    pick_used = pick as int;
                    assert(w as int == pick_used % (s_spec.len() as int));
                }
                let ghost en_before = enabled@;
                let mut j: usize = 0;
                while j < s.len()
                    invariant
                        self.wf(),
                        sh == self.net.shape(),
                        s_spec == as_ints(s@),
                        forall|x: int|
                            0 <= x < s@.len() ==> (((#[trigger] s@[x]) as int) < sh.conns.len()),
                        enabled.len() == en_before.len(),
                        en_before.len() == self.net.transitions.len(),
                        j <= s.len(),
                        w < s.len(),
                        enabled@ == Seq::new(
                            en_before.len(),
                            |t: int|
                                en_before[t] && !(exists|jj: int|
                                    0 <= jj < j && jj != w && sh.conns[#[trigger] s_spec[jj]].transition
                                        == t),
                        ),
                    decreases s.len() - j,
                {
                    let ghost en_prev = enabled@;
                    if j != w {
                        let ci = s[j];
                        let tr = self.net.connections[ci].transition;
                        enabled[tr] = false;
                        proof {
                            assert forall|t: int| 0 <= t < en_before.len() implies enabled@[t]
                                == (en_before[t] && !(exists|jj: int|
                                0 <= jj < j + 1 && jj != w && sh.conns[#[trigger] s_spec[jj]].transition
                                    == t)) by {
                                if t == tr as int {
                                    assert(sh.conns[s_spec[j as int]].transition == t);
                                } else {
                                    assert(enabled@[t] == en_prev[t]);
                                    assert forall|jj: int|
                                        0 <= jj < j + 1 && jj != w && sh.conns[#[trigger] s_spec[jj]].transition
                                            == t implies jj < j by {}
                                }
                            }
                        }
                    } else {
                        proof {
                            assert forall|t: int| 0 <= t < en_before.len() implies enabled@[t]
                                == (en_before[t] && !(exists|jj: int|
                                0 <= jj < j + 1 && jj != w && sh.conns[#[trigger] s_spec[jj]].transition
                                    == t)) by {
                                assert forall|jj: int|
                                    0 <= jj < j + 1 && jj != w && sh.conns[#[trigger] s_spec[jj]].transition
                                        == t implies jj < j by {}
                            }
                        }
                    }
                    proof {
                        assert(enabled@ =~= Seq::new(
                            en_before.len(),
                            |t: int|
                                en_before[t] && !(exists|jj: int|
                                    0 <= jj < j + 1 && jj != w && sh.conns[#[trigger] s_spec[jj]].transition
                                        == t),
                        ));
                    }
                    j = j + 1;
                }
                proof {
                    assert(enabled@ =~= demote_losers(sh, en_before, s_spec, w as int));
                    assert(s_spec == enabled_feed_subset(sh, en_g, gs));
                    assert(s_spec.len() >= 2);
                    assert(enabled@ == arb_group(sh, en_g, gs, pick_used));
                }
            } else {
                proof {
                    if let Some(c) = choices {
                        pick_used = c@[g as int] as int;
                    }
                    assert(s_spec.len() < 2);
                    assert(enabled@ == arb_group(sh, en_g, gs, pick_used));
                }
            }
            proof {
                let new_picks = picks@.push(pick_used);
                lemma_arb_upto_prefix(sh, en0, picks@, new_picks, g as int);
                assert(new_picks[g as int] == pick_used);
                assert(arb_upto(sh, en0, new_picks, g as int + 1) == arb_group(
                    sh,
                    arb_upto(sh, en0, new_picks, g as int),
                    feed_conns(sh, cps[g as int]),
                    pick_used,
                ));
                assert(arb_upto(sh, en0, new_picks, g as int) == arb_upto(
                    sh,
                    en0,
                    picks@,
                    g as int,
                ));
                assert(enabled@ == arb_upto(sh, en0, new_picks, g as int + 1));
            }
            proof {
                if let Some(c) = choices {
                    assert(as_ints(c@)[g as int] == c@[g as int] as int);
                    assert(picks@.push(pick_used) =~= as_ints(c@).take(g as int + 1));
                }
            }
            picks = Ghost(picks@.push(pick_used));
            g = g + 1;
        }
        proof {
            assert(picks@.len() == cps.len());
            match choices {
                Some(c) => {
                    assert(picks@ =~= as_ints(c@));
                },
                None => {},
            }
        }
        picks
    }

    /// Consumes tokens over every input connection of `transition`, in net
    /// order: NORMAL subtracts the weight, INHIBITOR leaves the place alone,
    /// RESET clears it. Fails exactly when a subtraction would leave the
    /// counter's range, leaving the marking partially consumed.
    fn consume_tokens(&mut self, transition: usize) -> (r: Result<(), SimError>)
        requires
            old(self).wf(),
            transition < old(self).net.transitions.len(),
        ensures
            final(self).wf(),
            same_structure(old(self).net, final(self).net),
            same_index(*old(self), *final(self)),
            final(self).rows == old(self).rows,
            ({
                let sh = old(self).net.shape();
                let m0 = marking_of(old(self).net);
                let list = input_conns(sh, transition as int);
                match r {
                    Ok(()) => consume_list_ok(sh, m0, list) && marking_of(final(self).net)
                        == consume_list(sh, m0, list),
                    Err(e) => e == SimError::MarkingOverflow && !consume_list_ok(sh, m0, list),
                }
            }),
    {
        let ghost sh = self.net.shape();
        let ghost m0 = marking_of(self.net);
        let ghost t = transition as int;
        let ghost list = input_conns(sh, t);
        let n_list = self.incoming_connections[transition].len();
        let mut k: usize = 0;
        while k < n_list
            invariant
                self.wf(),
                sh == self.net.shape(),
                t == transition as int,
                0 <= t < self.net.transitions.len(),
                list == input_conns(sh, t),
                n_list == self.incoming_connections[t]@.len(),
                same_structure(old(self).net, self.net),
                same_index(*old(self), *self),
                self.rows == old(self).rows,
                m0 == marking_of(old(self).net),
                k <= n_list,
                consume_list_ok(sh, m0, list.take(k as int)),
                marking_of(self.net) == consume_list(sh, m0, list.take(k as int)),
            decreases n_list - k,
        {
            proof {
                lemma_matching_upto(input_pred(sh, t), sh.conns.len() as int);
                assert(as_ints(self.incoming_connections[t]@)[k as int] == list[k as int]);
            }
            let ci = self.incoming_connections[transition][k];
            assert(ci as int == list[k as int]);
            assert(0 <= ci < sh.conns.len());
            let c_place = self.net.connections[ci].place;
            let c_weight = self.net.connections[ci].weight;
            let c_type = self.net.connections[ci].con_type;
            let ghost m_prev = marking_of(self.net);
            let ghost prev_net = self.net;
            assert(m_prev[c_place as int] == self.net.places[c_place as int].tokens as int);
            proof {
                assert(list.take(k as int + 1).drop_last() =~= list.take(k as int));
                assert(list.take(k as int + 1).last() == list[k as int]);
            }
            match c_type {
                ConnectionType::NORMAL => {
                    let cur = self.net.places[c_place].tokens();
                    match cur.checked_sub(c_weight) {
                        Some(_) => {
                            self.net.places[c_place].remove_tokens(c_weight);
                        },
                        None => {
                            proof {
                                assert(!consume_effect_ok(sh, m_prev, list[k as int]));
                                assert(!consume_list_ok(sh, m0, list.take(k as int + 1)));
                                lemma_consume_list_ok_prefix(sh, m0, list, k as int + 1);
                            }
                            return Err(SimError::MarkingOverflow);
                        },
                    }
                },
                ConnectionType::INHIBITOR => {},
                ConnectionType::RESET => {
                    self.net.places[c_place].clear_tokens();
                },
            }
            proof {
                lemma_same_structure_update(prev_net, self.net, c_place as int);
                lemma_same_structure_trans(old(self).net, prev_net, self.net);
                assert(marking_of(self.net) =~= consume_effect(sh, m_prev, list[k as int]));
            }
            k = k + 1;
        }
        proof {
            assert(list.take(n_list as int) =~= list);
        }
        Ok(())
    }

    /// Propagates tokens over every output connection of `transition`, in
    /// net order, adding each connection's weight to its place. Fails exactly
    /// when an addition would leave the counter's range.
    fn propagate_tokens(&mut self, transition: usize) -> (r: Result<(), SimError>)
        requires
            old(self).wf(),
            transition < old(self).net.transitions.len(),
        ensures
            final(self).wf(),
            same_structure(old(self).net, final(self).net),
            same_index(*old(self), *final(self)),
            final(self).rows == old(self).rows,
            ({
                let sh = old(self).net.shape();
                let m0 = marking_of(old(self).net);
                let list = output_conns(sh, transition as int);
                match r {
                    Ok(()) => propagate_list_ok(sh, m0, list) && marking_of(final(self).net)
                        == propagate_list(sh, m0, list),
                    Err(e) => e == SimError::MarkingOverflow && !propagate_list_ok(sh, m0, list),
                }
            }),
    {
        let ghost sh = self.net.shape();
        let ghost m0 = marking_of(self.net);
        let ghost t = transition as int;
        let ghost list = output_conns(sh, t);
        let n_list = self.outgoing_connections[transition].len();
        let mut k: usize = 0;
        while k < n_list
            invariant
                self.wf(),
                sh == self.net.shape(),
                t == transition as int,
                0 <= t < self.net.transitions.len(),
                list == output_conns(sh, t),
                n_list == self.outgoing_connections[t]@.len(),
                same_structure(old(self).net, self.net),
                same_index(*old(self), *self),
                self.rows == old(self).rows,
                m0 == marking_of(old(self).net),
                k <= n_list,
                propagate_list_ok(sh, m0, list.take(k as int)),
                marking_of(self.net) == propagate_list(sh, m0, list.take(k as int)),
            decreases n_list - k,
        {
            proof {
                lemma_matching_upto(output_pred(sh, t), sh.conns.len() as int);
                assert(as_ints(self.outgoing_connections[t]@)[k as int] == list[k as int]);
            }
            let ci = self.outgoing_connections[transition][k];
            assert(ci as int == list[k as int]);
            assert(0 <= ci < sh.conns.len());
            let c_place = self.net.connections[ci].place;
            let c_weight = self.net.connections[ci].weight;
            let ghost m_prev = marking_of(self.net);
            let ghost prev_net = self.net;
            assert(m_prev[c_place as int] == self.net.places[c_place as int].tokens as int);
            proof {
                assert(list.take(k as int + 1).drop_last() =~= list.take(k as int));
                assert(list.take(k as int + 1).last() == list[k as int]);
            }
            let cur = self.net.places[c_place].tokens();
            match cur.checked_add(c_weight) {
                Some(_) => {
                    self.net.places[c_place].add_tokens(c_weight);
                },
                None => {
                    proof {
                        assert(!propagate_effect_ok(sh, m_prev, list[k as int]));
                        assert(!propagate_list_ok(sh, m0, list.take(k as int + 1)));
                        lemma_propagate_list_ok_prefix(sh, m0, list, k as int + 1);
                    }
                    return Err(SimError::MarkingOverflow);
                },
            }
            proof {
                lemma_same_structure_update(prev_net, self.net, c_place as int);
                lemma_same_structure_trans(old(self).net, prev_net, self.net);
                assert(marking_of(self.net) =~= propagate_effect(sh, m_prev, list[k as int]));
            }
            k = k + 1;
        }
        proof {
            assert(list.take(n_list as int) =~= list);
        }
        Ok(())
    }

    /// Fires every transition whose flag is set in `enabled`, in arena
    /// order, against the live marking, then records one trace row holding
    /// the pre-cycle snapshot `marks` and the fired set. Returns whether any
    /// transition fired; fails exactly when a token update would leave the
    /// counter's range, and then records nothing.
    fn run_cycle(&mut self, marks: Vec<i32>, enabled: Vec<bool>) -> (r: Result<bool, SimError>)
        requires
            old(self).wf(),
            marks@.len() == old(self).net.places.len(),
            marks_of(marks@) == marking_of(old(self).net),
            enabled@.len() == old(self).net.transitions.len(),
        ensures
            final(self).wf(),
            same_structure(old(self).net, final(self).net),
            same_index(*old(self), *final(self)),
            ({
                let sh = old(self).net.shape();
                let m0 = marking_of(old(self).net);
                let fired = enabled@;
                match r {
                    Ok(b) => {
                        &&& fire_all_ok(sh, m0, fired)
                        &&& marking_of(final(self).net) == fire_all(sh, m0, fired)
                        &&& b == any_fired(fired)
                        &&& final(self).rows@.last().cycle == old(self).rows@.len()
                        &&& final(self).rows@ == old(self).rows@.push(
                            (TraceRow {
                                cycle: old(self).rows@.len() as usize,
                                marks,
                                fired: enabled,
                            }),
                        )
                    },
                    Err(e) => {
                        &&& e == SimError::MarkingOverflow
                        &&& !fire_all_ok(sh, m0, fired)
                        &&& final(self).rows == old(self).rows
                    },
                }
            }),
    {
        let ghost sh = self.net.shape();
        let ghost m0 = marking_of(self.net);
        let ghost fired = enabled@;
        let n_trans = self.net.transitions.len();
        let mut fired_any = false;
        let mut t: usize = 0;
        while t < n_trans
            invariant
                self.wf(),
                sh == self.net.shape(),
                same_structure(old(self).net, self.net),
                same_index(*old(self), *self),
                self.rows == old(self).rows,
                m0 == marking_of(old(self).net),
                fired == enabled@,
                enabled@.len() == n_trans,
                n_trans == self.net.transitions.len(),
                sh.n_trans == n_trans,
                t <= n_trans,
                fire_ok_upto(sh, m0, fired, t as int),
                marking_of(self.net) == fire_upto(sh, m0, fired, t as int),
                fired_any == (exists|u: int| 0 <= u < t && fired[u]),
            decreases n_trans - t,
        {
            if enabled[t] {
                let ghost m_t = marking_of(self.net);
                let ghost net_a = self.net;
                match self.consume_tokens(t) {
                    Ok(()) => {},
                    Err(e) => {
                        proof {
                            lemma_same_structure_trans(old(self).net, net_a, self.net);
                            assert(!fire_transition_ok(sh, m_t, t as int));
                            assert(!fire_ok_upto(sh, m0, fired, t as int + 1));
                            lemma_fire_ok_prefix(sh, m0, fired, t as int + 1, sh.n_trans);
                        }
                        return Err(e);
                    },
                }
                let ghost net_b = self.net;
                proof {
                    lemma_same_structure_trans(old(self).net, net_a, net_b);
                }
                match self.propagate_tokens(t) {
                    Ok(()) => {},
                    Err(e) => {
                        proof {
                            lemma_same_structure_trans(old(self).net, net_b, self.net);
                            assert(!fire_transition_ok(sh, m_t, t as int));
                            assert(!fire_ok_upto(sh, m0, fired, t as int + 1));
                            lemma_fire_ok_prefix(sh, m0, fired, t as int + 1, sh.n_trans);
                        }
                        return Err(e);
                    },
                }
                fired_any = true;
                proof {
                    lemma_same_structure_trans(old(self).net, net_b, self.net);
                    assert(marking_of(self.net) == fire_transition(sh, m_t, t as int));
                }
            }
            t = t + 1;
        }
        let cycle = self.rows.len();
        self.rows.push(TraceRow { cycle, marks, fired: enabled });
        Ok(fired_any)
    }

    /// Runs one full cycle: snapshot the marking, evaluate the enabled set,
    /// arbitrate (with the given choices, or randomly), fire the survivors,
    /// and record the trace row. Returns the picks that arbitration used.
    fn cycle(&mut self, choices: Option<&Vec<usize>>) -> (res: (
        Result<bool, SimError>,
        Ghost<Seq<int>>,
    ))
        requires
            old(self).wf(),
            match choices {
                Some(c) => c@.len() == contested_places(old(self).net.shape()).len(),
                None => true,
            },
        ensures
            final(self).wf(),
            same_structure(old(self).net, final(self).net),
            same_index(*old(self), *final(self)),
            cycle_post(*old(self), *final(self), res.1@, res.0),
            match choices {
                Some(c) => res.1@ == as_ints(c@),
                None => true,
            },
    {
        let ghost sh = self.net.shape();
        let ghost m0 = marking_of(self.net);
        let n_places = self.net.places.len();
        let mut marks: Vec<i32> = Vec::new();
        let mut i: usize = 0;
        while i < n_places
            invariant
                self.wf(),
                sh == self.net.shape(),
                m0 == marking_of(self.net),
                n_places == self.net.places.len(),
                i <= n_places,
                marks@.len() == i,
                forall|k: int| 0 <= k < i ==> marks@[k] == self.net.places[k].tokens,
            decreases n_places - i,
        {
            marks.push(self.net.places[i].tokens());
            i = i + 1;
        }
        proof {
            assert(marks_of(marks@) =~= m0);
        }
        let n_trans = self.net.transitions.len();
        let mut enabled: Vec<bool> = Vec::new();
        let mut t: usize = 0;
        while t < n_trans
            invariant
                self.wf(),
                sh == self.net.shape(),
                m0 == marking_of(self.net),
                n_trans == self.net.transitions.len(),
                t <= n_trans,
                enabled@.len() == t,
                forall|u: int| 0 <= u < t ==> enabled@[u] == trans_enabled(sh, m0, u),
            decreases n_trans - t,
        {
            let e = self.transition_enabled(t);
            enabled.push(e);
            t = t + 1;
        }
        proof {
            assert(enabled@ =~= enabled_map(sh, m0));
        }
        let picks = self.arbitrate(&mut enabled, choices);
        proof {
            assert(enabled@ == cycle_fired(sh, m0, picks@));
        }
        let r = self.run_cycle(marks, enabled);
        (r, picks)
    }

    /// Performs exactly one cycle, choosing arbitration winners uniformly at
    /// random, and reports whether anything fired (`Ok(false)` means the
    /// cycle was idle). Fails exactly when a token update would leave the
    /// counter's range.
    pub fn step(&mut self) -> (r: Result<bool, SimError>)
        requires
            old(self).wf(),
        ensures
            final(self).wf(),
            same_structure(old(self).net, final(self).net),
            same_index(*old(self), *final(self)),
            exists|picks: Seq<int>| #[trigger] cycle_post(*old(self), *final(self), picks, r),
    {
        let (r, picks) = self.cycle(None);
        proof {
            assert(cycle_post(*old(self), *final(self), picks@, r));
        }
        r
    }

    /// Performs exactly one cycle like `step`, but takes the arbitration
    /// choices from the caller: at the contested place of index `g` among
    /// the contested places (in increasing place order), the winning
    /// candidate is `choices[g]` reduced modulo the number of enabled
    /// candidates. Deterministic drivers and tests inject their random
    /// source here.
    pub fn step_with_choices(&mut self, choices: &Vec<usize>) -> (r: Result<bool, SimError>)
        requires
            old(self).wf(),
            choices@.len() == contested_places(old(self).net.shape()).len(),
        ensures
            final(self).wf(),
            same_structure(old(self).net, final(self).net),
            same_index(*old(self), *final(self)),
            cycle_post(*old(self), *final(self), as_ints(choices@), r),
    {
        let (r, picks) = self.cycle(Some(choices));
        proof {
            assert(picks@ == as_ints(choices@));
        }
        r
    }

    /// Drives the run loop to quiescence: repeats cycles until one fires
    /// nothing, recording one trace row per cycle, the terminal all-idle
    /// cycle included. Every appended row records a genuine arbitration
    /// outcome of its own marking snapshot, consecutive appended rows are
    /// linked by the cycle semantics, and on success the final row is the
    /// first and only appended row in which no transition fired. Fails when
    /// some cycle would drive a token count outside its counter's range, or
    /// when the trace reaches the machine's limit on vector length; the rows
    /// recorded up to that cycle remain.
    pub fn run(&mut self) -> (r: Result<(), SimError>)
        requires
            old(self).wf(),
        ensures
            final(self).wf(),
            same_structure(old(self).net, final(self).net),
            same_index(*old(self), *final(self)),
            ({
                let sh = old(self).net.shape();
                let pre_len = old(self).rows@.len() as int;
                let rows = final(self).rows@;
                &&& rows.len() >= pre_len
                &&& forall|i: int| 0 <= i < pre_len ==> rows[i] == old(self).rows@[i]
                &&& forall|i: int|
                    pre_len <= i < rows.len() ==> {
                        let row = #[trigger] rows[i];
                        &&& row.cycle == i
                        &&& row.marks@.len() == old(self).net.places.len()
                        &&& row.fired@.len() == old(self).net.transitions.len()
                        &&& exists|picks: Seq<int>|
                            picks_wf(sh, picks) && row.fired@ == cycle_fired(
                                sh,
                                marks_of(row.marks@),
                                picks,
                            )
                    }
                &&& forall|i: int|
                    pre_len <= i && i + 1 < rows.len() ==> exists|picks: Seq<int>|
                        {
                            &&& picks_wf(sh, picks)
                            &&& (#[trigger] rows[i]).fired@ == cycle_fired(
                                sh,
                                marks_of(rows[i].marks@),
                                picks,
                            )
                            &&& cycle_ok(sh, marks_of(rows[i].marks@), picks)
                            &&& marks_of(rows[i + 1].marks@) == cycle_marking(
                                sh,
                                marks_of(rows[i].marks@),
                                picks,
                            )
                        }
                &&& (rows.len() > pre_len ==> marks_of(rows[pre_len].marks@) == marking_of(
                    old(self).net,
                ))
                &&& match r {
                    Ok(()) => {
                        &&& rows.len() > pre_len
                        &&& !any_fired(rows.last().fired@)
                        &&& forall|i: int|
                            pre_len <= i < rows.len() - 1 ==> any_fired(
                                (#[trigger] rows[i]).fired@,
                            )
                        &&& marking_of(final(self).net) == marks_of(rows.last().marks@)
                    },
                    Err(e) => {
                        &&& (e == SimError::MarkingOverflow || e == SimError::TraceOverflow)
                        &&& (e == SimError::TraceOverflow ==> rows.len() == usize::MAX)
                        &&& (e == SimError::MarkingOverflow ==> exists|m_fail: Seq<int>, picks: Seq<int>|
                            {
                                &&& trace_resumes_at(
                                    sh,
                                    marking_of(old(self).net),
                                    rows.skip(pre_len),
                                    m_fail,
                                )
                                &&& picks_wf(sh, picks)
                                &&& !cycle_ok(sh, m_fail, picks)
                            })
                        &&& forall|i: int|
                            pre_len <= i < rows.len() ==> any_fired((#[trigger] rows[i]).fired@)
                    },
                }
            }),
    {
        let ghost sh = old(self).net.shape();
        let ghost pre_len = old(self).rows@.len() as int;
        loop
            invariant
                self.wf(),
                same_structure(old(self).net, self.net),
                same_index(*old(self), *self),
                sh == old(self).net.shape(),
                sh == self.net.shape(),
                pre_len == old(self).rows@.len() as int,
                self.rows@.len() >= pre_len,
                forall|i: int| 0 <= i < pre_len ==> self.rows@[i] == old(self).rows@[i],
                forall|i: int|
                    pre_len <= i < self.rows@.len() ==> {
                        let row = #[trigger] self.rows@[i];
                        &&& row.cycle == i
                        &&& row.marks@.len() == old(self).net.places.len()
                        &&& row.fired@.len() == old(self).net.transitions.len()
                        &&& any_fired(row.fired@)
                        &&& exists|picks: Seq<int>|
                            picks_wf(sh, picks) && row.fired@ == cycle_fired(
                                sh,
                                marks_of(row.marks@),
                                picks,
                            )
                    },
                forall|i: int|
                    pre_len <= i && i + 1 < self.rows@.len() ==> exists|picks: Seq<int>|
                        {
                            &&& picks_wf(sh, picks)
                            &&& (#[trigger] self.rows@[i]).fired@ == cycle_fired(
                                sh,
                                marks_of(self.rows@[i].marks@),
                                picks,
                            )
                            &&& cycle_ok(sh, marks_of(self.rows@[i].marks@), picks)
                            &&& marks_of(self.rows@[i + 1].marks@) == cycle_marking(
                                sh,
                                marks_of(self.rows@[i].marks@),
                                picks,
                            )
                        },
                self.rows@.len() > pre_len ==> marks_of(self.rows@[pre_len].marks@)
                    == marking_of(old(self).net),
                self.rows@.len() > pre_len ==> exists|picks: Seq<int>|
                    {
                        &&& picks_wf(sh, picks)
                        &&& self.rows@.last().fired@ == cycle_fired(
                            sh,
                            marks_of(self.rows@.last().marks@),
                            picks,
                        )
                        &&& cycle_ok(sh, marks_of(self.rows@.last().marks@), picks)
                        &&& marking_of(self.net) == cycle_marking(
                            sh,
                            marks_of(self.rows@.last().marks@),
                            picks,
                        )
                    },
                self.rows@.len() == pre_len ==> self.rows == old(self).rows
                    && marking_of(self.net) == marking_of(old(self).net),
            decreases usize::MAX - self.rows.len(),
        {
            if self.rows.len() == usize::MAX {
                return Err(SimError::TraceOverflow);
            }
            let ghost prev = *self;
            let step_result = self.step();
            proof {
                let picks = choose|picks: Seq<int>|
                    cycle_post(prev, *self, picks, step_result);
                assert(cycle_post(prev, *self, picks, step_result));
                lemma_same_structure_trans(old(self).net, prev.net, self.net);
                if step_result is Ok {
                    assert(self.rows@.len() == prev.rows@.len() + 1);
                    assert(self.rows@.last() == self.rows@[self.rows@.len() - 1]);
                }
            }
            match step_result {
                Ok(true) => {},
                Ok(false) => {
                    proof {
                        let picks = choose|picks: Seq<int>|
                            cycle_post(prev, *self, picks, step_result);
                        let fired = self.rows@.last().fired@;
                        assert(!any_fired(fired));
                        assert(forall|u: int| 0 <= u < fired.len() ==> !fired[u]);
                        lemma_fire_none(sh, marking_of(prev.net), fired, sh.n_trans);
                        assert(marking_of(self.net) == marking_of(prev.net));
                        assert(marks_of(self.rows@.last().marks@) == marking_of(prev.net));
                    }
                    return Ok(());
                },
                Err(e) => {
                    proof {
                        let picks = choose|picks: Seq<int>|
                            cycle_post(prev, *self, picks, step_result);
                        let m_fail = marking_of(prev.net);
                        if prev.rows@.len() == pre_len {
                            assert(self.rows@.skip(pre_len).len() == 0);
                        } else {
                            assert(self.rows@.skip(pre_len).last() == self.rows@.last());
                        }
                        assert(trace_resumes_at(
                            sh,
                            marking_of(old(self).net),
                            self.rows@.skip(pre_len),
                            m_fail,
                        ));
                        assert(picks_wf(sh, picks) && !cycle_ok(sh, m_fail, picks));
                    }
                    return Err(e);
                },
            }
        }
    }

    /// The number of contested places of the net: the length that
    /// `step_with_choices` expects of its choice vector.
    pub fn contested_count(&self) -> (n: usize)
        requires
            self.wf(),
        ensures
            n as int == contested_places(self.net.shape()).len(),
    {
        self.concurrent_places.len()
    }

    /// Returns a reference to the underlying net.
    pub fn net(&self) -> (r: &PetriNet)
        ensures
            r == &self.net,
    {
        &self.net
    }

    /// Returns the accumulated trace, one row per executed cycle.
    pub fn rows(&self) -> (r: &Vec<TraceRow>)
        ensures
            r == &self.rows,
    {
        &self.rows
    }
}


} // verus!
