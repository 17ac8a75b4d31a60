use vstd::prelude::*;
use vstd::string::*;

use crate::balancer::{
    after_update, any_enabled, lemma_disabled_never_picked, lemma_update_sets_weights,
    lemma_virtual_table_count, name_spec, parse_spec, share, views_of, weights_of, Algorithm,
    BalancerView,
};
use crate::models::{Backend, BackendView};

verus! {

// ---------------------------------------------------------------------------------------
// Keys of the shared store
// ---------------------------------------------------------------------------------------

/// The key holding the weight that the operator set for backend `addr`.
pub open spec fn weight_key_spec(addr: Seq<char>) -> Seq<char> {
    "weight:"@ + addr
}

/// The key holding the weight saved for backend `addr` when leaving weighted round robin.
pub open spec fn saved_weight_key_spec(addr: Seq<char>) -> Seq<char> {
    "wrr_weight:"@ + addr
}

/// The key holding the health flag that the watchdog publishes for backend `addr`.
pub open spec fn health_key_spec(addr: Seq<char>) -> Seq<char> {
    "health:"@ + addr
}

/// The key holding the name of the active algorithm.
pub open spec fn algorithm_key_spec() -> Seq<char> {
    "lb:algorithm"@
}

/// The key holding the list of loaded backends.
pub open spec fn backends_key_spec() -> Seq<char> {
    "lb:backends"@
}

/// `weight:<addr>`.
pub fn weight_key(addr: &str) -> (r: String)
    ensures
        r@ == weight_key_spec(addr@),
{
    String::from_str("weight:").concat(addr)
}

/// `wrr_weight:<addr>`.
pub fn saved_weight_key(addr: &str) -> (r: String)
    ensures
        r@ == saved_weight_key_spec(addr@),
{
    String::from_str("wrr_weight:").concat(addr)
}

/// `health:<addr>`.
pub fn health_key(addr: &str) -> (r: String)
    ensures
        r@ == health_key_spec(addr@),
{
    String::from_str("health:").concat(addr)
}

/// `lb:algorithm`.
pub fn algorithm_key() -> (r: String)
    ensures
        r@ == algorithm_key_spec(),
{
    String::from_str("lb:algorithm")
}

/// `lb:backends`.
pub fn backends_key() -> (r: String)
    ensures
        r@ == backends_key_spec(),
{
    String::from_str("lb:backends")
}

// ---------------------------------------------------------------------------------------
// Effective weights
// ---------------------------------------------------------------------------------------

/// What the balancer routes with: the operator's weight when the backend is healthy,
/// zero when it is not (`effective = weight × health`).
pub open spec fn effective_weight_spec(intent: u32, healthy: bool) -> u32 {
    if healthy {
        intent
    } else {
        0
    }
}

/// The effective weight of a backend.
pub fn effective_weight(intent: u32, healthy: bool) -> (r: u32)
    ensures
        r == effective_weight_spec(intent, healthy),
{
    if healthy {
        intent
    } else {
        0
    }
}

/// The health flag read from the store: a missing or unreadable flag counts as healthy
/// (so that no backend is cut off before the watchdog has reported), zero as down.
pub open spec fn healthy_spec(raw: Option<u8>) -> bool {
    match raw {
        Some(v) => v != 0,
        None => true,
    }
}

/// Reads a health flag.
pub fn healthy_from(raw: Option<u8>) -> (r: bool)
    ensures
        r == healthy_spec(raw),
{
    match raw {
        Some(v) => v != 0,
        None => true,
    }
}

/// The operator weight read from the store, or the backend's current weight when it
/// could not be read.
pub open spec fn intent_spec(raw: Option<u32>, fallback: u32) -> u32 {
    match raw {
        Some(v) => v,
        None => fallback,
    }
}

/// What the control loop last read from the store for one backend.
#[derive(Debug, Clone, Copy, PartialEq, Eq, Structural)]
pub struct BackendRedisState {
    pub intent_weight: u32,
    pub healthy: bool,
}

impl Default for BackendRedisState {
    fn default() -> (r: Self)
        ensures
            r == (BackendRedisState { intent_weight: 0, healthy: false }),
    {
        BackendRedisState { intent_weight: 0, healthy: false }
    }
}

/// The state recorded for backend `i` from what was read.
pub open spec fn polled_state(bs: Seq<BackendView>, intents: Seq<Option<u32>>, healths: Seq<Option<u8>>, i: int) -> BackendRedisState {
    BackendRedisState {
        intent_weight: intent_spec(intents[i], bs[i].weight),
        healthy: healthy_spec(healths[i]),
    }
}

/// What polling gives each backend: a backend reported down (flag 0) routes with weight
/// zero whatever its operator weight; a backend reported up (any other flag), or whose
/// flag could not be read, routes with its operator weight as read, or with its current
/// weight when that could not be read.
pub proof fn lemma_poll_outcome(bs: Seq<BackendView>, intents: Seq<Option<u32>>, healths: Seq<Option<u8>>, i: int)
    requires
        0 <= i < bs.len(),
        intents.len() == bs.len(),
        healths.len() == bs.len(),
    ensures
        healths[i] == Some(0u8) ==> !polled_state(bs, intents, healths, i).healthy
            && effective_weight_spec(polled_state(bs, intents, healths, i).intent_weight, polled_state(bs, intents, healths, i).healthy) == 0,
        healths[i] != Some(0u8) ==> polled_state(bs, intents, healths, i).healthy
            && effective_weight_spec(polled_state(bs, intents, healths, i).intent_weight, polled_state(bs, intents, healths, i).healthy)
            == polled_state(bs, intents, healths, i).intent_weight,
        intents[i] matches Some(w) ==> polled_state(bs, intents, healths, i).intent_weight == w,
        intents[i] is None ==> polled_state(bs, intents, healths, i).intent_weight == bs[i].weight,
{
}

/// From the operator weights and health flags read for each backend (in the backends'
/// order), the effective weights to hand to the balancer and the state to show.
pub fn poll_snapshot(
    backends: &Vec<Backend>,
    intents: &Vec<Option<u32>>,
    healths: &Vec<Option<u8>>,
) -> (r: (Vec<u32>, Vec<BackendRedisState>))
    requires
        intents@.len() == backends@.len(),
        healths@.len() == backends@.len(),
    ensures
        r.0@.len() == backends@.len(),
        r.1@.len() == backends@.len(),
        forall|i: int|
            0 <= i < backends@.len() ==> #[trigger] r.1@[i] == polled_state(
                views_of(backends@),
                intents@,
                healths@,
                i,
            ),
        forall|i: int|
            0 <= i < backends@.len() ==> #[trigger] r.0@[i] == effective_weight_spec(
                r.1@[i].intent_weight,
                r.1@[i].healthy,
            ),
{
    let n = backends.len();
    let mut effective: Vec<u32> = Vec::new();
    let mut snapshot: Vec<BackendRedisState> = Vec::new();
    for i in 0..n
        invariant
            n == backends@.len(),
            intents@.len() == n,
            healths@.len() == n,
            effective@.len() == i,
            snapshot@.len() == i,
            forall|j: int|
                0 <= j < i ==> #[trigger] snapshot@[j] == polled_state(
                    views_of(backends@),
                    intents@,
                    healths@,
                    j,
                ),
            forall|j: int|
                0 <= j < i ==> #[trigger] effective@[j] == effective_weight_spec(
                    snapshot@[j].intent_weight,
                    snapshot@[j].healthy,
                ),
    {
        let intent = match intents[i] {
            Some(v) => v,
            None => backends[i].weight,
        };
        let healthy = healthy_from(healths[i]);
        effective.push(effective_weight(intent, healthy));
        snapshot.push(BackendRedisState { intent_weight: intent, healthy });
    }
    (effective, snapshot)
}

/// A backend that the watchdog reports down gets effective weight zero, so once the
/// balancer takes the effective weights it is never picked, whatever the rotation's
/// position, as long as some backend is up with a positive operator weight; a backend
/// that is up with a positive operator weight is in the rotation.
pub proof fn lemma_health_drives_rotation(v: BalancerView, states: Seq<BackendRedisState>, effective: Seq<u32>, i: int, counter: usize)
    requires
        v.wf(),
        states.len() == v.backends.len(),
        effective.len() == v.backends.len(),
        forall|j: int| 0 <= j < effective.len() ==> #[trigger] effective[j] == effective_weight_spec(states[j].intent_weight, states[j].healthy),
        exists|j: int| 0 <= j < states.len() && (#[trigger] states[j]).healthy && states[j].intent_weight > 0,
        0 <= i < v.backends.len(),
    ensures
        after_update(v, effective).wf(),
        !states[i].healthy ==> (BalancerView { counter, ..after_update(v, effective) }).selection() != i,
        states[i].healthy && states[i].intent_weight > 0 ==> after_update(v, effective).table.to_multiset().count(i as usize) > 0,
{
    let u = after_update(v, effective);
    lemma_update_sets_weights(v, effective);
    let w = weights_of(u.backends);
    assert(w =~= effective);
    let j = choose|j: int| 0 <= j < states.len() && (#[trigger] states[j]).healthy && states[j].intent_weight > 0;
    assert(effective[j] > 0);
    assert(any_enabled(w));
    if !crate::balancer::weights_unchanged(v.backends, effective) {
        assert(u.wf());
    }
    let u2 = BalancerView { counter, ..u };
    lemma_disabled_never_picked(u2);
    lemma_virtual_table_count(w, u.algorithm, i);
}

// ---------------------------------------------------------------------------------------
// Algorithm switches
// ---------------------------------------------------------------------------------------

/// The algorithm to switch to, given the name found in the store and the algorithm last
/// applied: the parsed one when it is valid and differs, otherwise none.
pub open spec fn switch_spec(stored: Seq<char>, last: Algorithm) -> Option<Algorithm> {
    match parse_spec(stored) {
        Some(a) => if a != last { Some(a) } else { None },
        None => None,
    }
}

/// A switch is detected exactly when the stored name is valid and names another algorithm
/// than the one last applied, and then it is to that algorithm; in particular the
/// canonical name of any other algorithm is always detected.
pub proof fn lemma_switch_detected(stored: Seq<char>, last: Algorithm, a: Algorithm)
    ensures
        parse_spec(stored) == Some(a) && a != last ==> switch_spec(stored, last) == Some(a),
        parse_spec(stored) == Some(last) ==> switch_spec(stored, last) is None,
        parse_spec(stored) is None ==> switch_spec(stored, last) is None,
        switch_spec(stored, last) matches Some(b) ==> b != last && parse_spec(stored) == Some(b),
        a != last ==> switch_spec(name_spec(a), last) == Some(a),
{
    crate::balancer::lemma_parse_name_roundtrip(a);
}

/// Detects an algorithm switch requested through the store.
pub fn detect_switch(stored: &str, last: Algorithm) -> (r: Option<Algorithm>)
    ensures
        r == switch_spec(stored@, last),
{
    match Algorithm::parse(stored) {
        Some(a) => if a != last { Some(a) } else { None },
        None => None,
    }
}

// ---------------------------------------------------------------------------------------
// Writes to the store
// ---------------------------------------------------------------------------------------

/// A write to the shared store.
#[derive(Debug)]
pub enum StoreCommand {
    /// Store a number under a key.
    SetNumber(String, u32),
    /// Store a text under a key.
    SetText(String, String),
    /// Remove a key.
    Delete(String),
    /// Append a text to the list under a key, creating the list when absent.
    Push(String, String),
}

/// The mathematical value of a [`StoreCommand`].
pub enum CommandView {
    SetNumber(Seq<char>, u32),
    SetText(Seq<char>, Seq<char>),
    Delete(Seq<char>),
    Push(Seq<char>, Seq<char>),
}

impl View for StoreCommand {
    type V = CommandView;

    open spec fn view(&self) -> CommandView {
        match self {
            StoreCommand::SetNumber(k, n) => CommandView::SetNumber(k@, *n),
            StoreCommand::SetText(k, t) => CommandView::SetText(k@, t@),
            StoreCommand::Delete(k) => CommandView::Delete(k@),
            StoreCommand::Push(k, t) => CommandView::Push(k@, t@),
        }
    }
}

/// The views of a list of commands, in order.
pub open spec fn commands_view(cs: Seq<StoreCommand>) -> Seq<CommandView> {
    cs.map_values(|c: StoreCommand| c@)
}

/// Two command lists agreeing position by position have the same views.
pub proof fn lemma_commands_pointwise(cs: Seq<StoreCommand>, target: Seq<CommandView>)
    requires
        cs.len() == target.len(),
        forall|j: int| 0 <= j < cs.len() ==> (#[trigger] cs[j])@ == target[j],
    ensures
        commands_view(cs) == target,
{
    assert(commands_view(cs) =~= target);
}

/// A value held by the store.
pub enum StoredValue {
    Number(u32),
    Text(Seq<char>),
    List(Seq<Seq<char>>),
}

/// The store after one command. Appending to a key that holds no list fails and
/// changes nothing.
pub open spec fn apply_command(s: Map<Seq<char>, StoredValue>, c: CommandView) -> Map<Seq<char>, StoredValue> {
    match c {
        CommandView::SetNumber(k, n) => s.insert(k, StoredValue::Number(n)),
        CommandView::SetText(k, t) => s.insert(k, StoredValue::Text(t)),
        CommandView::Delete(k) => s.remove(k),
        CommandView::Push(k, t) => if !s.dom().contains(k) {
            s.insert(k, StoredValue::List(seq![t]))
        } else {
            match s[k] {
                StoredValue::List(l) => s.insert(k, StoredValue::List(l.push(t))),
                _ => s,
            }
        },
    }
}

/// The store after a list of commands, applied in order.
pub open spec fn apply_commands(s: Map<Seq<char>, StoredValue>, cs: Seq<CommandView>) -> Map<Seq<char>, StoredValue>
    decreases cs.len(),
{
    if cs.len() == 0 {
        s
    } else {
        apply_command(apply_commands(s, cs.drop_last()), cs.last())
    }
}

/// The number stored under `k`, if a number is stored there.
pub open spec fn number_at(s: Map<Seq<char>, StoredValue>, k: Seq<char>) -> Option<u32> {
    if s.dom().contains(k) {
        match s[k] {
            StoredValue::Number(n) => Some(n),
            _ => None,
        }
    } else {
        None
    }
}

/// `a` or, when absent, `d`.
pub open spec fn or_default(a: Option<u32>, d: u32) -> u32 {
    match a {
        Some(v) => v,
        None => d,
    }
}

/// An earlier backend has the same address as backend `i`.
pub open spec fn addr_seen_before(bs: Seq<BackendView>, i: int) -> bool {
    exists|j: int| 0 <= j < i && #[trigger] bs[j].addr == bs[i].addr
}

/// Whether an earlier backend has the same address as backend `i`.
pub fn seen_before(backends: &Vec<Backend>, i: usize) -> (r: bool)
    requires
        i < backends@.len(),
    ensures
        r == addr_seen_before(views_of(backends@), i as int),
{
    let ghost bs = views_of(backends@);
    let mut found = false;
    for j in 0..i
        invariant
            i < backends@.len(),
            bs == views_of(backends@),
            found == exists|k: int| 0 <= k < j && #[trigger] bs[k].addr == bs[i as int].addr,
    {
        assert(bs[j as int].addr == backends@[j as int].addr@);
        if backends[j].addr == backends[i].addr {
            found = true;
        }
    }
    found
}

/// The operator weight that leaving weighted round robin saves for backend `i`: the one
/// read (or the backend's own when unreadable); for a backend whose address an earlier
/// backend already has, the 1 that the earlier backend's turn has just stored.
pub open spec fn weight_to_save(bs: Seq<BackendView>, current: Seq<Option<u32>>, i: int) -> u32 {
    if addr_seen_before(bs, i) {
        1
    } else {
        or_default(current[i], bs[i].weight)
    }
}

/// Leaving weighted round robin, for the first `n` backends in turn: save each operator
/// weight (see [`weight_to_save`]) under its saved-weight key, then flatten the operator
/// weight to 1.
pub open spec fn leave_weighted_spec(bs: Seq<BackendView>, current: Seq<Option<u32>>, n: nat) -> Seq<CommandView>
    decreases n,
{
    if n == 0 {
        Seq::empty()
    } else {
        let i = n - 1;
        leave_weighted_spec(bs, current, (n - 1) as nat) + seq![
            CommandView::SetNumber(saved_weight_key_spec(bs[i].addr), weight_to_save(bs, current, i)),
            CommandView::SetNumber(weight_key_spec(bs[i].addr), 1),
        ]
    }
}

/// Entering weighted round robin, for the first `n` backends: restore each operator
/// weight from the saved weight (read as `saved[i]`, or 1 when there is none).
pub open spec fn enter_weighted_spec(bs: Seq<BackendView>, saved: Seq<Option<u32>>, n: nat) -> Seq<CommandView>
    decreases n,
{
    if n == 0 {
        Seq::empty()
    } else {
        let i = n - 1;
        enter_weighted_spec(bs, saved, (n - 1) as nat) + seq![
            CommandView::SetNumber(weight_key_spec(bs[i].addr), or_default(saved[i], 1)),
        ]
    }
}

/// The writes that leave weighted round robin for round robin; `current[i]` is the
/// operator weight read for backend `i` before any of the writes.
pub fn leave_weighted_plan(backends: &Vec<Backend>, current: &Vec<Option<u32>>) -> (r: Vec<StoreCommand>)
    requires
        current@.len() == backends@.len(),
    ensures
        commands_view(r@) == leave_weighted_spec(views_of(backends@), current@, backends@.len()),
{
    let n = backends.len();
    let ghost bs = views_of(backends@);
    let mut out: Vec<StoreCommand> = Vec::new();
    for i in 0..n
        invariant
            n == backends@.len(),
            current@.len() == n,
            bs == views_of(backends@),
            out@.len() == leave_weighted_spec(bs, current@, i as nat).len(),
            forall|j: int| 0 <= j < out@.len() ==> (#[trigger] out@[j])@ == leave_weighted_spec(bs, current@, i as nat)[j],
    {
        let b = &backends[i];
        let keep = if seen_before(backends, i) {
            1
        } else {
            match current[i] {
                Some(v) => v,
                None => b.weight,
            }
        };
        out.push(StoreCommand::SetNumber(saved_weight_key(b.addr.as_str()), keep));
        out.push(StoreCommand::SetNumber(weight_key(b.addr.as_str()), 1));
        assert(leave_weighted_spec(bs, current@, (i + 1) as nat) == leave_weighted_spec(bs, current@, i as nat) + seq![
            CommandView::SetNumber(saved_weight_key_spec(bs[i as int].addr), weight_to_save(bs, current@, i as int)),
            CommandView::SetNumber(weight_key_spec(bs[i as int].addr), 1),
        ]);
    }
    proof {
        lemma_commands_pointwise(out@, leave_weighted_spec(bs, current@, n as nat));
    }
    out
}

/// The writes that enter weighted round robin from round robin; `saved[i]` is the weight
/// saved for backend `i`.
pub fn enter_weighted_plan(backends: &Vec<Backend>, saved: &Vec<Option<u32>>) -> (r: Vec<StoreCommand>)
    requires
        saved@.len() == backends@.len(),
    ensures
        commands_view(r@) == enter_weighted_spec(views_of(backends@), saved@, backends@.len()),
{
    let n = backends.len();
    let ghost bs = views_of(backends@);
    let mut out: Vec<StoreCommand> = Vec::new();
    for i in 0..n
        invariant
            n == backends@.len(),
            saved@.len() == n,
            bs == views_of(backends@),
            out@.len() == enter_weighted_spec(bs, saved@, i as nat).len(),
            forall|j: int| 0 <= j < out@.len() ==> (#[trigger] out@[j])@ == enter_weighted_spec(bs, saved@, i as nat)[j],
    {
        let b = &backends[i];
        let restore = match saved[i] {
            Some(v) => v,
            None => 1,
        };
        out.push(StoreCommand::SetNumber(weight_key(b.addr.as_str()), restore));
        assert(enter_weighted_spec(bs, saved@, (i + 1) as nat) == enter_weighted_spec(bs, saved@, i as nat) + seq![
            CommandView::SetNumber(weight_key_spec(bs[i as int].addr), or_default(saved@[i as int], 1)),
        ]);
    }
    proof {
        lemma_commands_pointwise(out@, enter_weighted_spec(bs, saved@, n as nat));
    }
    out
}

// ---------------------------------------------------------------------------------------
// What the writes do to the store
// ---------------------------------------------------------------------------------------

/// `s` and `t` hold the same thing (or nothing) under `k`.
pub open spec fn same_at(s: Map<Seq<char>, StoredValue>, t: Map<Seq<char>, StoredValue>, k: Seq<char>) -> bool {
    &&& s.dom().contains(k) == t.dom().contains(k)
    &&& s.dom().contains(k) ==> s[k] == t[k]
}

/// No two backends share an address.
pub open spec fn distinct_addrs(bs: Seq<BackendView>) -> bool {
    forall|i: int, j: int| 0 <= i < bs.len() && 0 <= j < bs.len() && i != j ==> #[trigger] bs[i].addr != #[trigger] bs[j].addr
}

/// Applying two lists of commands in turn is applying their concatenation.
pub proof fn lemma_apply_concat(s: Map<Seq<char>, StoredValue>, p: Seq<CommandView>, q: Seq<CommandView>)
    ensures
        apply_commands(s, p + q) == apply_commands(apply_commands(s, p), q),
    decreases q.len(),
{
    if q.len() == 0 {
        assert(p + q =~= p);
    } else {
        lemma_apply_concat(s, p, q.drop_last());
        assert((p + q).drop_last() =~= p + q.drop_last());
        assert((p + q).last() == q.last());
    }
}

/// Applying a one-command list is applying the command.
pub proof fn lemma_apply_one(s: Map<Seq<char>, StoredValue>, c: CommandView)
    ensures
        apply_commands(s, seq![c]) == apply_command(s, c),
{
    assert(seq![c].drop_last() =~= Seq::<CommandView>::empty());
    assert(apply_commands(s, Seq::<CommandView>::empty()) == s);
}

/// Applying a two-command list is applying the commands in turn.
pub proof fn lemma_apply_two(s: Map<Seq<char>, StoredValue>, c1: CommandView, c2: CommandView)
    ensures
        apply_commands(s, seq![c1, c2]) == apply_command(apply_command(s, c1), c2),
{
    assert(seq![c1, c2].drop_last() =~= seq![c1]);
    lemma_apply_one(s, c1);
}

/// Keys of different kinds never collide, and keys of one kind are equal only for equal
/// addresses.
pub proof fn lemma_keys_distinct(a: Seq<char>, b: Seq<char>)
    ensures
        weight_key_spec(a) == weight_key_spec(b) ==> a == b,
        saved_weight_key_spec(a) == saved_weight_key_spec(b) ==> a == b,
        health_key_spec(a) == health_key_spec(b) ==> a == b,
        weight_key_spec(a) != saved_weight_key_spec(b),
        weight_key_spec(a) != algorithm_key_spec(),
        weight_key_spec(a) != backends_key_spec(),
        saved_weight_key_spec(a) != algorithm_key_spec(),
        saved_weight_key_spec(a) != backends_key_spec(),
        algorithm_key_spec() != backends_key_spec(),
{
    reveal_strlit("weight:");
    reveal_strlit("wrr_weight:");
    reveal_strlit("health:");
    reveal_strlit("lb:algorithm");
    reveal_strlit("lb:backends");
    if weight_key_spec(a) == weight_key_spec(b) {
        assert(a =~= weight_key_spec(a).subrange(7, weight_key_spec(a).len() as int));
        assert(b =~= weight_key_spec(b).subrange(7, weight_key_spec(b).len() as int));
    }
    if saved_weight_key_spec(a) == saved_weight_key_spec(b) {
        assert(a =~= saved_weight_key_spec(a).subrange(11, saved_weight_key_spec(a).len() as int));
        assert(b =~= saved_weight_key_spec(b).subrange(11, saved_weight_key_spec(b).len() as int));
    }
    if health_key_spec(a) == health_key_spec(b) {
        assert(a =~= health_key_spec(a).subrange(7, health_key_spec(a).len() as int));
        assert(b =~= health_key_spec(b).subrange(7, health_key_spec(b).len() as int));
    }
    assert(weight_key_spec(a)[1] != saved_weight_key_spec(b)[1]);
    assert(weight_key_spec(a)[0] != algorithm_key_spec()[0]);
    assert(weight_key_spec(a)[0] != backends_key_spec()[0]);
    assert(saved_weight_key_spec(a)[0] != algorithm_key_spec()[0]);
    assert(saved_weight_key_spec(a)[0] != backends_key_spec()[0]);
    assert(algorithm_key_spec()[3] != backends_key_spec()[3]);
}

/// What leaving weighted round robin does to the store, for the first `n` backends: each
/// saved-weight key holds the weight read (or the backend's), each operator weight is 1,
/// and every other key is untouched.
pub proof fn lemma_leave_weighted_effect(s: Map<Seq<char>, StoredValue>, bs: Seq<BackendView>, current: Seq<Option<u32>>, n: nat)
    requires
        n <= bs.len(),
        n <= current.len(),
        distinct_addrs(bs),
    ensures
        forall|i: int| 0 <= i < n ==> number_at(apply_commands(s, leave_weighted_spec(bs, current, n)), #[trigger] weight_key_spec(bs[i].addr)) == Some(1u32),
        forall|i: int| 0 <= i < n ==> number_at(apply_commands(s, leave_weighted_spec(bs, current, n)), #[trigger] saved_weight_key_spec(bs[i].addr))
            == Some(or_default(current[i], bs[i].weight)),
        forall|k: Seq<char>| (forall|i: int| 0 <= i < n ==> k != #[trigger] weight_key_spec(bs[i].addr) && k != saved_weight_key_spec(bs[i].addr))
            ==> #[trigger] same_at(apply_commands(s, leave_weighted_spec(bs, current, n)), s, k),
    decreases n,
{
    if n > 0 {
        let m = (n - 1) as nat;
        let j = n - 1;
        lemma_leave_weighted_effect(s, bs, current, m);
        let p = leave_weighted_spec(bs, current, m);
        let c1 = CommandView::SetNumber(saved_weight_key_spec(bs[j].addr), or_default(current[j], bs[j].weight));
        let c2 = CommandView::SetNumber(weight_key_spec(bs[j].addr), 1);
        lemma_apply_concat(s, p, seq![c1, c2]);
        let s0 = apply_commands(s, p);
        lemma_apply_two(s0, c1, c2);
        let s2 = apply_commands(s, leave_weighted_spec(bs, current, n));
        assert forall|i: int| 0 <= i < n implies number_at(s2, #[trigger] weight_key_spec(bs[i].addr)) == Some(1u32) by {
            lemma_keys_distinct(bs[i].addr, bs[j].addr);
        }
        assert forall|i: int| 0 <= i < n implies number_at(s2, #[trigger] saved_weight_key_spec(bs[i].addr))
            == Some(or_default(current[i], bs[i].weight)) by {
            lemma_keys_distinct(bs[i].addr, bs[j].addr);
            lemma_keys_distinct(bs[j].addr, bs[i].addr);
        }
        assert forall|k: Seq<char>| (forall|i: int| 0 <= i < n ==> k != #[trigger] weight_key_spec(bs[i].addr) && k != saved_weight_key_spec(bs[i].addr))
            implies #[trigger] same_at(s2, s, k) by {
            assert(k != weight_key_spec(bs[j].addr));
            assert(forall|i: int| 0 <= i < m ==> k != #[trigger] weight_key_spec(bs[i].addr) && k != saved_weight_key_spec(bs[i].addr));
            assert(same_at(s0, s, k));
        }
    }
}

/// What entering weighted round robin does to the store, for the first `n` backends:
/// each operator weight holds the saved weight read (or 1), every other key is untouched.
pub proof fn lemma_enter_weighted_effect(s: Map<Seq<char>, StoredValue>, bs: Seq<BackendView>, saved: Seq<Option<u32>>, n: nat)
    requires
        n <= bs.len(),
        n <= saved.len(),
        distinct_addrs(bs),
    ensures
        forall|i: int| 0 <= i < n ==> number_at(apply_commands(s, enter_weighted_spec(bs, saved, n)), #[trigger] weight_key_spec(bs[i].addr))
            == Some(or_default(saved[i], 1)),
        forall|k: Seq<char>| (forall|i: int| 0 <= i < n ==> k != #[trigger] weight_key_spec(bs[i].addr))
            ==> #[trigger] same_at(apply_commands(s, enter_weighted_spec(bs, saved, n)), s, k),
    decreases n,
{
    if n > 0 {
        let m = (n - 1) as nat;
        let j = n - 1;
        lemma_enter_weighted_effect(s, bs, saved, m);
        let p = enter_weighted_spec(bs, saved, m);
        let c1 = CommandView::SetNumber(weight_key_spec(bs[j].addr), or_default(saved[j], 1));
        lemma_apply_concat(s, p, seq![c1]);
        let s0 = apply_commands(s, p);
        lemma_apply_one(s0, c1);
        let s2 = apply_commands(s, enter_weighted_spec(bs, saved, n));
        assert forall|i: int| 0 <= i < n implies number_at(s2, #[trigger] weight_key_spec(bs[i].addr))
            == Some(or_default(saved[i], 1)) by {
            lemma_keys_distinct(bs[i].addr, bs[j].addr);
        }
        assert forall|k: Seq<char>| (forall|i: int| 0 <= i < n ==> k != #[trigger] weight_key_spec(bs[i].addr))
            implies #[trigger] same_at(s2, s, k) by {
            assert(k != weight_key_spec(bs[j].addr));
            assert(forall|i: int| 0 <= i < m ==> k != #[trigger] weight_key_spec(bs[i].addr));
            assert(same_at(s0, s, k));
        }
    }
}

/// The operator weights read from `s` for each backend.
pub open spec fn read_weights(s: Map<Seq<char>, StoredValue>, bs: Seq<BackendView>) -> Seq<Option<u32>> {
    Seq::new(bs.len(), |i: int| number_at(s, weight_key_spec(bs[i].addr)))
}

/// The saved weights read from `s` for each backend.
pub open spec fn read_saved_weights(s: Map<Seq<char>, StoredValue>, bs: Seq<BackendView>) -> Seq<Option<u32>> {
    Seq::new(bs.len(), |i: int| number_at(s, saved_weight_key_spec(bs[i].addr)))
}

/// The store after leaving weighted round robin, with the weights read from it.
pub open spec fn after_leaving_weighted(s: Map<Seq<char>, StoredValue>, bs: Seq<BackendView>) -> Map<Seq<char>, StoredValue> {
    apply_commands(s, leave_weighted_spec(bs, read_weights(s, bs), bs.len()))
}

/// The store after entering weighted round robin, with the saved weights read from it.
pub open spec fn after_entering_weighted(s: Map<Seq<char>, StoredValue>, bs: Seq<BackendView>) -> Map<Seq<char>, StoredValue> {
    apply_commands(s, enter_weighted_spec(bs, read_saved_weights(s, bs), bs.len()))
}

/// Switching from weighted round robin to round robin shows every operator weight as 1;
/// switching back restores each operator weight to what it was before (or, for a backend
/// without a stored weight, to the weight it was loaded with).
pub proof fn lemma_switch_round_trip(s: Map<Seq<char>, StoredValue>, bs: Seq<BackendView>)
    requires
        distinct_addrs(bs),
    ensures
        forall|i: int| 0 <= i < bs.len() ==> number_at(after_leaving_weighted(s, bs), #[trigger] weight_key_spec(bs[i].addr)) == Some(1u32),
        forall|i: int| 0 <= i < bs.len() ==> number_at(after_entering_weighted(after_leaving_weighted(s, bs), bs), #[trigger] weight_key_spec(bs[i].addr))
            == Some(or_default(number_at(s, weight_key_spec(bs[i].addr)), bs[i].weight)),
{
    let cur = read_weights(s, bs);
    let s1 = after_leaving_weighted(s, bs);
    lemma_leave_weighted_effect(s, bs, cur, bs.len());
    let saved = read_saved_weights(s1, bs);
    lemma_enter_weighted_effect(s1, bs, saved, bs.len());
    assert forall|i: int| 0 <= i < bs.len() implies number_at(after_entering_weighted(s1, bs), #[trigger] weight_key_spec(bs[i].addr))
        == Some(or_default(number_at(s, weight_key_spec(bs[i].addr)), bs[i].weight)) by {
        assert(saved[i] == number_at(s1, saved_weight_key_spec(bs[i].addr)));
        assert(cur[i] == number_at(s, weight_key_spec(bs[i].addr)));
    }
}

// ---------------------------------------------------------------------------------------
// Seeding the store at start-up, and resetting it to the defaults
// ---------------------------------------------------------------------------------------

/// For the first `n` backends in turn, store the backend's weight as operator weight
/// where none is stored yet: `present[i]` says whether one was stored before seeding, and
/// an earlier backend with the same address has stored one by the time of backend `i`.
pub open spec fn seed_weights_spec(bs: Seq<BackendView>, present: Seq<bool>, n: nat) -> Seq<CommandView>
    decreases n,
{
    if n == 0 {
        Seq::empty()
    } else {
        let i = n - 1;
        let prev = seed_weights_spec(bs, present, (n - 1) as nat);
        if present[i] || addr_seen_before(bs, i) {
            prev
        } else {
            prev.push(CommandView::SetNumber(weight_key_spec(bs[i].addr), bs[i].weight))
        }
    }
}

/// Append the addresses of the first `n` backends to the backend list, in order.
pub open spec fn push_addrs_spec(bs: Seq<BackendView>, n: nat) -> Seq<CommandView>
    decreases n,
{
    if n == 0 {
        Seq::empty()
    } else {
        push_addrs_spec(bs, (n - 1) as nat).push(CommandView::Push(backends_key_spec(), bs[n - 1].addr))
    }
}

/// The start-up writes: missing operator weights, the backend list rebuilt from
/// scratch, and the algorithm name when none is stored.
pub open spec fn seed_spec(bs: Seq<BackendView>, present: Seq<bool>, algorithm_present: bool, alg: Algorithm) -> Seq<CommandView> {
    let head = seed_weights_spec(bs, present, bs.len()) + seq![CommandView::Delete(backends_key_spec())]
        + push_addrs_spec(bs, bs.len());
    if algorithm_present {
        head
    } else {
        head.push(CommandView::SetText(algorithm_key_spec(), name_spec(alg)))
    }
}

/// The writes that seed the store at start-up. `weight_present[i]` says whether an
/// operator weight was stored for backend `i` before seeding; `algorithm_present`
/// whether an algorithm name was.
pub fn seed_plan(
    backends: &Vec<Backend>,
    weight_present: &Vec<bool>,
    algorithm_present: bool,
    algorithm: Algorithm,
) -> (r: Vec<StoreCommand>)
    requires
        weight_present@.len() == backends@.len(),
    ensures
        commands_view(r@) == seed_spec(views_of(backends@), weight_present@, algorithm_present, algorithm),
{
    let n = backends.len();
    let ghost bs = views_of(backends@);
    let mut out: Vec<StoreCommand> = Vec::new();
    for i in 0..n
        invariant
            n == backends@.len(),
            weight_present@.len() == n,
            bs == views_of(backends@),
            out@.len() == seed_weights_spec(bs, weight_present@, i as nat).len(),
            forall|j: int| 0 <= j < out@.len() ==> (#[trigger] out@[j])@ == seed_weights_spec(bs, weight_present@, i as nat)[j],
    {
        if !weight_present[i] && !seen_before(backends, i) {
            let b = &backends[i];
            out.push(StoreCommand::SetNumber(weight_key(b.addr.as_str()), b.weight));
        }
    }
    let ghost first = seed_weights_spec(bs, weight_present@, n as nat);
    out.push(StoreCommand::Delete(backends_key()));
    let ghost second = first + seq![CommandView::Delete(backends_key_spec())];
    assert(forall|j: int| 0 <= j < out@.len() ==> (#[trigger] out@[j])@ == second[j]);
    for i in 0..n
        invariant
            n == backends@.len(),
            bs == views_of(backends@),
            out@.len() == second.len() + push_addrs_spec(bs, i as nat).len(),
            forall|j: int| 0 <= j < out@.len() ==> (#[trigger] out@[j])@ == (second + push_addrs_spec(bs, i as nat))[j],
    {
        let b = &backends[i];
        out.push(StoreCommand::Push(backends_key(), b.addr.clone()));
        assert(second + push_addrs_spec(bs, (i + 1) as nat) =~= (second + push_addrs_spec(bs, i as nat)).push(
            CommandView::Push(backends_key_spec(), bs[i as int].addr)));
    }
    if !algorithm_present {
        out.push(StoreCommand::SetText(algorithm_key(), algorithm.name()));
    }
    proof {
        lemma_commands_pointwise(out@, seed_spec(bs, weight_present@, algorithm_present, algorithm));
    }
    out
}

/// `ws[i]` when there is one, otherwise 1.
pub open spec fn weight_or_one(ws: Seq<u32>, i: int) -> u32 {
    if 0 <= i < ws.len() {
        ws[i]
    } else {
        1
    }
}

/// For the first `n` backends, restore the default operator weight and forget the saved
/// weight.
pub open spec fn reset_weights_spec(bs: Seq<BackendView>, defaults: Seq<u32>, n: nat) -> Seq<CommandView>
    decreases n,
{
    if n == 0 {
        Seq::empty()
    } else {
        let i = n - 1;
        reset_weights_spec(bs, defaults, (n - 1) as nat) + seq![
            CommandView::SetNumber(weight_key_spec(bs[i].addr), weight_or_one(defaults, i)),
            CommandView::Delete(saved_weight_key_spec(bs[i].addr)),
        ]
    }
}

/// The writes that return the store to the start-up defaults.
pub open spec fn reset_spec(bs: Seq<BackendView>, defaults: Seq<u32>, alg: Algorithm) -> Seq<CommandView> {
    reset_weights_spec(bs, defaults, bs.len()).push(CommandView::SetText(algorithm_key_spec(), name_spec(alg)))
}

/// The writes that return the store to the start-up weights (`defaults[i]`, or 1 past
/// its end) and algorithm.
pub fn reset_plan(backends: &Vec<Backend>, defaults: &Vec<u32>, algorithm: Algorithm) -> (r: Vec<StoreCommand>)
    ensures
        commands_view(r@) == reset_spec(views_of(backends@), defaults@, algorithm),
{
    let n = backends.len();
    let ghost bs = views_of(backends@);
    let mut out: Vec<StoreCommand> = Vec::new();
    for i in 0..n
        invariant
            n == backends@.len(),
            bs == views_of(backends@),
            out@.len() == reset_weights_spec(bs, defaults@, i as nat).len(),
            forall|j: int| 0 <= j < out@.len() ==> (#[trigger] out@[j])@ == reset_weights_spec(bs, defaults@, i as nat)[j],
    {
        let b = &backends[i];
        let d = if i < defaults.len() { defaults[i] } else { 1 };
        out.push(StoreCommand::SetNumber(weight_key(b.addr.as_str()), d));
        out.push(StoreCommand::Delete(saved_weight_key(b.addr.as_str())));
        assert(reset_weights_spec(bs, defaults@, (i + 1) as nat) == reset_weights_spec(bs, defaults@, i as nat) + seq![
            CommandView::SetNumber(weight_key_spec(bs[i as int].addr), weight_or_one(defaults@, i as int)),
            CommandView::Delete(saved_weight_key_spec(bs[i as int].addr)),
        ]);
    }
    out.push(StoreCommand::SetText(algorithm_key(), algorithm.name()));
    proof {
        lemma_commands_pointwise(out@, reset_spec(bs, defaults@, algorithm));
    }
    out
}

/// What restoring the default weights does, for the first `n` backends.
proof fn lemma_reset_weights_effect(s: Map<Seq<char>, StoredValue>, bs: Seq<BackendView>, defaults: Seq<u32>, n: nat)
    requires
        n <= bs.len(),
        distinct_addrs(bs),
    ensures
        forall|i: int| 0 <= i < n ==> number_at(apply_commands(s, reset_weights_spec(bs, defaults, n)), #[trigger] weight_key_spec(bs[i].addr))
            == Some(weight_or_one(defaults, i)),
        forall|i: int| 0 <= i < n ==> !apply_commands(s, reset_weights_spec(bs, defaults, n)).dom().contains(#[trigger] saved_weight_key_spec(bs[i].addr)),
        forall|k: Seq<char>| (forall|i: int| 0 <= i < n ==> k != #[trigger] weight_key_spec(bs[i].addr) && k != saved_weight_key_spec(bs[i].addr))
            ==> #[trigger] same_at(apply_commands(s, reset_weights_spec(bs, defaults, n)), s, k),
    decreases n,
{
    if n > 0 {
        let m = (n - 1) as nat;
        let j = n - 1;
        lemma_reset_weights_effect(s, bs, defaults, m);
        let p = reset_weights_spec(bs, defaults, m);
        let c1 = CommandView::SetNumber(weight_key_spec(bs[j].addr), weight_or_one(defaults, j));
        let c2 = CommandView::Delete(saved_weight_key_spec(bs[j].addr));
        lemma_apply_concat(s, p, seq![c1, c2]);
        let s0 = apply_commands(s, p);
        lemma_apply_two(s0, c1, c2);
        let s2 = apply_commands(s, reset_weights_spec(bs, defaults, n));
        assert forall|i: int| 0 <= i < n implies number_at(s2, #[trigger] weight_key_spec(bs[i].addr))
            == Some(weight_or_one(defaults, i)) by {
            lemma_keys_distinct(bs[i].addr, bs[j].addr);
        }
        assert forall|i: int| 0 <= i < n implies !s2.dom().contains(#[trigger] saved_weight_key_spec(bs[i].addr)) by {
            lemma_keys_distinct(bs[i].addr, bs[j].addr);
            lemma_keys_distinct(bs[j].addr, bs[i].addr);
        }
        assert forall|k: Seq<char>| (forall|i: int| 0 <= i < n ==> k != #[trigger] weight_key_spec(bs[i].addr) && k != saved_weight_key_spec(bs[i].addr))
            implies #[trigger] same_at(s2, s, k) by {
            assert(k != weight_key_spec(bs[j].addr));
            assert(forall|i: int| 0 <= i < m ==> k != #[trigger] weight_key_spec(bs[i].addr) && k != saved_weight_key_spec(bs[i].addr));
            assert(same_at(s0, s, k));
        }
    }
}

/// Resetting puts back the default operator weight of every backend (1 for a backend
/// without a default), forgets every saved weight, stores the default algorithm's name,
/// and touches nothing else.
pub proof fn lemma_reset_restores_defaults(s: Map<Seq<char>, StoredValue>, bs: Seq<BackendView>, defaults: Seq<u32>, alg: Algorithm)
    requires
        distinct_addrs(bs),
    ensures
        forall|i: int| 0 <= i < bs.len() ==> number_at(apply_commands(s, reset_spec(bs, defaults, alg)), #[trigger] weight_key_spec(bs[i].addr))
            == Some(weight_or_one(defaults, i)),
        forall|i: int| 0 <= i < bs.len() ==> !apply_commands(s, reset_spec(bs, defaults, alg)).dom().contains(#[trigger] saved_weight_key_spec(bs[i].addr)),
        apply_commands(s, reset_spec(bs, defaults, alg)).dom().contains(algorithm_key_spec()),
        apply_commands(s, reset_spec(bs, defaults, alg))[algorithm_key_spec()] == StoredValue::Text(name_spec(alg)),
        forall|k: Seq<char>| k != algorithm_key_spec() && (forall|i: int| 0 <= i < bs.len() ==> k != #[trigger] weight_key_spec(bs[i].addr) && k != saved_weight_key_spec(bs[i].addr))
            ==> #[trigger] same_at(apply_commands(s, reset_spec(bs, defaults, alg)), s, k),
{
    let p = reset_weights_spec(bs, defaults, bs.len());
    let c = CommandView::SetText(algorithm_key_spec(), name_spec(alg));
    lemma_reset_weights_effect(s, bs, defaults, bs.len());
    assert(reset_spec(bs, defaults, alg).drop_last() =~= p);
    let t = apply_commands(s, reset_spec(bs, defaults, alg));
    assert(t == apply_command(apply_commands(s, p), c));
    assert forall|i: int| 0 <= i < bs.len() implies number_at(t, #[trigger] weight_key_spec(bs[i].addr))
        == Some(weight_or_one(defaults, i)) by {
        lemma_keys_distinct(bs[i].addr, bs[i].addr);
    }
    assert forall|i: int| 0 <= i < bs.len() implies !t.dom().contains(#[trigger] saved_weight_key_spec(bs[i].addr)) by {
        lemma_keys_distinct(bs[i].addr, bs[i].addr);
    }
    assert forall|k: Seq<char>| k != algorithm_key_spec() && (forall|i: int| 0 <= i < bs.len() ==> k != #[trigger] weight_key_spec(bs[i].addr) && k != saved_weight_key_spec(bs[i].addr))
        implies #[trigger] same_at(t, s, k) by {
        assert(same_at(apply_commands(s, p), s, k));
    }
}

/// Whether an operator weight is stored for each backend.
pub open spec fn weights_present(s: Map<Seq<char>, StoredValue>, bs: Seq<BackendView>) -> Seq<bool> {
    Seq::new(bs.len(), |i: int| s.dom().contains(weight_key_spec(bs[i].addr)))
}

/// The store after seeding it, with what was found in it.
pub open spec fn seeded(s: Map<Seq<char>, StoredValue>, bs: Seq<BackendView>, alg: Algorithm) -> Map<Seq<char>, StoredValue> {
    apply_commands(s, seed_spec(bs, weights_present(s, bs), s.dom().contains(algorithm_key_spec()), alg))
}

/// What storing the missing weights does, for the first `n` backends.
proof fn lemma_seed_weights_effect(s: Map<Seq<char>, StoredValue>, bs: Seq<BackendView>, n: nat)
    requires
        n <= bs.len(),
        distinct_addrs(bs),
    ensures
        forall|i: int| 0 <= i < n ==> apply_commands(s, seed_weights_spec(bs, weights_present(s, bs), n)).dom().contains(#[trigger] weight_key_spec(bs[i].addr)),
        forall|i: int| 0 <= i < n && !s.dom().contains(weight_key_spec(bs[i].addr)) ==>
            apply_commands(s, seed_weights_spec(bs, weights_present(s, bs), n))[#[trigger] weight_key_spec(bs[i].addr)] == StoredValue::Number(bs[i].weight),
        forall|k: Seq<char>| (forall|i: int| 0 <= i < n ==> k != #[trigger] weight_key_spec(bs[i].addr) || s.dom().contains(k))
            ==> #[trigger] same_at(apply_commands(s, seed_weights_spec(bs, weights_present(s, bs), n)), s, k),
    decreases n,
{
    if n > 0 {
        let m = (n - 1) as nat;
        let j = n - 1;
        let present = weights_present(s, bs);
        lemma_seed_weights_effect(s, bs, m);
        let p = seed_weights_spec(bs, present, m);
        let s0 = apply_commands(s, p);
        let s2 = apply_commands(s, seed_weights_spec(bs, present, n));
        let kj = weight_key_spec(bs[j].addr);
        if !present[j] {
            let c = CommandView::SetNumber(kj, bs[j].weight);
            assert(seed_weights_spec(bs, present, n).drop_last() =~= p);
            assert(s2 == apply_command(s0, c));
        }
        assert forall|i: int| 0 <= i < n implies s2.dom().contains(#[trigger] weight_key_spec(bs[i].addr)) by {
            lemma_keys_distinct(bs[i].addr, bs[j].addr);
            if i == j && present[j] {
                assert(forall|l: int| 0 <= l < m ==> kj != #[trigger] weight_key_spec(bs[l].addr) || s.dom().contains(kj));
                assert(same_at(s0, s, kj));
            }
        }
        assert forall|i: int| 0 <= i < n && !s.dom().contains(weight_key_spec(bs[i].addr)) implies
            s2[#[trigger] weight_key_spec(bs[i].addr)] == StoredValue::Number(bs[i].weight) by {
            lemma_keys_distinct(bs[i].addr, bs[j].addr);
        }
        assert forall|k: Seq<char>| (forall|i: int| 0 <= i < n ==> k != #[trigger] weight_key_spec(bs[i].addr) || s.dom().contains(k))
            implies #[trigger] same_at(s2, s, k) by {
            assert(forall|l: int| 0 <= l < m ==> k != #[trigger] weight_key_spec(bs[l].addr) || s.dom().contains(k));
            assert(same_at(s0, s, k));
        }
    }
}

/// The addresses of the first `n` backends.
pub open spec fn addrs_of(bs: Seq<BackendView>, n: nat) -> Seq<Seq<char>> {
    Seq::new(n, |i: int| bs[i].addr)
}

/// Appending the addresses to an absent list builds the list of addresses, in order.
proof fn lemma_push_addrs_effect(s: Map<Seq<char>, StoredValue>, bs: Seq<BackendView>, n: nat)
    requires
        n <= bs.len(),
        !s.dom().contains(backends_key_spec()),
    ensures
        n > 0 ==> apply_commands(s, push_addrs_spec(bs, n)).dom().contains(backends_key_spec()),
        n > 0 ==> apply_commands(s, push_addrs_spec(bs, n))[backends_key_spec()] == StoredValue::List(addrs_of(bs, n)),
        n == 0 ==> !apply_commands(s, push_addrs_spec(bs, n)).dom().contains(backends_key_spec()),
        forall|k: Seq<char>| k != backends_key_spec() ==> #[trigger] same_at(apply_commands(s, push_addrs_spec(bs, n)), s, k),
    decreases n,
{
    if n > 0 {
        let m = (n - 1) as nat;
        lemma_push_addrs_effect(s, bs, m);
        let p = push_addrs_spec(bs, m);
        assert(push_addrs_spec(bs, n).drop_last() =~= p);
        assert(addrs_of(bs, n) =~= addrs_of(bs, m).push(bs[n - 1].addr));
        if m == 0 {
            assert(addrs_of(bs, n) =~= seq![bs[0].addr]);
        }
        let s0 = apply_commands(s, p);
        assert forall|k: Seq<char>| k != backends_key_spec() implies #[trigger] same_at(apply_commands(s, push_addrs_spec(bs, n)), s, k) by {
            assert(same_at(s0, s, k));
        }
    } else {
        assert(apply_commands(s, push_addrs_spec(bs, 0)) == s);
    }
}

/// Seeding at start-up leaves an operator weight for every backend (the stored one when
/// there was one, otherwise the backend's own weight), rebuilds the backend list from
/// the loaded backends in order, and leaves an algorithm name (the stored one when there
/// was one, otherwise the running algorithm's).
pub proof fn lemma_seed_effect(s: Map<Seq<char>, StoredValue>, bs: Seq<BackendView>, alg: Algorithm)
    requires
        distinct_addrs(bs),
    ensures
        forall|i: int| 0 <= i < bs.len() ==> seeded(s, bs, alg).dom().contains(#[trigger] weight_key_spec(bs[i].addr)),
        forall|i: int| 0 <= i < bs.len() && s.dom().contains(weight_key_spec(bs[i].addr)) ==>
            seeded(s, bs, alg)[#[trigger] weight_key_spec(bs[i].addr)] == s[weight_key_spec(bs[i].addr)],
        forall|i: int| 0 <= i < bs.len() && !s.dom().contains(weight_key_spec(bs[i].addr)) ==>
            seeded(s, bs, alg)[#[trigger] weight_key_spec(bs[i].addr)] == StoredValue::Number(bs[i].weight),
        bs.len() > 0 ==> seeded(s, bs, alg).dom().contains(backends_key_spec()),
        bs.len() > 0 ==> seeded(s, bs, alg)[backends_key_spec()] == StoredValue::List(addrs_of(bs, bs.len())),
        seeded(s, bs, alg).dom().contains(algorithm_key_spec()),
        s.dom().contains(algorithm_key_spec()) ==> seeded(s, bs, alg)[algorithm_key_spec()] == s[algorithm_key_spec()],
        !s.dom().contains(algorithm_key_spec()) ==> seeded(s, bs, alg)[algorithm_key_spec()] == StoredValue::Text(name_spec(alg)),
{
    let present = weights_present(s, bs);
    let ap = s.dom().contains(algorithm_key_spec());
    let p1 = seed_weights_spec(bs, present, bs.len());
    let d = seq![CommandView::Delete(backends_key_spec())];
    let p3 = push_addrs_spec(bs, bs.len());
    lemma_seed_weights_effect(s, bs, bs.len());
    let s1 = apply_commands(s, p1);
    lemma_apply_concat(s, p1, d);
    lemma_apply_one(s1, d[0]);
    let s2 = apply_commands(s, p1 + d);
    assert(s2 == s1.remove(backends_key_spec()));
    lemma_push_addrs_effect(s2, bs, bs.len());
    lemma_apply_concat(s, p1 + d, p3);
    let s3 = apply_commands(s, p1 + d + p3);
    let t = seeded(s, bs, alg);
    reveal_strlit("lb:algorithm");
    reveal_strlit("lb:backends");
    assert(algorithm_key_spec()[3] != backends_key_spec()[3]);
    if ap {
        assert(seed_spec(bs, present, ap, alg) == p1 + d + p3);
        assert(forall|i: int| 0 <= i < bs.len() ==> algorithm_key_spec() != #[trigger] weight_key_spec(bs[i].addr) || s.dom().contains(algorithm_key_spec()));
        assert(same_at(s1, s, algorithm_key_spec()));
        assert(same_at(s3, s2, algorithm_key_spec()));
    } else {
        assert(seed_spec(bs, present, ap, alg).drop_last() =~= p1 + d + p3);
        assert(t == apply_command(s3, CommandView::SetText(algorithm_key_spec(), name_spec(alg))));
    }
    assert forall|i: int| 0 <= i < bs.len() implies t.dom().contains(#[trigger] weight_key_spec(bs[i].addr)) by {
        lemma_keys_distinct(bs[i].addr, bs[i].addr);
        assert(same_at(s3, s2, weight_key_spec(bs[i].addr)));
    }
    assert forall|i: int| 0 <= i < bs.len() && s.dom().contains(weight_key_spec(bs[i].addr)) implies
        t[#[trigger] weight_key_spec(bs[i].addr)] == s[weight_key_spec(bs[i].addr)] by {
        let k = weight_key_spec(bs[i].addr);
        lemma_keys_distinct(bs[i].addr, bs[i].addr);
        assert(same_at(s3, s2, k));
        assert(forall|l: int| 0 <= l < bs.len() ==> k != #[trigger] weight_key_spec(bs[l].addr) || s.dom().contains(k));
        assert(same_at(s1, s, k));
    }
    assert forall|i: int| 0 <= i < bs.len() && !s.dom().contains(weight_key_spec(bs[i].addr)) implies
        t[#[trigger] weight_key_spec(bs[i].addr)] == StoredValue::Number(bs[i].weight) by {
        lemma_keys_distinct(bs[i].addr, bs[i].addr);
        assert(same_at(s3, s2, weight_key_spec(bs[i].addr)));
    }
}

} // verus!
