use vstd::prelude::*;
use vstd::string::*;

use crate::models::{copy_backend, Backend, BackendView};
use crate::text::{chars_equal, chars_of, lower, lower_range, trim, trim_range};

verus! {

/// The routing strategy of the balancer.
#[derive(Debug, Clone, Copy, PartialEq, Eq, Structural)]
pub enum Algorithm {
    RoundRobin,
    WeightedRoundRobin,
}

/// The form in which an algorithm name is compared: trimmed and in ASCII lower case.
pub open spec fn normalized(s: Seq<char>) -> Seq<char> {
    lower(trim(s))
}

/// The algorithm that a name denotes, if any.
pub open spec fn parse_spec(s: Seq<char>) -> Option<Algorithm> {
    let n = normalized(s);
    if n == "1"@ || n == "rr"@ || n == "roundrobin"@ || n == "round_robin"@ {
        Some(Algorithm::RoundRobin)
    } else if n == "2"@ || n == "wrr"@ || n == "weightedroundrobin"@ || n
        == "weighted_round_robin"@ {
        Some(Algorithm::WeightedRoundRobin)
    } else {
        None
    }
}

/// The canonical name of an algorithm.
pub open spec fn name_spec(a: Algorithm) -> Seq<char> {
    match a {
        Algorithm::RoundRobin => "RoundRobin"@,
        Algorithm::WeightedRoundRobin => "WeightedRoundRobin"@,
    }
}

/// A name that starts and ends with a non-space character is its own trimmed form.
proof fn lemma_trim_unpadded(s: Seq<char>)
    requires
        s.len() > 0,
        !crate::text::is_space(s[0]),
        !crate::text::is_space(s.last()),
    ensures
        trim(s) == s,
{
}

/// Parsing the canonical name of an algorithm gives that algorithm back, so a name
/// written with [`Algorithm::name`] is always read back by [`Algorithm::parse`].
pub proof fn lemma_parse_name_roundtrip(a: Algorithm)
    ensures
        parse_spec(name_spec(a)) == Some(a),
{
    reveal_strlit("RoundRobin");
    reveal_strlit("roundrobin");
    reveal_strlit("WeightedRoundRobin");
    reveal_strlit("weightedroundrobin");
    reveal_strlit("1");
    reveal_strlit("rr");
    reveal_strlit("round_robin");
    match a {
        Algorithm::RoundRobin => {
            let s = "RoundRobin"@;
            lemma_trim_unpadded(s);
            assert(lower(s) =~= "roundrobin"@);
        },
        Algorithm::WeightedRoundRobin => {
            let s = "WeightedRoundRobin"@;
            lemma_trim_unpadded(s);
            assert(lower(s) =~= "weightedroundrobin"@);
            assert(lower(s).len() != "1"@.len());
            assert(lower(s).len() != "rr"@.len());
            assert(lower(s).len() != "roundrobin"@.len());
            assert(lower(s).len() != "round_robin"@.len());
        },
    }
}

/// Parsing ignores ASCII case and surrounding white space: a name parses as its
/// lower-case form and as its trimmed form do.
pub proof fn lemma_parse_ignores_case_and_padding(s: Seq<char>)
    ensures
        parse_spec(lower(s)) == parse_spec(s),
        parse_spec(trim(s)) == parse_spec(s),
{
    crate::text::lemma_trim_lower_commute(s);
    crate::text::lemma_lower_idempotent(trim(s));
    crate::text::lemma_trim_idempotent(s);
    assert(normalized(lower(s)) == normalized(s));
    assert(normalized(trim(s)) == normalized(s));
}

impl Algorithm {
    /// Parses an algorithm name, ignoring surrounding white space and ASCII case:
    /// "1", "rr", "roundrobin", "round_robin" give round robin; "2", "wrr",
    /// "weightedroundrobin", "weighted_round_robin" give weighted round robin.
    pub fn parse(s: &str) -> (r: Option<Self>)
        ensures
            r == parse_spec(s@),
    {
        let v = chars_of(s);
        let (lo, hi) = trim_range(&v, 0, v.len());
        assert(v@.subrange(0, v@.len() as int) =~= v@);
        let n = lower_range(&v, lo, hi);
        if chars_equal(&n, "1") || chars_equal(&n, "rr") || chars_equal(&n, "roundrobin")
            || chars_equal(&n, "round_robin") {
            Some(Algorithm::RoundRobin)
        } else if chars_equal(&n, "2") || chars_equal(&n, "wrr") || chars_equal(
            &n,
            "weightedroundrobin",
        ) || chars_equal(&n, "weighted_round_robin") {
            Some(Algorithm::WeightedRoundRobin)
        } else {
            None
        }
    }

    /// The canonical name of the algorithm ("RoundRobin" or "WeightedRoundRobin"), the
    /// form that is stored and reported.
    pub fn name(&self) -> (r: String)
        ensures
            r@ == name_spec(*self),
    {
        match self {
            Algorithm::RoundRobin => String::from_str("RoundRobin"),
            Algorithm::WeightedRoundRobin => String::from_str("WeightedRoundRobin"),
        }
    }
}

/// The weights of a list of backends, in order.
pub open spec fn weights_of(bs: Seq<BackendView>) -> Seq<u32> {
    bs.map_values(|b: BackendView| b.weight)
}

/// The views of a list of backends, in order.
pub open spec fn views_of(bs: Seq<Backend>) -> Seq<BackendView> {
    bs.map_values(|b: Backend| b@)
}

/// Round robin: the index of each backend with a positive weight, once, in order.
pub open spec fn enabled_indices(w: Seq<u32>) -> Seq<usize>
    decreases w.len(),
{
    if w.len() == 0 {
        Seq::empty()
    } else {
        let prev = enabled_indices(w.drop_last());
        if w.last() > 0 {
            prev.push((w.len() - 1) as usize)
        } else {
            prev
        }
    }
}

/// Weighted round robin: the index of each backend repeated as many times as its weight,
/// in order.
pub open spec fn weighted_indices(w: Seq<u32>) -> Seq<usize>
    decreases w.len(),
{
    if w.len() == 0 {
        Seq::empty()
    } else {
        weighted_indices(w.drop_last()) + Seq::new(w.last() as nat, |_j: int| (w.len() - 1) as usize)
    }
}

/// Every index `0..n`, once, in order.
pub open spec fn all_indices(n: nat) -> Seq<usize> {
    Seq::new(n, |i: int| i as usize)
}

/// The table of backend indices that the balancer cycles through: the one of the
/// algorithm, or every backend when that one is empty (every weight is zero).
pub open spec fn virtual_table(w: Seq<u32>, alg: Algorithm) -> Seq<usize> {
    let t = match alg {
        Algorithm::RoundRobin => enabled_indices(w),
        Algorithm::WeightedRoundRobin => weighted_indices(w),
    };
    if t.len() == 0 {
        all_indices(w.len())
    } else {
        t
    }
}

/// Builds the virtual table for `backends` under `algorithm`.
fn build_virtual_indices(backends: &[Backend], algorithm: Algorithm) -> (r: Vec<usize>)
    ensures
        r@ == virtual_table(weights_of(views_of(backends@)), algorithm),
{
    let ghost w = weights_of(views_of(backends@));
    let n = backends.len();
    let mut virtual_indices: Vec<usize> = Vec::new();
    match algorithm {
        Algorithm::RoundRobin => {
            for i in 0..n
                invariant
                    n == backends@.len(),
                    w == weights_of(views_of(backends@)),
                    virtual_indices@ == enabled_indices(w.take(i as int)),
            {
                assert(w.take(i + 1).drop_last() == w.take(i as int));
                if backends[i].weight > 0 {
                    virtual_indices.push(i);
                }
            }
            assert(w.take(n as int) == w);
        },
        Algorithm::WeightedRoundRobin => {
            for i in 0..n
                invariant
                    n == backends@.len(),
                    w == weights_of(views_of(backends@)),
                    virtual_indices@ == weighted_indices(w.take(i as int)),
            {
                assert(w.take(i + 1).drop_last() == w.take(i as int));
                let wt = backends[i].weight;
                let ghost before = virtual_indices@;
                for j in 0..wt
                    invariant
                        virtual_indices@ == before + Seq::new(j as nat, |_k: int| i),
                {
                    virtual_indices.push(i);
                    assert(virtual_indices@ == before + Seq::new((j + 1) as nat, |_k: int| i));
                }
            }
            assert(w.take(n as int) == w);
        },
    }
    if virtual_indices.len() == 0 {
        for i in 0..n
            invariant
                n == backends@.len(),
                virtual_indices@ == all_indices(i as nat),
        {
            virtual_indices.push(i);
            assert(virtual_indices@ == all_indices((i + 1) as nat));
        }
    }
    virtual_indices
}


/// The mutable part of the balancer: the backends, the table it cycles through, and the
/// algorithm that built the table.
pub struct BalancerState {
    pub backends: Vec<Backend>,
    pub virtual_indices: Vec<usize>,
    pub algorithm: Algorithm,
}

/// A load balancer that hands out backends in turn from its virtual table.
pub struct LoadBalancer {
    pub state: BalancerState,
    current: usize,
}

/// The mathematical value of a [`LoadBalancer`].
pub struct BalancerView {
    pub backends: Seq<BackendView>,
    pub algorithm: Algorithm,
    pub table: Seq<usize>,
    pub counter: usize,
}

impl View for LoadBalancer {
    type V = BalancerView;

    closed spec fn view(&self) -> BalancerView {
        BalancerView {
            backends: views_of(self.state.backends@),
            algorithm: self.state.algorithm,
            table: self.state.virtual_indices@,
            counter: self.current,
        }
    }
}

impl BalancerView {
    /// There is at least one backend (and no more than memory can index), and the table
    /// is the one that the weights and the algorithm determine.
    pub open spec fn wf(self) -> bool {
        &&& 0 < self.backends.len() <= usize::MAX
        &&& self.table == virtual_table(weights_of(self.backends), self.algorithm)
    }

    /// The table position that the next pick reads.
    pub open spec fn slot(self) -> int {
        self.counter as int % self.table.len() as int
    }

    /// The backend index that the next pick returns.
    pub open spec fn selection(self) -> usize {
        self.table[self.slot()]
    }
}

/// The counter after one pick: it wraps around at `usize::MAX`.
pub open spec fn next_counter(c: usize) -> usize {
    if c == usize::MAX {
        0
    } else {
        (c + 1) as usize
    }
}

/// A fresh balancer over `backends` with `alg`.
pub open spec fn fresh(backends: Seq<BackendView>, alg: Algorithm) -> BalancerView {
    BalancerView {
        backends,
        algorithm: alg,
        table: virtual_table(weights_of(backends), alg),
        counter: 0,
    }
}

/// `new_weights` agrees with every current weight and covers every backend.
pub open spec fn weights_unchanged(bs: Seq<BackendView>, new_weights: Seq<u32>) -> bool {
    &&& new_weights.len() >= bs.len()
    &&& forall|i: int| 0 <= i < bs.len() ==> new_weights[i] == #[trigger] bs[i].weight
}

/// The backends with the weight of each position that `new_weights` covers replaced.
pub open spec fn reweighted(bs: Seq<BackendView>, new_weights: Seq<u32>) -> Seq<BackendView> {
    Seq::new(
        bs.len(),
        |i: int|
            if i < new_weights.len() {
                BackendView { addr: bs[i].addr, weight: new_weights[i] }
            } else {
                bs[i]
            },
    )
}

/// The balancer after `update_weights(new_weights)`.
pub open spec fn after_update(v: BalancerView, new_weights: Seq<u32>) -> BalancerView {
    if weights_unchanged(v.backends, new_weights) {
        v
    } else {
        fresh(reweighted(v.backends, new_weights), v.algorithm)
    }
}

/// The balancer after `set_algorithm(alg)`.
pub open spec fn after_set_algorithm(v: BalancerView, alg: Algorithm) -> BalancerView {
    if v.algorithm == alg {
        v
    } else {
        fresh(v.backends, alg)
    }
}

/// The balancer after one pick.
pub open spec fn after_pick(v: BalancerView) -> BalancerView {
    BalancerView { counter: next_counter(v.counter), ..v }
}

/// Every index in the round-robin table is below the number of backends.
pub proof fn lemma_enabled_indices_bounded(w: Seq<u32>)
    requires
        w.len() <= usize::MAX,
    ensures
        forall|k: int| 0 <= k < enabled_indices(w).len() ==> #[trigger] enabled_indices(w)[k] < w.len(),
    decreases w.len(),
{
    if w.len() > 0 {
        lemma_enabled_indices_bounded(w.drop_last());
        let prev = enabled_indices(w.drop_last());
        let t = enabled_indices(w);
        assert forall|k: int| 0 <= k < t.len() implies #[trigger] t[k] < w.len() by {
            if k < prev.len() {
                assert(t[k] == prev[k]);
            }
        }
    }
}

/// Every index in the weighted table is below the number of backends.
pub proof fn lemma_weighted_indices_bounded(w: Seq<u32>)
    requires
        w.len() <= usize::MAX,
    ensures
        forall|k: int| 0 <= k < weighted_indices(w).len() ==> #[trigger] weighted_indices(w)[k] < w.len(),
    decreases w.len(),
{
    if w.len() > 0 {
        lemma_weighted_indices_bounded(w.drop_last());
        let prev = weighted_indices(w.drop_last());
        let t = weighted_indices(w);
        assert forall|k: int| 0 <= k < t.len() implies #[trigger] t[k] < w.len() by {
            if k < prev.len() {
                assert(t[k] == prev[k]);
            }
        }
    }
}

/// The virtual table of a nonempty backend list is nonempty and names only existing
/// backends, so a pick never divides by zero nor reads past the list.
pub proof fn lemma_virtual_table_valid(w: Seq<u32>, alg: Algorithm)
    requires
        w.len() > 0,
        w.len() <= usize::MAX,
    ensures
        virtual_table(w, alg).len() > 0,
        forall|k: int|
            0 <= k < virtual_table(w, alg).len() ==> #[trigger] virtual_table(w, alg)[k] < w.len(),
{
    lemma_enabled_indices_bounded(w);
    lemma_weighted_indices_bounded(w);
}

/// Two lists of backends whose views agree position by position have the same views.
pub proof fn lemma_views_of_pointwise(a: Seq<Backend>, b: Seq<Backend>)
    requires
        a.len() == b.len(),
        forall|j: int| 0 <= j < a.len() ==> (#[trigger] a[j])@ == b[j]@,
    ensures
        views_of(a) == views_of(b),
{
    assert(views_of(a) =~= views_of(b));
}

/// Some backend has a positive weight.
pub open spec fn any_enabled(w: Seq<u32>) -> bool {
    exists|i: int| 0 <= i < w.len() && #[trigger] w[i] > 0
}

/// How many entries of the virtual table name backend `i`: one per enabled backend
/// under round robin, its weight under weighted round robin, and one for every
/// backend when none is enabled.
pub open spec fn share(w: Seq<u32>, alg: Algorithm, i: int) -> nat {
    if !any_enabled(w) {
        1
    } else {
        match alg {
            Algorithm::RoundRobin => if w[i] > 0 { 1 } else { 0 },
            Algorithm::WeightedRoundRobin => w[i] as nat,
        }
    }
}

/// A sequence of `n` copies of `x` holds `x` exactly `n` times and nothing else.
proof fn lemma_repeat_count(n: nat, x: usize, y: usize)
    ensures
        Seq::new(n, |_j: int| x).to_multiset().count(y) == if y == x { n } else { 0 },
    decreases n,
{
    broadcast use vstd::seq_lib::group_to_multiset_ensures;

    if n == 0 {
        assert(Seq::new(n, |_j: int| x) =~= Seq::<usize>::empty());
        assert(Seq::<usize>::empty().to_multiset().len() == 0);
    } else {
        lemma_repeat_count((n - 1) as nat, x, y);
        assert(Seq::new(n, |_j: int| x) =~= Seq::new((n - 1) as nat, |_j: int| x).push(x));
    }
}

/// A sequence whose entries are all below `m` holds no value at or above `m`.
proof fn lemma_bounded_count(t: Seq<usize>, m: int, y: usize)
    requires
        forall|k: int| 0 <= k < t.len() ==> #[trigger] t[k] < m,
        y >= m,
    ensures
        t.to_multiset().count(y) == 0,
{
    broadcast use vstd::seq_lib::group_to_multiset_ensures;

    if t.to_multiset().count(y) > 0 {
        assert(t.contains(y));
    }
}

/// The round-robin table names each enabled backend exactly once and nothing else.
pub proof fn lemma_enabled_indices_count(w: Seq<u32>, i: int)
    requires
        w.len() <= usize::MAX,
        0 <= i < w.len(),
    ensures
        enabled_indices(w).to_multiset().count(i as usize) == if w[i] > 0 { 1nat } else { 0nat },
    decreases w.len(),
{
    broadcast use vstd::seq_lib::group_to_multiset_ensures;

    let prev = enabled_indices(w.drop_last());
    let last = w.len() - 1;
    lemma_enabled_indices_bounded(w.drop_last());
    if i < last {
        lemma_enabled_indices_count(w.drop_last(), i);
        assert(w.drop_last()[i] == w[i]);
    } else {
        lemma_bounded_count(prev, last, i as usize);
    }
}

/// The weighted table names each backend exactly as many times as its weight.
pub proof fn lemma_weighted_indices_count(w: Seq<u32>, i: int)
    requires
        w.len() <= usize::MAX,
        0 <= i < w.len(),
    ensures
        weighted_indices(w).to_multiset().count(i as usize) == w[i] as nat,
    decreases w.len(),
{
    broadcast use vstd::seq_lib::group_to_multiset_ensures;

    let prev = weighted_indices(w.drop_last());
    let last = w.len() - 1;
    let rep = Seq::new(w.last() as nat, |_j: int| last as usize);
    lemma_weighted_indices_bounded(w.drop_last());
    vstd::seq_lib::lemma_multiset_commutative(prev, rep);
    lemma_repeat_count(w.last() as nat, last as usize, i as usize);
    if i < last {
        lemma_weighted_indices_count(w.drop_last(), i);
        assert(w.drop_last()[i] == w[i]);
    } else {
        lemma_bounded_count(prev, last, i as usize);
    }
}

/// Every index `0..n` occurs once in `all_indices(n)`.
proof fn lemma_all_indices_count(n: nat, i: int)
    requires
        n <= usize::MAX,
        0 <= i < n,
    ensures
        all_indices(n).to_multiset().count(i as usize) == 1,
    decreases n,
{
    broadcast use vstd::seq_lib::group_to_multiset_ensures;

    let prev = all_indices((n - 1) as nat);
    assert(all_indices(n) =~= prev.push((n - 1) as usize));
    if i < n - 1 {
        lemma_all_indices_count((n - 1) as nat, i);
    } else {
        assert forall|k: int| 0 <= k < prev.len() implies #[trigger] prev[k] < n - 1 by {}
        lemma_bounded_count(prev, n - 1, i as usize);
    }
}

/// Backend `i` occurs in the virtual table exactly `share(w, alg, i)` times: each enabled
/// backend once (round robin) or as often as its weight (weighted), a disabled one never,
/// and, when every backend is disabled, each backend once.
pub proof fn lemma_virtual_table_count(w: Seq<u32>, alg: Algorithm, i: int)
    requires
        w.len() <= usize::MAX,
        0 <= i < w.len(),
    ensures
        virtual_table(w, alg).to_multiset().count(i as usize) == share(w, alg, i),
{
    broadcast use vstd::seq_lib::group_to_multiset_ensures;

    let t = match alg {
        Algorithm::RoundRobin => enabled_indices(w),
        Algorithm::WeightedRoundRobin => weighted_indices(w),
    };
    lemma_enabled_indices_bounded(w);
    lemma_weighted_indices_bounded(w);
    lemma_enabled_indices_count(w, i);
    lemma_weighted_indices_count(w, i);
    if any_enabled(w) {
        let k = choose|k: int| 0 <= k < w.len() && #[trigger] w[k] > 0;
        lemma_enabled_indices_count(w, k);
        lemma_weighted_indices_count(w, k);
        assert(t.to_multiset().count(k as usize) > 0);
        assert(t.len() > 0);
    } else {
        if t.len() > 0 {
            let x = t[0];
            assert(t.contains(x));
            assert(x < w.len());
            lemma_enabled_indices_count(w, x as int);
            lemma_weighted_indices_count(w, x as int);
            assert(w[x as int] == 0);
            assert(false);
        }
        lemma_all_indices_count(w.len(), i);
    }
}

/// The backend indices that `k` successive picks return, starting from `v`.
pub open spec fn picks(v: BalancerView, k: nat) -> Seq<usize>
    decreases k,
{
    if k == 0 {
        Seq::empty()
    } else {
        seq![v.selection()] + picks(after_pick(v), (k - 1) as nat)
    }
}

/// As long as the counter does not wrap, successive picks read successive table
/// positions, cyclically.
proof fn lemma_picks_read_cyclically(v: BalancerView, k: nat)
    requires
        v.table.len() > 0,
        v.counter + k <= usize::MAX + 1,
    ensures
        picks(v, k) =~= Seq::new(k, |j: int| v.table[(v.counter + j) % (v.table.len() as int)]),
    decreases k,
{
    if k > 0 {
        let u = after_pick(v);
        if k > 1 {
            assert(u.counter == v.counter + 1);
            lemma_picks_read_cyclically(u, (k - 1) as nat);
        } else {
            assert(picks(u, 0) =~= Seq::<usize>::empty());
        }
        assert(picks(v, k).len() == k);
        assert forall|j: int| 0 <= j < k implies #[trigger] picks(v, k)[j]
            == v.table[(v.counter + j) % (v.table.len() as int)] by {
            if j > 0 {
                assert(picks(v, k)[j] == picks(u, (k - 1) as nat)[j - 1]);
                assert(u.counter + (j - 1) == v.counter + j);
            }
        }
    }
}

/// Reading a sequence cyclically from any start for one full turn visits every entry
/// once: the result holds the same values, as often, as the sequence.
proof fn lemma_rotation_same_multiset(t: Seq<usize>, c: int)
    requires
        t.len() > 0,
        c >= 0,
    ensures
        Seq::new(t.len(), |j: int| t[(c + j) % (t.len() as int)]).to_multiset() == t.to_multiset(),
{
    let len = t.len() as int;
    let rot = Seq::new(t.len(), |j: int| t[(c + j) % len]);
    let r = c % len;
    vstd::arithmetic::div_mod::lemma_mod_bound(c, len);
    let tail = t.subrange(r, len);
    let head = t.subrange(0, r);
    assert forall|j: int| 0 <= j < len implies #[trigger] rot[j] == (tail + head)[j] by {
        vstd::arithmetic::div_mod::lemma_small_mod(j as nat, len as nat);
        vstd::arithmetic::div_mod::lemma_add_mod_noop(c, j, len);
        if r + j < len {
            vstd::arithmetic::div_mod::lemma_small_mod((r + j) as nat, len as nat);
        } else {
            vstd::arithmetic::div_mod::lemma_mod_add_multiples_vanish(r + j - len, len);
            vstd::arithmetic::div_mod::lemma_small_mod((r + j - len) as nat, len as nat);
        }
    }
    assert(rot =~= tail + head);
    assert(t =~= head + tail);
    vstd::seq_lib::lemma_seq_union_to_multiset_commutative(tail, head);
}

/// Fair distribution: over any `L` successive picks, where `L` is the length of the
/// table and the counter does not wrap on the way, backend `i` is picked exactly
/// `share(w, alg, i)` times (its weight under weighted round robin, once when enabled
/// under round robin).
pub proof fn lemma_window_is_fair(v: BalancerView, i: int)
    requires
        v.wf(),
        0 <= i < v.backends.len(),
        v.counter + v.table.len() <= usize::MAX + 1,
    ensures
        picks(v, v.table.len()).to_multiset().count(i as usize)
            == share(weights_of(v.backends), v.algorithm, i),
{
    let w = weights_of(v.backends);
    lemma_virtual_table_valid(w, v.algorithm);
    lemma_picks_read_cyclically(v, v.table.len());
    lemma_rotation_same_multiset(v.table, v.counter as int);
    lemma_virtual_table_count(w, v.algorithm, i);
}

/// A backend with weight zero is never picked while some backend has a positive weight:
/// operator-disabled and unhealthy backends are out of rotation.
pub proof fn lemma_disabled_never_picked(v: BalancerView)
    requires
        v.wf(),
        any_enabled(weights_of(v.backends)),
    ensures
        v.backends[v.selection() as int].weight > 0,
{
    broadcast use vstd::seq_lib::group_to_multiset_ensures;

    let w = weights_of(v.backends);
    lemma_virtual_table_valid(w, v.algorithm);
    vstd::arithmetic::div_mod::lemma_mod_bound(v.counter as int, v.table.len() as int);
    let x = v.selection();
    assert(v.table.contains(x));
    lemma_virtual_table_count(w, v.algorithm, x as int);
}

/// Weight updates keep the backends and their addresses; each backend that the new
/// weights cover takes its new weight, the others keep theirs.
pub proof fn lemma_update_sets_weights(v: BalancerView, new_weights: Seq<u32>)
    ensures
        after_update(v, new_weights).backends.len() == v.backends.len(),
        after_update(v, new_weights).algorithm == v.algorithm,
        forall|i: int|
            0 <= i < v.backends.len() ==> {
                &&& (#[trigger] after_update(v, new_weights).backends[i]).addr == v.backends[i].addr
                &&& after_update(v, new_weights).backends[i].weight == if i < new_weights.len() {
                    new_weights[i]
                } else {
                    v.backends[i].weight
                }
            },
{
}

/// Applying the same weights twice leaves the balancer as applying them once.
pub proof fn lemma_update_idempotent(v: BalancerView, new_weights: Seq<u32>)
    ensures
        after_update(after_update(v, new_weights), new_weights) == after_update(v, new_weights),
{
    if !weights_unchanged(v.backends, new_weights) {
        let bs = reweighted(v.backends, new_weights);
        assert(reweighted(bs, new_weights) =~= bs);
    }
}

/// After a switch the balancer runs the requested algorithm over the same backends.
pub proof fn lemma_set_algorithm_applies(v: BalancerView, alg: Algorithm)
    ensures
        after_set_algorithm(v, alg).algorithm == alg,
        after_set_algorithm(v, alg).backends == v.backends,
        after_set_algorithm(after_set_algorithm(v, alg), alg) == after_set_algorithm(v, alg),
{
}

/// `s` with each run of equal neighbouring entries collapsed to one entry (what
/// `Vec::dedup` leaves).
pub open spec fn dedup(s: Seq<usize>) -> Seq<usize>
    decreases s.len(),
{
    if s.len() == 0 {
        Seq::empty()
    } else if s.len() > 1 && s[s.len() - 2] == s.last() {
        dedup(s.drop_last())
    } else {
        dedup(s.drop_last()).push(s.last())
    }
}

/// Appending `k` copies of a value that differs from the last entry of `t` (or to an
/// empty `t`) adds it once to the collapsed sequence.
proof fn lemma_dedup_append_repeat(t: Seq<usize>, k: nat, x: usize)
    requires
        t.len() > 0 ==> t.last() != x,
    ensures
        dedup(t + Seq::new(k, |_j: int| x)) == if k > 0 { dedup(t).push(x) } else { dedup(t) },
    decreases k,
{
    let u = t + Seq::new(k, |_j: int| x);
    if k == 0 {
        assert(u =~= t);
    } else {
        let prev = t + Seq::new((k - 1) as nat, |_j: int| x);
        assert(u.drop_last() =~= prev);
        assert(u.last() == x);
        lemma_dedup_append_repeat(t, (k - 1) as nat, x);
        if k > 1 {
            assert(u[u.len() - 2] == x);
        } else {
            assert(prev =~= t);
        }
    }
}

/// Collapsing repeats in the weighted table gives the round-robin table.
proof fn lemma_dedup_weighted(w: Seq<u32>)
    requires
        w.len() <= usize::MAX,
    ensures
        dedup(weighted_indices(w)) == enabled_indices(w),
    decreases w.len(),
{
    if w.len() > 0 {
        let last = (w.len() - 1) as usize;
        let prev = weighted_indices(w.drop_last());
        lemma_dedup_weighted(w.drop_last());
        lemma_weighted_indices_bounded(w.drop_last());
        if prev.len() > 0 {
            assert(prev.last() == prev[prev.len() - 1]);
        }
        lemma_dedup_append_repeat(prev, w.last() as nat, last);
    }
}

/// A strictly increasing sequence has no repeats to collapse.
proof fn lemma_dedup_all_indices(n: nat)
    requires
        n <= usize::MAX,
    ensures
        dedup(all_indices(n)) == all_indices(n),
    decreases n,
{
    if n > 0 {
        lemma_dedup_all_indices((n - 1) as nat);
        assert(all_indices(n).drop_last() =~= all_indices((n - 1) as nat));
        assert(all_indices(n) =~= all_indices((n - 1) as nat).push((n - 1) as usize));
    }
}

/// Round robin keeps the same backends in rotation as weighted round robin: its table is
/// the weighted table with each run of repeats collapsed to one entry, when some backend
/// is enabled and in the fall-back to every backend alike.
pub proof fn lemma_round_robin_collapses_weighted(w: Seq<u32>)
    requires
        w.len() <= usize::MAX,
    ensures
        dedup(virtual_table(w, Algorithm::WeightedRoundRobin)) == virtual_table(w, Algorithm::RoundRobin),
{
    lemma_dedup_weighted(w);
    lemma_dedup_all_indices(w.len());
    let wt = weighted_indices(w);
    let rr = enabled_indices(w);
    if wt.len() == 0 {
        assert(dedup(wt) =~= Seq::<usize>::empty());
    } else if rr.len() == 0 {
        assert(dedup(wt).len() > 0) by {
            lemma_dedup_nonempty(wt);
        }
    }
}

/// Collapsing repeats keeps a nonempty sequence nonempty.
proof fn lemma_dedup_nonempty(s: Seq<usize>)
    requires
        s.len() > 0,
    ensures
        dedup(s).len() > 0,
    decreases s.len(),
{
    if s.len() > 1 && s[s.len() - 2] == s.last() {
        lemma_dedup_nonempty(s.drop_last());
    }
}

impl LoadBalancer {
    /// Creates a balancer over `backends` (at least one) with `algorithm`; the first pick
    /// reads the start of the table.
    pub fn new(backends: Vec<Backend>, algorithm: Algorithm) -> (lb: Self)
        requires
            backends@.len() > 0,
        ensures
            lb@ == fresh(views_of(backends@), algorithm),
            lb@.wf(),
    {
        let n = backends.len();
        let virtual_indices = build_virtual_indices(backends.as_slice(), algorithm);
        let state = BalancerState { virtual_indices, backends, algorithm };
        LoadBalancer { state, current: 0 }
    }

    /// Sets the weight of each backend that `new_weights` covers (extra entries are
    /// ignored) and rebuilds the table, restarting the rotation. When `new_weights`
    /// repeats every current weight, nothing changes, the rotation included.
    pub fn update_weights(&mut self, new_weights: Vec<u32>)
        requires
            old(self)@.wf(),
        ensures
            final(self)@ == after_update(old(self)@, new_weights@),
            final(self)@.wf(),
    {
        let ghost old_bs = self@.backends;
        let n = self.state.backends.len();
        let m = new_weights.len();
        let mut same = true;
        let mut i: usize = 0;
        while i < n && i < m
            invariant
                n == self.state.backends@.len(),
                m == new_weights@.len(),
                old_bs == views_of(self.state.backends@),
                i <= n,
                i <= m,
                same == (forall|j: int| 0 <= j < i ==> new_weights@[j] == #[trigger] old_bs[j].weight),
            decreases n - i,
        {
            assert(old_bs[i as int].weight == self.state.backends@[i as int].weight);
            if new_weights[i] != self.state.backends[i].weight {
                same = false;
            }
            i = i + 1;
        }
        if same && m >= n {
            assert(weights_unchanged(old_bs, new_weights@));
            return;
        }
        assert(!weights_unchanged(old_bs, new_weights@)) by {
            if m >= n {
                assert(i == n);
            }
        }
        let k = if n < m { n } else { m };
        let ghost target = reweighted(old_bs, new_weights@);
        for i in 0..k
            invariant
                k <= n,
                k <= m,
                k == n || k == m,
                n == self.state.backends@.len(),
                m == new_weights@.len(),
                old_bs.len() == n,
                self.state.algorithm == old(self).state.algorithm,
                target == reweighted(old_bs, new_weights@),
                forall|j: int| 0 <= j < i ==> (#[trigger] self.state.backends@[j])@ == target[j],
                forall|j: int| i <= j < n ==> (#[trigger] self.state.backends@[j])@ == old_bs[j],
        {
            self.state.backends[i].weight = new_weights[i];
        }
        assert(views_of(self.state.backends@) =~= target) by {
            assert forall|j: int| 0 <= j < n implies #[trigger] views_of(self.state.backends@)[j] == target[j] by {
                if j >= k {
                    assert(j >= m);
                }
            }
        }
        let alg = self.state.algorithm;
        self.state.virtual_indices = build_virtual_indices(self.state.backends.as_slice(), alg);
        self.current = 0;
    }

    /// Switches the routing algorithm, rebuilding the table and restarting the rotation;
    /// does nothing when `new_alg` is the current algorithm.
    pub fn set_algorithm(&mut self, new_alg: Algorithm)
        requires
            old(self)@.wf(),
        ensures
            final(self)@ == after_set_algorithm(old(self)@, new_alg),
            final(self)@.wf(),
    {
        if self.state.algorithm == new_alg {
            return;
        }
        self.state.algorithm = new_alg;
        self.state.virtual_indices = build_virtual_indices(self.state.backends.as_slice(), new_alg);
        self.current = 0;
    }

    /// The virtual table that picks cycle through.
    pub fn table(&self) -> (r: &Vec<usize>)
        ensures
            r@ == self@.table,
    {
        &self.state.virtual_indices
    }

    /// The current routing algorithm.
    pub fn algorithm(&self) -> (r: Algorithm)
        ensures
            r == self@.algorithm,
    {
        self.state.algorithm
    }

    /// A copy of the backends, in order.
    pub fn backends(&self) -> (r: Vec<Backend>)
        ensures
            views_of(r@) == self@.backends,
    {
        let n = self.state.backends.len();
        let mut out: Vec<Backend> = Vec::new();
        for i in 0..n
            invariant
                n == self.state.backends@.len(),
                out@.len() == i,
                forall|j: int| 0 <= j < i ==> (#[trigger] out@[j])@ == self.state.backends@[j]@,
        {
            out.push(copy_backend(&self.state.backends[i]));
        }
        proof {
            lemma_views_of_pointwise(out@, self.state.backends@);
        }
        out
    }

    /// Picks the next backend: the table entry at the counter (modulo the table's
    /// length), with its index; the counter then advances.
    pub fn next_backend(&mut self) -> (r: (usize, Backend))
        requires
            old(self)@.wf(),
        ensures
            r.0 == old(self)@.selection(),
            r.0 < old(self)@.backends.len(),
            r.1@ == old(self)@.backends[r.0 as int],
            final(self)@ == after_pick(old(self)@),
            final(self)@.wf(),
    {
        let n = self.state.backends.len();
        proof {
            lemma_virtual_table_valid(weights_of(self@.backends), self@.algorithm);
        }
        let index = self.current;
        self.current = if index == usize::MAX { 0 } else { index + 1 };
        let len = self.state.virtual_indices.len();
        let v_index = self.state.virtual_indices[index % len];
        let backend = copy_backend(&self.state.backends[v_index]);
        (v_index, backend)
    }
}

} // verus!
