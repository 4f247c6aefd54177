//! The per-client interest and priority engine: priorities accrue per
//! (entity, replicate id) pair until sent, candidates are ordered
//! deterministically, accepted greedily under a byte budget, and the
//! result is closed under the registry's component dependencies.

use vstd::prelude::*;

verus! {

use crate::ordmap::{lemma_submap_entries_len, OrdMap};

broadcast use vstd::seq_lib::group_to_multiset_ensures, vstd::multiset::group_multiset_axioms;

/// The replicate catalogue the engine consults: each registered component
/// type's priority accrual rate, and the declared dependencies between
/// component types (a collider requires a rigid body).
pub struct ReplicateRegistry {
    rates: OrdMap<u64>,
    deps: OrdMap<Vec<u64>>,
}

impl ReplicateRegistry {
    /// The registered replicate ids and their priority accrual rates.
    pub closed spec fn spec_rates(self) -> Map<u64, u64> {
        self.rates@
    }

    /// Component type `a` requires component type `b`.
    pub closed spec fn dep_on(self, a: u64, b: u64) -> bool {
        self.deps@.contains_key(a) && self.deps@[a]@.contains(b)
    }

    /// Every declared dependency is between registered ids.
    pub closed spec fn wf(self) -> bool {
        &&& self.rates.wf()
        &&& self.deps.wf()
        &&& forall|a: u64| #[trigger]
            self.deps@.contains_key(a) ==> self.spec_rates().contains_key(a) && forall|j: int|
                0 <= j < self.deps@[a]@.len() ==> self.spec_rates().contains_key(
                    #[trigger] self.deps@[a]@[j],
                )
    }

    pub fn new() -> (r: Self)
        ensures
            r.wf(),
            r.spec_rates() == Map::<u64, u64>::empty(),
            forall|a: u64, b: u64| !r.dep_on(a, b),
    {
        ReplicateRegistry { rates: OrdMap::new(), deps: OrdMap::new() }
    }

    /// Register a component type with its priority accrual rate.
    pub fn register(&mut self, id: u64, rate: u64)
        requires
            old(self).wf(),
        ensures
            final(self).wf(),
            final(self).spec_rates() == old(self).spec_rates().insert(id, rate),
            forall|a: u64, b: u64| final(self).dep_on(a, b) == old(self).dep_on(a, b),
    {
        self.rates.insert(id, rate);
    }

    pub fn is_registered(&self, id: u64) -> (r: bool)
        requires
            self.wf(),
        ensures
            r <==> self.spec_rates().contains_key(id),
    {
        self.rates.contains_key(id)
    }

    /// The priority accrual rate of a registered id; an unregistered id
    /// accrues nothing.
    pub fn rate_of(&self, id: u64) -> (r: u64)
        requires
            self.wf(),
        ensures
            self.spec_rates().contains_key(id) ==> r == self.spec_rates()[id],
            !self.spec_rates().contains_key(id) ==> r == 0,
    {
        match self.rates.get(id) {
            Some(rate) => *rate,
            None => 0,
        }
    }

    /// Declare that component type `a` requires component type `b`: the
    /// engine will never select `a` for an entity without also selecting
    /// `b` for it.
    pub fn require_dependency(&mut self, a: u64, b: u64)
        requires
            old(self).wf(),
            old(self).spec_rates().contains_key(a),
            old(self).spec_rates().contains_key(b),
        ensures
            final(self).wf(),
            final(self).spec_rates() == old(self).spec_rates(),
            forall|x: u64, y: u64|
                #![trigger final(self).dep_on(x, y)]
                final(self).dep_on(x, y) <==> (old(self).dep_on(x, y) || (x == a && y == b)),
    {
        let ghost oldseq: Seq<u64> = if old(self).deps@.contains_key(a) {
            old(self).deps@[a]@
        } else {
            Seq::<u64>::empty()
        };
        let mut targets = match self.deps.remove(a) {
            Some(t) => t,
            None => Vec::new(),
        };
        proof {
            assert(targets@ == oldseq);
        }
        targets.push(b);
        self.deps.insert(a, targets);
        proof {
            assert(self.deps@.contains_key(a));
            assert(self.deps@[a]@ == oldseq.push(b));
            assert forall|x: u64, y: u64|
                #![trigger final(self).dep_on(x, y)]
                final(self).dep_on(x, y) <==> (old(self).dep_on(x, y) || (x == a && y
                    == b)) by {
                if x == a {
                    let s = oldseq;
                    if final(self).dep_on(a, y) {
                        let i = choose|i: int| 0 <= i < s.push(b).len() && s.push(b)[i] == y;
                        if i < s.len() {
                            assert(s[i] == y);
                            assert(s.contains(y));
                        } else {
                            assert(y == b);
                        }
                    }
                    if old(self).dep_on(a, y) {
                        let i = choose|i: int| 0 <= i < s.len() && s[i] == y;
                        assert(s.push(b)[i] == y);
                        assert(s.push(b).contains(y));
                    }
                    if y == b {
                        assert(s.push(b)[s.len() as int] == b);
                        assert(s.push(b).contains(b));
                    }
                } else {
                    assert(self.deps@.contains_key(x) == old(self).deps@.contains_key(x));
                    if self.deps@.contains_key(x) {
                        assert(self.deps@[x] == old(self).deps@[x]);
                    }
                }
            }
        }
    }

    /// The dependency targets of an id, for closing a selection.
    fn deps_of(&self, id: u64) -> (r: Option<&Vec<u64>>)
        requires
            self.wf(),
        ensures
            r is None ==> forall|b: u64| !self.dep_on(id, b),
            r matches Some(v) ==> (forall|b: u64| self.dep_on(id, b) <==> v@.contains(b))
                && forall|j: int|
                0 <= j < v@.len() ==> self.spec_rates().contains_key(#[trigger] v@[j]),
    {
        self.deps.get(id)
    }
}

/// Rolling averages of encoded component sizes, per replicate id, used
/// to honour a byte budget without encoding up front.
pub struct ReplicateSizeEstimates {
    data: OrdMap<(u64, u64)>,
}

impl ReplicateSizeEstimates {
    pub closed spec fn spec_counts(self) -> Map<u64, (u64, u64)> {
        self.data@
    }

    pub closed spec fn wf(self) -> bool {
        self.data.wf()
    }

    /// The current estimate: the mean of the recorded sizes, rounded
    /// down; zero while nothing was recorded.
    pub open spec fn spec_estimate(self, id: u64) -> u64 {
        if self.spec_counts().contains_key(id) && self.spec_counts()[id].0 > 0 {
            (self.spec_counts()[id].1 / self.spec_counts()[id].0) as u64
        } else {
            0
        }
    }

    pub fn new() -> (r: Self)
        ensures
            r.wf(),
            r.spec_counts() == Map::<u64, (u64, u64)>::empty(),
    {
        ReplicateSizeEstimates { data: OrdMap::new() }
    }

    /// Record one observed encoded size, saturating at the top of the
    /// counters' range.
    pub fn add(&mut self, id: u64, size: u64)
        requires
            old(self).wf(),
        ensures
            final(self).wf(),
            ({
                let prev = if old(self).spec_counts().contains_key(id) {
                    old(self).spec_counts()[id]
                } else {
                    (0u64, 0u64)
                };
                let count = if prev.0 == u64::MAX {
                    u64::MAX
                } else {
                    (prev.0 + 1) as u64
                };
                let total = if prev.1 > u64::MAX - size {
                    u64::MAX
                } else {
                    (prev.1 + size) as u64
                };
                final(self).spec_counts() == old(self).spec_counts().insert(id, (count, total))
            }),
    {
        let prev = match self.data.get(id) {
            Some(p) => *p,
            None => (0u64, 0u64),
        };
        let count = if prev.0 == u64::MAX {
            u64::MAX
        } else {
            prev.0 + 1
        };
        let total = if prev.1 > u64::MAX - size {
            u64::MAX
        } else {
            prev.1 + size
        };
        self.data.insert(id, (count, total));
    }

    /// The current size estimate for an id.
    pub fn estimate(&self, id: u64) -> (r: u64)
        requires
            self.wf(),
        ensures
            r == self.spec_estimate(id),
    {
        match self.data.get(id) {
            Some(p) => {
                if p.0 > 0 {
                    p.1 / p.0
                } else {
                    0
                }
            },
            None => 0,
        }
    }
}

/// Per-(entity, replicate id) transmission priority for one client,
/// rising each tick until the pair is sent, then cleared.
pub struct PriorityAccumulator {
    data: OrdMap<OrdMap<u64>>,
}

impl PriorityAccumulator {
    pub closed spec fn wf(self) -> bool {
        self.data.wf() && forall|e: u64| #[trigger]
            self.data@.contains_key(e) ==> self.data@[e].wf()
    }

    /// The priority of a pair; a pair never bumped has priority zero.
    pub closed spec fn spec_priority(self, entity: u64, id: u64) -> u64 {
        if self.data@.contains_key(entity) && self.data@[entity]@.contains_key(id) {
            self.data@[entity]@[id]
        } else {
            0
        }
    }

    pub fn new() -> (r: Self)
        ensures
            r.wf(),
            forall|e: u64, id: u64| r.spec_priority(e, id) == 0,
    {
        PriorityAccumulator { data: OrdMap::new() }
    }

    pub fn priority_of(&self, entity: u64, id: u64) -> (r: u64)
        requires
            self.wf(),
        ensures
            r == self.spec_priority(entity, id),
    {
        match self.data.get(entity) {
            Some(ids) => match ids.get(id) {
                Some(p) => *p,
                None => 0,
            },
            None => 0,
        }
    }

    /// Raise one pair's priority by its type's rate, saturating.
    pub fn bump(&mut self, entity: u64, id: u64, rate: u64)
        requires
            old(self).wf(),
        ensures
            final(self).wf(),
            final(self).spec_priority(entity, id) == (if old(self).spec_priority(entity, id)
                > u64::MAX - rate {
                u64::MAX
            } else {
                (old(self).spec_priority(entity, id) + rate) as u64
            }),
            forall|e: u64, i: u64|
                #![trigger final(self).spec_priority(e, i)]
                (e != entity || i != id) ==> final(self).spec_priority(e, i) == old(
                    self,
                ).spec_priority(e, i),
    {
        let mut ids = match self.data.remove(entity) {
            Some(m) => m,
            None => OrdMap::new(),
        };
        let prev = match ids.get(id) {
            Some(p) => *p,
            None => 0,
        };
        let next = if prev > u64::MAX - rate {
            u64::MAX
        } else {
            prev + rate
        };
        ids.insert(id, next);
        self.data.insert(entity, ids);
    }

    /// Clear one pair's priority back to zero, after it was sent.
    pub fn clear_sent(&mut self, entity: u64, id: u64)
        requires
            old(self).wf(),
        ensures
            final(self).wf(),
            final(self).spec_priority(entity, id) == 0,
            forall|e: u64, i: u64|
                #![trigger final(self).spec_priority(e, i)]
                (e != entity || i != id) ==> final(self).spec_priority(e, i) == old(
                    self,
                ).spec_priority(e, i),
    {
        match self.data.remove(entity) {
            Some(mut ids) => {
                ids.remove(id);
                self.data.insert(entity, ids);
            },
            None => {},
        }
    }
}

/// Pushing onto a sequence keeps its elements and adds the new one.
proof fn lemma_push_contains<A>(s: Seq<A>, x: A)
    ensures
        forall|y: A| #[trigger] s.push(x).contains(y) <==> s.contains(y) || y == x,
{
    assert forall|y: A| #[trigger] s.push(x).contains(y) implies s.contains(y) || y == x by {
        let i = choose|i: int| 0 <= i < s.push(x).len() && s.push(x)[i] == y;
        if i < s.len() {
            assert(s[i] == y);
        }
    }
    assert forall|y: A| s.contains(y) implies #[trigger] s.push(x).contains(y) by {
        let i = choose|i: int| 0 <= i < s.len() && s[i] == y;
        assert(s.push(x)[i] == y);
    }
    assert(s.push(x)[s.len() as int] == x);
}

/// Popping the last element keeps every other element.
proof fn lemma_drop_last_contains<A>(s: Seq<A>)
    requires
        s.len() > 0,
    ensures
        forall|y: A| s.contains(y) ==> #[trigger] s.drop_last().contains(y) || y == s.last(),
        forall|y: A| #[trigger] s.drop_last().contains(y) ==> s.contains(y),
{
    assert forall|y: A| s.contains(y) implies #[trigger] s.drop_last().contains(y) || y
        == s.last() by {
        let i = choose|i: int| 0 <= i < s.len() && s[i] == y;
        if i < s.len() - 1 {
            assert(s.drop_last()[i] == y);
        }
    }
    assert forall|y: A| #[trigger] s.drop_last().contains(y) implies s.contains(y) by {
        let i = choose|i: int| 0 <= i < s.drop_last().len() && s.drop_last()[i] == y;
        assert(s[i] == y);
    }
}

/// Inserting an element anywhere adds exactly it to the multiset.
proof fn lemma_multiset_insert_mid<A>(s: Seq<A>, pos: int, x: A)
    requires
        0 <= pos <= s.len(),
    ensures
        s.insert(pos, x).to_multiset() == s.to_multiset().insert(x),
{
    let t = s.insert(pos, x);
    assert(t.remove(pos) =~= s);
    assert(t[pos] == x);
    assert(t.to_multiset().remove(x) == s.to_multiset());
    assert(t.contains(x));
    assert(t.to_multiset().count(x) > 0);
    assert forall|y: A| t.to_multiset().count(y) == s.to_multiset().insert(x).count(y) by {
        if y != x {
            assert(t.to_multiset().remove(x).count(y) == t.to_multiset().count(y));
        }
    }
    assert(t.to_multiset() =~= s.to_multiset().insert(x));
}

/// The deterministic candidate order: higher priority first, ties broken
/// by lower entity, then lower replicate id. A candidate is the triple
/// (priority, entity, replicate id).
pub open spec fn spec_cand_le(x: (u64, u64, u64), y: (u64, u64, u64)) -> bool {
    x.0 > y.0 || (x.0 == y.0 && (x.1 < y.1 || (x.1 == y.1 && x.2 <= y.2)))
}

/// The candidate order as a relation value, for `sort_by`.
pub open spec fn cand_order() -> spec_fn((u64, u64, u64), (u64, u64, u64)) -> bool {
    |x: (u64, u64, u64), y: (u64, u64, u64)| spec_cand_le(x, y)
}

/// The candidate order is a total order.
pub proof fn lemma_cand_order_total()
    ensures
        vstd::relations::total_ordering(cand_order()),
{
    let leq = cand_order();
    assert forall|x: (u64, u64, u64)| #[trigger] leq(x, x) by {}
    assert forall|x: (u64, u64, u64), y: (u64, u64, u64)|
        #[trigger] leq(x, y) && #[trigger] leq(y, x) implies x == y by {
        assert(x.0 == y.0 && x.1 == y.1 && x.2 == y.2);
    }
    assert forall|x: (u64, u64, u64), y: (u64, u64, u64), z: (u64, u64, u64)|
        #[trigger] leq(x, y) && #[trigger] leq(y, z) implies leq(x, z) by {}
    assert forall|x: (u64, u64, u64), y: (u64, u64, u64)| #[trigger]
        leq(x, y) || #[trigger] leq(y, x) by {}
}

fn cand_le(x: (u64, u64, u64), y: (u64, u64, u64)) -> (r: bool)
    ensures
        r == spec_cand_le(x, y),
{
    x.0 > y.0 || (x.0 == y.0 && (x.1 < y.1 || (x.1 == y.1 && x.2 <= y.2)))
}

/// Order candidates for deterministic selection: descending priority,
/// ties by ascending (entity, replicate id). The result holds exactly the
/// input's candidates, in the one order the candidate order allows.
pub fn sort_candidates(input: &Vec<(u64, u64, u64)>) -> (r: Vec<(u64, u64, u64)>)
    ensures
        forall|i: int, j: int|
            0 <= i < j < r@.len() ==> spec_cand_le(#[trigger] r@[i], #[trigger] r@[j]),
        r@.to_multiset() == input@.to_multiset(),
        r@ == input@.sort_by(cand_order()),
{
    let mut out: Vec<(u64, u64, u64)> = Vec::new();
    let mut idx: usize = 0;
    proof {
        assert(input@.take(0) =~= Seq::<(u64, u64, u64)>::empty());
        assert(out@.to_multiset() =~= input@.take(0).to_multiset());
    }
    while idx < input.len()
        invariant
            idx <= input@.len(),
            forall|i: int, j: int|
                0 <= i < j < out@.len() ==> spec_cand_le(#[trigger] out@[i], #[trigger] out@[j]),
            out@.to_multiset() == input@.take(idx as int).to_multiset(),
        decreases input@.len() - idx,
    {
        let x = input[idx];
        let mut pos: usize = 0;
        while pos < out.len() && cand_le(out[pos], x)
            invariant
                pos <= out@.len(),
                forall|j: int| 0 <= j < pos ==> spec_cand_le(#[trigger] out@[j], x),
            decreases out@.len() - pos,
        {
            pos = pos + 1;
        }
        let ghost prev = out@;
        let ghost p = pos as int;
        out.insert(pos, x);
        proof {
            lemma_multiset_insert_mid(prev, p, x);
            assert(input@.take(idx as int + 1) =~= input@.take(idx as int).push(x));
            assert(input@.take(idx as int + 1).to_multiset() == input@.take(
                idx as int,
            ).to_multiset().insert(x));
            assert forall|i: int, j: int|
                0 <= i < j < out@.len() implies spec_cand_le(#[trigger] out@[i], #[trigger] out@[j]) by {
                if i < p {
                    assert(out@[i] == prev[i]);
                }
                if i > p {
                    assert(out@[i] == prev[i - 1]);
                }
                if j < p {
                    assert(out@[j] == prev[j]);
                }
                if j > p {
                    assert(out@[j] == prev[j - 1]);
                }
                if j == p {
                    assert(spec_cand_le(prev[i], x));
                }
                if i == p {
                    assert(p < prev.len());
                    assert(!spec_cand_le(prev[p], x));
                    assert(spec_cand_le(x, prev[p]));
                    assert(spec_cand_le(prev[p], prev[j - 1]) || p == j - 1);
                }
            }
        }
        idx = idx + 1;
    }
    proof {
        assert(input@.take(input@.len() as int) =~= input@);
        let leq = cand_order();
        lemma_cand_order_total();
        input@.lemma_sort_by_ensures(leq);
        assert forall|i: int, j: int| 0 <= i < j < out@.len() implies #[trigger] leq(
            out@[i],
            out@[j],
        ) by {
            assert(spec_cand_le(out@[i], out@[j]));
        }
        vstd::seq_lib::lemma_sorted_unique(out@, input@.sort_by(leq), leq);
    }
    out
}

/// What greedy budgeted selection takes from an ordered candidate run:
/// the longest prefix whose estimated sizes fit the budget, stopping at
/// the first candidate that does not fit.
pub open spec fn spec_greedy(
    est: ReplicateSizeEstimates,
    cands: Seq<(u64, u64, u64)>,
    budget: u64,
) -> Seq<(u64, u64)>
    decreases cands.len(),
{
    if cands.len() == 0 {
        Seq::empty()
    } else {
        let sz = est.spec_estimate(cands[0].2);
        if sz <= budget {
            seq![(cands[0].1, cands[0].2)] + spec_greedy(
                est,
                cands.drop_first(),
                (budget - sz) as u64,
            )
        } else {
            Seq::empty()
        }
    }
}

/// Every pair the greedy stage takes is one of the candidates.
pub proof fn lemma_greedy_elements(
    est: ReplicateSizeEstimates,
    cands: Seq<(u64, u64, u64)>,
    budget: u64,
)
    ensures
        forall|j: int|
            0 <= j < spec_greedy(est, cands, budget).len() ==> exists|i: int|
                0 <= i < cands.len() && (#[trigger] spec_greedy(est, cands, budget)[j]) == ((
                #[trigger] cands[i]).1, cands[i].2),
    decreases cands.len(),
{
    if cands.len() > 0 {
        let sz = est.spec_estimate(cands[0].2);
        if sz <= budget {
            let rest = spec_greedy(est, cands.drop_first(), (budget - sz) as u64);
            lemma_greedy_elements(est, cands.drop_first(), (budget - sz) as u64);
            assert forall|j: int|
                0 <= j < spec_greedy(est, cands, budget).len() implies exists|i: int|
                0 <= i < cands.len() && (#[trigger] spec_greedy(est, cands, budget)[j]) == ((
            #[trigger] cands[i]).1, cands[i].2) by {
                if j == 0 {
                    assert(spec_greedy(est, cands, budget)[0] == (cands[0].1, cands[0].2));
                } else {
                    assert(spec_greedy(est, cands, budget)[j] == rest[j - 1]);
                    let i = choose|i: int|
                        0 <= i < cands.drop_first().len() && rest[j - 1] == ((
                    #[trigger] cands.drop_first()[i]).1, cands.drop_first()[i].2);
                    assert(cands.drop_first()[i] == cands[i + 1]);
                }
            }
        }
    }
}

/// Accept ordered candidates greedily, accumulating estimated sizes until
/// the next candidate would exceed the budget.
pub fn select_within_budget(
    est: &ReplicateSizeEstimates,
    cands: &Vec<(u64, u64, u64)>,
    budget: u64,
) -> (r: Vec<(u64, u64)>)
    requires
        est.wf(),
    ensures
        r@ == spec_greedy(*est, cands@, budget),
{
    let mut r: Vec<(u64, u64)> = Vec::new();
    let mut i: usize = 0;
    let mut rem: u64 = budget;
    proof {
        assert(cands@.skip(0) =~= cands@);
        assert(r@ + spec_greedy(*est, cands@, budget) =~= spec_greedy(*est, cands@, budget));
    }
    while i < cands.len()
        invariant_except_break
            est.wf(),
            i <= cands@.len(),
            spec_greedy(*est, cands@, budget) == r@ + spec_greedy(
                *est,
                cands@.skip(i as int),
                rem,
            ),
        ensures
            r@ == spec_greedy(*est, cands@, budget),
        decreases cands@.len() - i,
    {
        let sz = est.estimate(cands[i].2);
        if sz > rem {
            proof {
                assert(cands@.skip(i as int)[0] == cands@[i as int]);
                assert(spec_greedy(*est, cands@.skip(i as int), rem) =~= Seq::<(u64, u64)>::empty());
                assert(r@ + Seq::<(u64, u64)>::empty() =~= r@);
            }
            break ;
        }
        let ghost before = r@;
        r.push((cands[i].1, cands[i].2));
        proof {
            assert(cands@.skip(i as int)[0] == cands@[i as int]);
            assert(cands@.skip(i as int).drop_first() =~= cands@.skip(i as int + 1));
            assert(spec_greedy(*est, cands@.skip(i as int), rem) == seq![
                (cands@[i as int].1, cands@[i as int].2),
            ] + spec_greedy(*est, cands@.skip(i as int + 1), (rem - sz) as u64));
            assert(before + spec_greedy(*est, cands@.skip(i as int), rem) =~= r@ + spec_greedy(
                *est,
                cands@.skip(i as int + 1),
                (rem - sz) as u64,
            ));
        }
        rem = rem - sz;
        i = i + 1;
    }
    proof {
        if i == cands@.len() {
            assert(cands@.skip(i as int) =~= Seq::<(u64, u64, u64)>::empty());
            assert(r@ + spec_greedy(*est, cands@.skip(i as int), rem) =~= r@);
        }
    }
    r
}

/// A selection is closed under the registry's dependencies: whenever it
/// carries (entity, a) and a requires b, it also carries (entity, b).
pub open spec fn pairs_closed(reg: ReplicateRegistry, pairs: Seq<(u64, u64)>) -> bool {
    forall|i: int, b: u64|
        0 <= i < pairs.len() && #[trigger] reg.dep_on(pairs[i].1, b) ==> pairs.contains(
            (pairs[i].0, b),
        )
}

/// The set of replicate ids reachable from one id along dependency
/// declarations, the id itself included.
fn close_ids(reg: &ReplicateRegistry, start: u64) -> (r: OrdMap<()>)
    requires
        reg.wf(),
        reg.spec_rates().contains_key(start),
    ensures
        r.wf(),
        r@.contains_key(start),
        forall|x: u64| #[trigger] r@.contains_key(x) ==> reg.spec_rates().contains_key(x),
        forall|x: u64, b: u64|
            r@.contains_key(x) && #[trigger] reg.dep_on(x, b) ==> r@.contains_key(b),
{
    let mut visited: OrdMap<()> = OrdMap::new();
    let mut pending: Vec<u64> = Vec::new();
    pending.push(start);
    proof {
        lemma_submap_entries_len(visited, reg.rates);
        assert(pending@[0] == start);
        assert(pending@.contains(start));
    }
    loop
        invariant
            reg.wf(),
            visited.wf(),
            visited.entry_seq().len() <= reg.rates.entry_seq().len(),
            forall|x: u64| #[trigger]
                visited@.contains_key(x) ==> reg.spec_rates().contains_key(x),
            forall|j: int|
                0 <= j < pending@.len() ==> reg.spec_rates().contains_key(#[trigger] pending@[j]),
            visited@.contains_key(start) || pending@.contains(start),
            forall|x: u64, b: u64|
                visited@.contains_key(x) && #[trigger] reg.dep_on(x, b) ==> visited@.contains_key(
                    b,
                ) || pending@.contains(b),
        ensures
            visited.wf(),
            visited@.contains_key(start),
            forall|x: u64| #[trigger]
                visited@.contains_key(x) ==> reg.spec_rates().contains_key(x),
            forall|x: u64, b: u64|
                visited@.contains_key(x) && #[trigger] reg.dep_on(x, b) ==> visited@.contains_key(
                    b,
                ),
        decreases
                reg.rates.entry_seq().len() - visited.entry_seq().len(),
                pending@.len(),
    {
        let ghost pending_prev = pending@;
        let popped = pending.pop();
        match popped {
            None => {
                break ;
            },
            Some(id) => {
                proof {
                    assert(pending@ =~= pending_prev.drop_last());
                    assert(pending_prev.last() == id);
                    lemma_drop_last_contains(pending_prev);
                }
                if !visited.contains_key(id) {
                    visited.insert(id, ());
                    proof {
                        lemma_submap_entries_len(visited, reg.rates);
                    }
                    match reg.deps_of(id) {
                        Some(targets) => {
                            let m = targets.len();
                            let mut j: usize = 0;
                            while j < m
                                invariant
                                    reg.wf(),
                                    m == targets@.len(),
                                    j <= m,
                                    pending_prev.len() > 0,
                                    forall|b: u64| reg.dep_on(id, b) <==> targets@.contains(b),
                                    forall|jj: int|
                                        0 <= jj < targets@.len()
                                            ==> reg.spec_rates().contains_key(
                                            #[trigger] targets@[jj],
                                        ),
                                    forall|jj: int|
                                        0 <= jj < pending@.len()
                                            ==> reg.spec_rates().contains_key(
                                            #[trigger] pending@[jj],
                                        ),
                                    forall|jj: int|
                                        0 <= jj < j ==> pending@.contains(
                                            #[trigger] targets@[jj],
                                        ),
                                    forall|y: u64|
                                        pending_prev.drop_last().contains(y)
                                            ==> #[trigger] pending@.contains(y),
                                decreases m - j,
                            {
                                let ghost pp = pending@;
                                pending.push(targets[j]);
                                proof {
                                    lemma_push_contains(pp, targets@[j as int]);
                                }
                                j = j + 1;
                            }
                        },
                        None => {},
                    }
                }
            },
        }
    }
    visited
}

/// Close an accepted selection under the registry's dependencies: for
/// every accepted (entity, a) where a requires b, (entity, b) is added,
/// to a fixpoint. Dependencies never pull in new entities.
pub fn close_dependencies(reg: &ReplicateRegistry, accepted: &Vec<(u64, u64)>) -> (r: Vec<
    (u64, u64),
>)
    requires
        reg.wf(),
        forall|i: int|
            0 <= i < accepted@.len() ==> reg.spec_rates().contains_key(
                (#[trigger] accepted@[i]).1,
            ),
    ensures
        forall|i: int| 0 <= i < accepted@.len() ==> r@.contains(#[trigger] accepted@[i]),
        pairs_closed(*reg, r@),
        forall|i: int|
            0 <= i < r@.len() ==> (exists|j: int|
                0 <= j < accepted@.len() && (#[trigger] accepted@[j]).0 == (#[trigger] r@[i]).0)
                && reg.spec_rates().contains_key(r@[i].1),
{
    let mut sets: OrdMap<OrdMap<()>> = OrdMap::new();
    let n = accepted.len();
    let mut idx: usize = 0;
    while idx < n
        invariant
            reg.wf(),
            n == accepted@.len(),
            idx <= n,
            forall|i: int|
                0 <= i < accepted@.len() ==> reg.spec_rates().contains_key(
                    (#[trigger] accepted@[i]).1,
                ),
            sets.wf(),
            forall|e: u64| #[trigger] sets@.contains_key(e) ==> sets@[e].wf(),
            forall|e: u64| #[trigger]
                sets@.contains_key(e) ==> exists|j: int|
                    0 <= j < accepted@.len() && (#[trigger] accepted@[j]).0 == e,
            forall|e: u64, x: u64|
                sets@.contains_key(e) && #[trigger] sets@[e]@.contains_key(x)
                    ==> reg.spec_rates().contains_key(x),
            forall|e: u64, x: u64, b: u64|
                sets@.contains_key(e) && sets@[e]@.contains_key(x) && #[trigger] reg.dep_on(x, b)
                    ==> #[trigger] sets@[e]@.contains_key(b),
            forall|j: int|
                0 <= j < idx ==> sets@.contains_key((#[trigger] accepted@[j]).0)
                    && sets@[accepted@[j].0]@.contains_key(accepted@[j].1),
        decreases n - idx,
    {
        let (e, a) = accepted[idx];
        let closed_ids = close_ids(reg, a);
        let ghost sets_prev = sets@;
        let merged = match sets.remove(e) {
            Some(mut existing) => {
                let ghost ex = existing@;
                existing.merge(closed_ids);
                proof {
                    assert(existing@ == ex.union_prefer_right(closed_ids@));
                }
                existing
            },
            None => closed_ids,
        };
        sets.insert(e, merged);
        proof {
            assert(sets@ == sets_prev.remove(e).insert(e, merged));
        }
        idx = idx + 1;
    }
    let mut out: Vec<(u64, u64)> = Vec::new();
    let total = sets.len();
    let mut i: usize = 0;
    while i < total
        invariant
            sets.wf(),
            total == sets.entry_seq().len(),
            i <= total,
            forall|e: u64| #[trigger] sets@.contains_key(e) ==> sets@[e].wf(),
            forall|p: (u64, u64)| #[trigger]
                out@.contains(p) <==> exists|ii: int|
                    0 <= ii < i && (#[trigger] sets.entry_seq()[ii]).0 == p.0
                        && sets.entry_seq()[ii].1@.contains_key(p.1),
        decreases total - i,
    {
        let e = sets.key_at(i);
        let ids = sets.value_at(i);
        let m = ids.len();
        let mut j: usize = 0;
        while j < m
            invariant
                sets.wf(),
                total == sets.entry_seq().len(),
                i < total,
                m == ids.entry_seq().len(),
                j <= m,
                ids.wf(),
                *ids == sets.entry_seq()[i as int].1,
                e == sets.entry_seq()[i as int].0,
                forall|p: (u64, u64)| #[trigger]
                    out@.contains(p) <==> (exists|ii: int|
                        0 <= ii < i && (#[trigger] sets.entry_seq()[ii]).0 == p.0
                            && sets.entry_seq()[ii].1@.contains_key(p.1)) || (p.0 == e && exists|
                        jj: int,
                    |
                        0 <= jj < j && (#[trigger] ids.entry_seq()[jj]).0 == p.1),
            decreases m - j,
        {
            let id = ids.key_at(j);
            let ghost ov = out@;
            out.push((e, id));
            proof {
                lemma_push_contains(ov, (e, id));
            }
            j = j + 1;
        }
        proof {
            assert forall|p: (u64, u64)| #[trigger]
                out@.contains(p) <==> exists|ii: int|
                    0 <= ii < i + 1 && (#[trigger] sets.entry_seq()[ii]).0 == p.0
                        && sets.entry_seq()[ii].1@.contains_key(p.1) by {
                if out@.contains(p) {
                    if p.0 == e && exists|jj: int|
                        0 <= jj < m && (#[trigger] ids.entry_seq()[jj]).0 == p.1 {
                        let jj = choose|jj: int|
                            0 <= jj < m && (#[trigger] ids.entry_seq()[jj]).0 == p.1;
                        ids.lemma_at(jj);
                        assert(sets.entry_seq()[i as int].0 == p.0);
                        assert(sets.entry_seq()[i as int].1@.contains_key(p.1));
                    }
                }
                if exists|ii: int|
                    0 <= ii < i + 1 && (#[trigger] sets.entry_seq()[ii]).0 == p.0
                        && sets.entry_seq()[ii].1@.contains_key(p.1) {
                    let ii = choose|ii: int|
                        0 <= ii < i + 1 && (#[trigger] sets.entry_seq()[ii]).0 == p.0
                            && sets.entry_seq()[ii].1@.contains_key(p.1);
                    if ii == i {
                        ids.lemma_contains(p.1);
                    }
                }
            }
        }
        i = i + 1;
    }
    proof {
        assert forall|k: int|
            0 <= k < accepted@.len() implies out@.contains(#[trigger] accepted@[k]) by {
            let p = accepted@[k];
            sets.lemma_contains(p.0);
            let ii = choose|ii: int|
                0 <= ii < sets.entry_seq().len() && (#[trigger] sets.entry_seq()[ii]).0 == p.0;
            sets.lemma_at(ii);
            assert(sets.entry_seq()[ii].1@.contains_key(p.1));
        }
        assert forall|i2: int, b: u64|
            0 <= i2 < out@.len() && #[trigger] reg.dep_on(out@[i2].1, b) implies out@.contains(
            (out@[i2].0, b)) by {
            let p = out@[i2];
            assert(out@.contains(p));
            let ii = choose|ii: int|
                0 <= ii < total && (#[trigger] sets.entry_seq()[ii]).0 == p.0
                    && sets.entry_seq()[ii].1@.contains_key(p.1);
            sets.lemma_at(ii);
            assert(sets@[p.0]@.contains_key(b));
            assert(sets.entry_seq()[ii].1@.contains_key(b));
        }
        assert forall|i2: int| 0 <= i2 < out@.len() implies (exists|j: int|
            0 <= j < accepted@.len() && (#[trigger] accepted@[j]).0 == (#[trigger] out@[i2]).0)
            && reg.spec_rates().contains_key(out@[i2].1) by {
            let p = out@[i2];
            assert(out@.contains(p));
            let ii = choose|ii: int|
                0 <= ii < total && (#[trigger] sets.entry_seq()[ii]).0 == p.0
                    && sets.entry_seq()[ii].1@.contains_key(p.1);
            sets.lemma_at(ii);
            assert(sets@.contains_key(p.0));
            assert(sets@[p.0]@.contains_key(p.1));
        }
    }
    out
}

/// One pair's priority after this tick's accrual: its rate added,
/// saturating; an unregistered id accrues nothing.
pub open spec fn spec_bumped(
    p: PriorityAccumulator,
    reg: ReplicateRegistry,
    entity: u64,
    id: u64,
) -> u64 {
    let rate = if reg.spec_rates().contains_key(id) {
        reg.spec_rates()[id]
    } else {
        0
    };
    if p.spec_priority(entity, id) > u64::MAX - rate {
        u64::MAX
    } else {
        (p.spec_priority(entity, id) + rate) as u64
    }
}

/// The candidate triples an interest set yields once priorities accrued.
pub open spec fn spec_candidates(
    p: PriorityAccumulator,
    reg: ReplicateRegistry,
    interest: Seq<(u64, u64)>,
) -> Seq<(u64, u64, u64)> {
    Seq::new(
        interest.len(),
        |j: int| (spec_bumped(p, reg, interest[j].0, interest[j].1), interest[j].0, interest[j].1),
    )
}

/// Run one client's interest pass for one tick: accrue priorities over
/// the client's interest set, order the candidates deterministically,
/// accept greedily within the byte budget, close the acceptance under
/// the registry's dependencies, and clear the priority of every pair
/// that will be sent. Everything the greedy stage accepts is sent.
pub fn select_interests(
    reg: &ReplicateRegistry,
    priorities: &mut PriorityAccumulator,
    estimates: &ReplicateSizeEstimates,
    interest: &Vec<(u64, u64)>,
    budget: u64,
) -> (r: Vec<(u64, u64)>)
    requires
        reg.wf(),
        old(priorities).wf(),
        estimates.wf(),
        forall|i: int|
            0 <= i < interest@.len() ==> reg.spec_rates().contains_key(
                (#[trigger] interest@[i]).1,
            ),
        forall|i: int, j: int|
            0 <= i < j < interest@.len() ==> #[trigger] interest@[i] != #[trigger] interest@[j],
    ensures
        final(priorities).wf(),
        pairs_closed(*reg, r@),
        forall|i: int|
            0 <= i < r@.len() ==> (exists|j: int|
                0 <= j < interest@.len() && (#[trigger] interest@[j]).0 == (#[trigger] r@[i]).0)
                && reg.spec_rates().contains_key(r@[i].1),
        forall|i: int|
            0 <= i < r@.len() ==> final(priorities).spec_priority(
                (#[trigger] r@[i]).0,
                r@[i].1,
            ) == 0,
        ({
            let picked = spec_greedy(
                *estimates,
                spec_candidates(*old(priorities), *reg, interest@).sort_by(cand_order()),
                budget,
            );
            forall|j: int| 0 <= j < picked.len() ==> r@.contains(#[trigger] picked[j])
        }),
{
    let n = interest.len();
    let mut i: usize = 0;
    while i < n
        invariant
            reg.wf(),
            priorities.wf(),
            n == interest@.len(),
            i <= n,
            forall|i2: int, j2: int|
                0 <= i2 < j2 < interest@.len() ==> #[trigger] interest@[i2]
                    != #[trigger] interest@[j2],
            forall|j: int|
                0 <= j < i ==> priorities.spec_priority(
                    (#[trigger] interest@[j]).0,
                    interest@[j].1,
                ) == spec_bumped(*old(priorities), *reg, interest@[j].0, interest@[j].1),
            forall|j: int|
                i <= j < n ==> priorities.spec_priority(
                    (#[trigger] interest@[j]).0,
                    interest@[j].1,
                ) == old(priorities).spec_priority(interest@[j].0, interest@[j].1),
        decreases n - i,
    {
        let (e, id) = interest[i];
        let rate = reg.rate_of(id);
        priorities.bump(e, id, rate);
        i = i + 1;
    }
    let mut cands: Vec<(u64, u64, u64)> = Vec::new();
    let mut i2: usize = 0;
    while i2 < n
        invariant
            reg.wf(),
            priorities.wf(),
            n == interest@.len(),
            i2 <= n,
            cands@.len() == i2,
            forall|j: int|
                0 <= j < n ==> priorities.spec_priority(
                    (#[trigger] interest@[j]).0,
                    interest@[j].1,
                ) == spec_bumped(*old(priorities), *reg, interest@[j].0, interest@[j].1),
            forall|j: int|
                0 <= j < cands@.len() ==> #[trigger] cands@[j] == spec_candidates(
                    *old(priorities),
                    *reg,
                    interest@,
                )[j],
        decreases n - i2,
    {
        let (e, id) = interest[i2];
        let p = priorities.priority_of(e, id);
        cands.push((p, e, id));
        i2 = i2 + 1;
    }
    proof {
        assert(cands@ =~= spec_candidates(*old(priorities), *reg, interest@));
    }
    let sorted = sort_candidates(&cands);
    proof {
        assert forall|j: int| 0 <= j < sorted@.len() implies exists|k: int|
            0 <= k < interest@.len() && (#[trigger] interest@[k]).0 == (#[trigger] sorted@[j]).1
                && interest@[k].1 == sorted@[j].2 by {
            assert(sorted@.contains(sorted@[j]));
            assert(sorted@.to_multiset().count(sorted@[j]) > 0);
            assert(cands@.to_multiset().count(sorted@[j]) > 0);
            assert(cands@.contains(sorted@[j]));
            let c = choose|c: int| 0 <= c < cands@.len() && cands@[c] == sorted@[j];
            assert(interest@[c].0 == sorted@[j].1 && interest@[c].1 == sorted@[j].2);
        }
    }
    let picked = select_within_budget(estimates, &sorted, budget);
    proof {
        lemma_greedy_elements(*estimates, sorted@, budget);
        assert forall|i3: int|
            0 <= i3 < picked@.len() implies reg.spec_rates().contains_key(
            (#[trigger] picked@[i3]).1) && (exists|j: int|
            0 <= j < interest@.len() && (#[trigger] interest@[j]).0 == picked@[i3].0) by {
            let c = choose|c: int|
                0 <= c < sorted@.len() && picked@[i3] == ((#[trigger] sorted@[c]).1, sorted@[c].2);
            let k = choose|k: int|
                0 <= k < interest@.len() && (#[trigger] interest@[k]).0 == sorted@[c].1
                    && interest@[k].1 == sorted@[c].2;
            assert(interest@[k].0 == picked@[i3].0);
        }
    }
    let result = close_dependencies(reg, &picked);
    let rn = result.len();
    let mut k: usize = 0;
    while k < rn
        invariant
            priorities.wf(),
            rn == result@.len(),
            k <= rn,
            forall|j: int|
                0 <= j < k ==> priorities.spec_priority(
                    (#[trigger] result@[j]).0,
                    result@[j].1,
                ) == 0,
        decreases rn - k,
    {
        let (e, id) = result[k];
        priorities.clear_sent(e, id);
        k = k + 1;
    }
    result
}

} // verus!
