use vstd::prelude::*;

verus! {

/// Key of one world-state fact.
pub type Key = u16;

/// Value of one world-state fact; absent facts read as 0.
pub type Value = i32;

/// Canonical form of a sparse world state: entries sorted by strictly increasing
/// key, and no entry holds the value 0 (0 is what an absent key reads as).
pub open spec fn wf_state(s: Seq<(Key, Value)>) -> bool {
    &&& forall|i: int, j: int| 0 <= i < j < s.len() ==> s[i].0 < s[j].0
    &&& forall|i: int| 0 <= i < s.len() ==> s[i].1 != 0
}

/// The value that a state holds for `k`: the value of the entry with key `k`, or 0.
pub open spec fn val(s: Seq<(Key, Value)>, k: Key) -> Value {
    if exists|i: int| 0 <= i < s.len() && s[i].0 == k {
        s[choose|i: int| 0 <= i < s.len() && s[i].0 == k].1
    } else {
        0
    }
}

/// `s` satisfies `desired` when every fact listed in `desired` has the same value in `s`.
pub open spec fn satisfies_spec(s: Seq<(Key, Value)>, desired: Seq<(Key, Value)>) -> bool {
    forall|i: int| 0 <= i < desired.len() ==> val(s, #[trigger] desired[i].0) == desired[i].1
}

/// `t` is `s` with the facts of `effects` written over it.
pub open spec fn is_apply(s: Seq<(Key, Value)>, effects: Seq<(Key, Value)>, t: Seq<(Key, Value)>) -> bool {
    &&& wf_state(t)
    &&& forall|k: Key| #[trigger] val(t, k) == (if val(effects, k) != 0 { val(effects, k) } else { val(s, k) })
}

/// The entries of `goal` whose fact differs in `s`.
pub open spec fn unmet(s: Seq<(Key, Value)>, goal: Seq<(Key, Value)>) -> Seq<(Key, Value)> {
    goal.filter(|e: (Key, Value)| val(s, e.0) != e.1)
}

/// Lemma: in a canonical state the entry at index `i` is what `val` reads for its key.
pub proof fn lemma_val_at(s: Seq<(Key, Value)>, i: int)
    requires
        wf_state(s),
        0 <= i < s.len(),
    ensures
        val(s, s[i].0) == s[i].1,
{
    let j = choose|j: int| 0 <= j < s.len() && s[j].0 == s[i].0;
    if j < i {
        assert(s[j].0 < s[i].0);
    } else if j > i {
        assert(s[i].0 < s[j].0);
    }
}

/// Lemma: in a canonical state there are at most 65536 entries.
pub proof fn lemma_len_bound(s: Seq<(Key, Value)>)
    requires
        wf_state(s),
    ensures
        s.len() <= 65536,
{
    assert forall|i: int| 0 <= i < s.len() implies s[i].0 >= i by {
        lemma_key_ge_index(s, i);
    }
    if s.len() > 65536 {
        assert(s[65536].0 >= 65536);
    }
}

proof fn lemma_key_ge_index(s: Seq<(Key, Value)>, i: int)
    requires
        wf_state(s),
        0 <= i < s.len(),
    ensures
        s[i].0 >= i,
    decreases i,
{
    if i > 0 {
        lemma_key_ge_index(s, i - 1);
        assert(s[i - 1].0 < s[i].0);
    }
}

/// Lemma: a key absent from the entries reads as 0.
pub proof fn lemma_val_absent(s: Seq<(Key, Value)>, k: Key)
    requires
        forall|i: int| 0 <= i < s.len() ==> s[i].0 != k,
    ensures
        val(s, k) == 0,
{
}

/// Sparse world state. Keys that are not present read as 0.
#[derive(Debug, Hash)]
pub struct WorldState {
    values: Vec<(Key, Value)>,
}

impl View for WorldState {
    type V = Seq<(Key, Value)>;

    closed spec fn view(&self) -> Seq<(Key, Value)> {
        self.values@
    }
}

impl Clone for WorldState {
    fn clone(&self) -> (r: Self)
        ensures
            r@ == self@,
            wf_state(r@),
    {
        proof {
            use_type_invariant(self);
        }
        let mut values: Vec<(Key, Value)> = Vec::new();
        let mut i: usize = 0;
        while i < self.values.len()
            invariant
                i <= self.values@.len(),
                values@ == self.values@.subrange(0, i as int),
                wf_state(self.values@),
            decreases self.values@.len() - i,
        {
            values.push(self.values[i]);
            i += 1;
        }
        assert(values@ == self.values@);
        let r = WorldState { values };
        proof {
            use_type_invariant(&r);
        }
        r
    }
}

impl WorldState {
    #[verifier::type_invariant]
    spec fn inv(self) -> bool {
        wf_state(self.values@)
    }

    /// The empty state: every key reads as 0.
    pub fn new() -> (r: Self)
        ensures
            r@ == Seq::<(Key, Value)>::empty(),
            wf_state(r@),
    {
        WorldState { values: Vec::new() }
    }

    /// A state holding `pairs`, set one after another (a later pair for the same key wins,
    /// and a pair with value 0 clears the key).
    pub fn from_pairs(pairs: &[(Key, Value)]) -> (r: Self)
        ensures
            wf_state(r@),
            forall|k: Key| #[trigger] val(r@, k) == pairs_val(pairs@, k),
    {
        let mut s = Self::new();
        let mut i: usize = 0;
        while i < pairs.len()
            invariant
                i <= pairs@.len(),
                forall|k: Key| #[trigger] val(s@, k) == pairs_val(pairs@.subrange(0, i as int), k),
            decreases pairs@.len() - i,
        {
            let (k, v) = pairs[i];
            s.set(k, v);
            proof {
                let pre = pairs@.subrange(0, i as int);
                let post = pairs@.subrange(0, i + 1);
                assert(post.drop_last() == pre);
                assert(post.last() == pairs@[i as int]);
            }
            i += 1;
        }
        assert(pairs@.subrange(0, pairs@.len() as int) == pairs@);
        proof {
            use_type_invariant(&s);
        }
        s
    }

    /// The value of `key` (0 when absent).
    pub fn get(&self, key: Key) -> (r: Value)
        ensures
            r == val(self@, key),
    {
        proof {
            use_type_invariant(self);
        }
        let mut i: usize = 0;
        while i < self.values.len()
            invariant
                i <= self.values@.len(),
                wf_state(self.values@),
                forall|j: int| 0 <= j < i ==> self.values@[j].0 != key,
            decreases self.values@.len() - i,
        {
            if self.values[i].0 == key {
                proof {
                    lemma_val_at(self.values@, i as int);
                }
                return self.values[i].1;
            }
            i += 1;
        }
        0
    }

    /// Write `value` for `key`; the value 0 removes the key.
    pub fn set(&mut self, key: Key, value: Value)
        ensures
            wf_state(final(self)@),
            forall|k: Key| #[trigger] val(final(self)@, k) == (if k == key { value } else { val(old(self)@, k) }),
    {
        proof {
            use_type_invariant(&*self);
        }
        let old_values = self.clone().values;
        let ghost s = old_values@;
        assert(s == self.values@);
        let mut out: Vec<(Key, Value)> = Vec::new();
        let mut i: usize = 0;
        // entries with smaller keys
        while i < old_values.len() && old_values[i].0 < key
            invariant
                i <= s.len(),
                old_values@ == s,
                wf_state(s),
                out@ == s.subrange(0, i as int),
                forall|j: int| 0 <= j < i ==> s[j].0 < key,
            decreases s.len() - i,
        {
            out.push(old_values[i]);
            i += 1;
        }
        let mut rest = i;
        if i < old_values.len() && old_values[i].0 == key {
            rest = i + 1;
        }
        if value != 0 {
            out.push((key, value));
        }
        let ghost mid = out@;
        let mut j = rest;
        while j < old_values.len()
            invariant
                rest <= j <= s.len(),
                old_values@ == s,
                wf_state(s),
                i <= rest,
                rest == i || (rest == i + 1 && s[i as int].0 == key),
                i < s.len() ==> s[i as int].0 >= key,
                out@ == mid + s.subrange(rest as int, j as int),
            decreases s.len() - j,
        {
            out.push(old_values[j]);
            j += 1;
        }
        proof {
            let o = out@;
            // keys after `rest` are greater than `key`
            assert forall|a: int| rest <= a < s.len() implies s[a].0 > key by {
                if a > i {
                    assert(s[i as int].0 < s[a].0);
                }
            }
            assert(wf_state(o)) by {
                assert forall|a: int, b: int| 0 <= a < b < o.len() implies o[a].0 < o[b].0 by {
                    if b < mid.len() {
                    } else if a < mid.len() {
                        if value != 0 && a == mid.len() - 1 {
                        } else {
                            assert(o[a] == s[a]);
                            assert(s[a].0 < key);
                        }
                    } else {
                        let sa = a - mid.len() + rest;
                        let sb = b - mid.len() + rest;
                        assert(o[a] == s[sa]);
                        assert(o[b] == s[sb]);
                    }
                }
            }
            assert forall|k: Key| #[trigger] val(o, k) == (if k == key { value } else { val(s, k) }) by {
                if k == key {
                    if value != 0 {
                        lemma_val_at(o, mid.len() - 1);
                    } else {
                        assert forall|a: int| 0 <= a < o.len() implies o[a].0 != k by {
                            if a < mid.len() {
                                assert(o[a] == s[a]);
                            } else {
                                assert(o[a] == s[a - mid.len() + rest]);
                            }
                        }
                    }
                } else {
                    if exists|a: int| 0 <= a < s.len() && s[a].0 == k {
                        let a = choose|a: int| 0 <= a < s.len() && s[a].0 == k;
                        lemma_val_at(s, a);
                        if a < i {
                            assert(o[a] == s[a]);
                            lemma_val_at(o, a);
                        } else {
                            assert(a >= rest);
                            let oa = a - rest + mid.len();
                            assert(o[oa] == s[a]);
                            lemma_val_at(o, oa);
                        }
                    } else {
                        assert forall|a: int| 0 <= a < o.len() implies o[a].0 != k by {
                            if a < i {
                                assert(o[a] == s[a]);
                            } else if a < mid.len() {
                            } else {
                                assert(o[a] == s[a - mid.len() + rest]);
                            }
                        }
                    }
                }
            }
        }
        self.values = out;
        proof {
            use_type_invariant(&*self);
        }
    }

    /// Whether every fact of `desired` holds here.
    pub fn satisfies(&self, desired: &WorldState) -> (r: bool)
        ensures
            r == satisfies_spec(self@, desired@),
            wf_state(self@),
            wf_state(desired@),
    {
        proof {
            use_type_invariant(self);
            use_type_invariant(desired);
        }
        let mut i: usize = 0;
        while i < desired.values.len()
            invariant
                i <= desired.values@.len(),
                wf_state(self@),
                wf_state(desired@),
                forall|j: int| 0 <= j < i ==> val(self@, #[trigger] desired.values@[j].0) == desired.values@[j].1,
            decreases desired.values@.len() - i,
        {
            let (k, v) = desired.values[i];
            if self.get(k) != v {
                return false;
            }
            i += 1;
        }
        true
    }

    /// This state with the facts of `effects` written over it.
    pub fn apply(&self, effects: &WorldState) -> (r: WorldState)
        ensures
            is_apply(self@, effects@, r@),
            wf_state(effects@),
    {
        proof {
            use_type_invariant(effects);
        }
        let mut next = self.clone();
        let mut i: usize = 0;
        while i < effects.values.len()
            invariant
                i <= effects.values@.len(),
                wf_state(effects.values@),
                forall|k: Key| #[trigger] val(next@, k) == (if exists|j: int| 0 <= j < i && effects.values@[j].0 == k { val(effects@, k) } else { val(self@, k) }),
            decreases effects.values@.len() - i,
        {
            let (k, v) = effects.values[i];
            proof {
                lemma_val_at(effects.values@, i as int);
            }
            next.set(k, v);
            proof {
                assert forall|k2: Key| #[trigger] val(next@, k2) == (if exists|j: int| 0 <= j < i + 1 && effects.values@[j].0 == k2 { val(effects@, k2) } else { val(self@, k2) }) by {
                    if k2 == k {
                        assert(effects.values@[i as int].0 == k2);
                    }
                }
            }
            i += 1;
        }
        proof {
            use_type_invariant(&next);
            assert forall|k: Key| #[trigger] val(next@, k) == (if val(effects@, k) != 0 { val(effects@, k) } else { val(self@, k) }) by {
                if exists|j: int| 0 <= j < effects.values@.len() && effects.values@[j].0 == k {
                    let j = choose|j: int| 0 <= j < effects.values@.len() && effects.values@[j].0 == k;
                    lemma_val_at(effects.values@, j);
                }
            }
        }
        next
    }

    /// How many facts of `goal` differ here.
    pub fn heuristic(&self, goal: &WorldState) -> (r: u32)
        ensures
            r == unmet(self@, goal@).len(),
    {
        proof {
            use_type_invariant(goal);
            lemma_len_bound(goal.values@);
        }
        let mut count: u32 = 0;
        let mut i: usize = 0;
        let ghost g = goal.values@;
        let ghost pred = |e: (Key, Value)| val(self@, e.0) != e.1;
        while i < goal.values.len()
            invariant
                i <= g.len(),
                g == goal.values@,
                g == goal@,
                pred == (|e: (Key, Value)| val(self@, e.0) != e.1),
                count == g.subrange(0, i as int).filter(pred).len(),
                count <= i,
                g.len() <= 65536,
            decreases g.len() - i,
        {
            let (k, v) = goal.values[i];
            let differs = self.get(k) != v;
            proof {
                let pre = g.subrange(0, i as int);
                let post = g.subrange(0, i + 1);
                assert(post.drop_last() == pre);
                reveal_with_fuel(Seq::<(Key, Value)>::filter, 1);
            }
            if differs {
                count = count + 1;
            }
            i += 1;
        }
        assert(g.subrange(0, g.len() as int) == g);
        count
    }

    /// Whether the two states hold the same facts.
    pub fn same(&self, other: &WorldState) -> (r: bool)
        ensures
            r == (self@ == other@),
    {
        if self.values.len() != other.values.len() {
            return false;
        }
        let mut i: usize = 0;
        while i < self.values.len()
            invariant
                i <= self.values@.len(),
                self.values@.len() == other.values@.len(),
                forall|j: int| 0 <= j < i ==> self.values@[j] == other.values@[j],
            decreases self.values@.len() - i,
        {
            if self.values[i].0 != other.values[i].0 || self.values[i].1 != other.values[i].1 {
                return false;
            }
            i += 1;
        }
        assert(self.values@ == other.values@);
        true
    }
}

impl PartialEq for WorldState {
    fn eq(&self, other: &Self) -> (r: bool) {
        self.same(other)
    }
}

impl vstd::std_specs::cmp::PartialEqSpecImpl for WorldState {
    open spec fn obeys_eq_spec() -> bool {
        true
    }

    open spec fn eq_spec(&self, other: &WorldState) -> bool {
        self@ == other@
    }
}

impl Eq for WorldState {
}

impl Default for WorldState {
    fn default() -> (r: Self)
        ensures
            r@ == Seq::<(Key, Value)>::empty(),
            wf_state(r@),
    {
        WorldState::new()
    }
}

/// The value that setting `pairs` one after another leaves for `k`.
pub open spec fn pairs_val(pairs: Seq<(Key, Value)>, k: Key) -> Value
    decreases pairs.len(),
{
    if pairs.len() == 0 {
        0
    } else if pairs.last().0 == k {
        pairs.last().1
    } else {
        pairs_val(pairs.drop_last(), k)
    }
}

/// Applying effects makes them hold: after `apply`, every fact of the effects reads as the
/// effects wrote it, whatever the state was.
pub proof fn law_apply_satisfies_effects(
    s: Seq<(Key, Value)>,
    effects: Seq<(Key, Value)>,
    t: Seq<(Key, Value)>,
)
    requires
        wf_state(effects),
        is_apply(s, effects, t),
    ensures
        satisfies_spec(t, effects),
{
    assert forall|i: int| 0 <= i < effects.len() implies val(t, #[trigger] effects[i].0) == effects[i].1 by {
        lemma_val_at(effects, i);
    }
}

/// A state satisfies itself.
pub proof fn law_satisfies_itself(s: Seq<(Key, Value)>)
    requires
        wf_state(s),
    ensures
        satisfies_spec(s, s),
{
    assert forall|i: int| 0 <= i < s.len() implies val(s, #[trigger] s[i].0) == s[i].1 by {
        lemma_val_at(s, i);
    }
}

proof fn lemma_filter_none(g: Seq<(Key, Value)>, pred: spec_fn((Key, Value)) -> bool)
    requires
        forall|i: int| 0 <= i < g.len() ==> !pred(#[trigger] g[i]),
    ensures
        g.filter(pred).len() == 0,
    decreases g.len(),
{
    reveal_with_fuel(Seq::<(Key, Value)>::filter, 1);
    if g.len() > 0 {
        assert forall|i: int| 0 <= i < g.drop_last().len() implies !pred(#[trigger] g.drop_last()[i]) by {
            assert(g.drop_last()[i] == g[i]);
        }
        lemma_filter_none(g.drop_last(), pred);
        assert(!pred(g[g.len() - 1]));
    }
}

/// The planner's heuristic is zero exactly when the goal is already met.
pub proof fn law_heuristic_zero_iff_satisfied(s: Seq<(Key, Value)>, goal: Seq<(Key, Value)>)
    ensures
        (unmet(s, goal).len() == 0) == satisfies_spec(s, goal),
{
    let pred = |e: (Key, Value)| val(s, e.0) != e.1;
    assert(unmet(s, goal) == goal.filter(pred));
    goal.filter_lemma(pred);
    if satisfies_spec(s, goal) {
        lemma_filter_none(goal, pred);
    } else {
        let i = choose|i: int| 0 <= i < goal.len() && val(s, #[trigger] goal[i].0) != goal[i].1;
        goal.lemma_filter_contains(pred, i);
        assert(unmet(s, goal).contains(goal[i]));
    }
}

/// Two canonical states that read the same for every key are the same state: a state is
/// determined by its lookups.
pub proof fn law_states_equal_by_lookups(s: Seq<(Key, Value)>, t: Seq<(Key, Value)>)
    requires
        wf_state(s),
        wf_state(t),
        forall|k: Key| val(s, k) == val(t, k),
    ensures
        s == t,
    decreases s.len() + t.len(),
{
    if s.len() == 0 && t.len() == 0 {
    } else if s.len() == 0 {
        lemma_val_at(t, 0);
        assert(val(s, t[0].0) == 0);
    } else if t.len() == 0 {
        lemma_val_at(s, 0);
        assert(val(t, s[0].0) == 0);
    } else {
        let a = s.last();
        let b = t.last();
        lemma_val_at(s, s.len() - 1);
        lemma_val_at(t, t.len() - 1);
        // the largest keys agree
        if a.0 < b.0 {
            assert forall|i: int| 0 <= i < s.len() implies s[i].0 != b.0 by {
                if i < s.len() - 1 {
                    assert(s[i].0 < a.0);
                }
            }
            lemma_val_absent(s, b.0);
        } else if b.0 < a.0 {
            assert forall|i: int| 0 <= i < t.len() implies t[i].0 != a.0 by {
                if i < t.len() - 1 {
                    assert(t[i].0 < b.0);
                }
            }
            lemma_val_absent(t, a.0);
        }
        assert(a.0 == b.0);
        assert(a == b);
        let s1 = s.drop_last();
        let t1 = t.drop_last();
        assert forall|k: Key| val(s1, k) == val(t1, k) by {
            lemma_val_drop_last(s, k);
            lemma_val_drop_last(t, k);
        }
        law_states_equal_by_lookups(s1, t1);
        assert(s == s1.push(a));
        assert(t == t1.push(b));
    }
}

proof fn lemma_val_drop_last(s: Seq<(Key, Value)>, k: Key)
    requires
        wf_state(s),
        s.len() > 0,
    ensures
        wf_state(s.drop_last()),
        k != s.last().0 ==> val(s.drop_last(), k) == val(s, k),
        k == s.last().0 ==> val(s.drop_last(), k) == 0,
{
    let d = s.drop_last();
    if k == s.last().0 {
        assert forall|i: int| 0 <= i < d.len() implies d[i].0 != k by {
            assert(s[i].0 < s[s.len() - 1].0);
        }
        lemma_val_absent(d, k);
    } else {
        if exists|i: int| 0 <= i < s.len() && s[i].0 == k {
            let i = choose|i: int| 0 <= i < s.len() && s[i].0 == k;
            lemma_val_at(s, i);
            assert(d[i] == s[i]);
            lemma_val_at(d, i);
        } else {
            assert forall|i: int| 0 <= i < d.len() implies d[i].0 != k by {
                assert(d[i] == s[i]);
            }
            lemma_val_absent(d, k);
        }
    }
}

/// Every state satisfies the empty goal.
pub proof fn law_satisfies_empty(s: Seq<(Key, Value)>)
    ensures
        satisfies_spec(s, Seq::empty()),
{
}

/// Satisfying is transitive: a state that satisfies `t` satisfies all that `t` satisfies.
pub proof fn law_satisfies_transitive(s: Seq<(Key, Value)>, t: Seq<(Key, Value)>, u: Seq<(Key, Value)>)
    requires
        wf_state(t),
        wf_state(u),
        satisfies_spec(s, t),
        satisfies_spec(t, u),
    ensures
        satisfies_spec(s, u),
{
    assert forall|i: int| 0 <= i < u.len() implies val(s, #[trigger] u[i].0) == u[i].1 by {
        let k = u[i].0;
        assert(val(t, k) == u[i].1);
        assert(u[i].1 != 0);
        let j = choose|j: int| 0 <= j < t.len() && t[j].0 == k;
        lemma_val_at(t, j);
        assert(val(s, t[j].0) == t[j].1);
    }
}

/// Applying the same effects again changes nothing.
pub proof fn law_apply_idempotent(s: Seq<(Key, Value)>, effects: Seq<(Key, Value)>, t: Seq<(Key, Value)>)
    requires
        is_apply(s, effects, t),
    ensures
        is_apply(t, effects, t),
{
}

/// The keys at which `s` misses a fact of `goal`.
pub open spec fn unmet_keys(s: Seq<(Key, Value)>, goal: Seq<(Key, Value)>) -> Set<Key> {
    Set::new(|k: Key| val(goal, k) != 0 && val(s, k) != val(goal, k))
}

/// The planner's heuristic counts keys: for a canonical goal, its unmet entries are as many
/// as the keys whose goal value is set and differs in `s`.
pub proof fn law_heuristic_counts_keys(s: Seq<(Key, Value)>, goal: Seq<(Key, Value)>)
    requires
        wf_state(goal),
    ensures
        unmet_keys(s, goal).finite(),
        unmet(s, goal).len() == unmet_keys(s, goal).len(),
    decreases goal.len(),
{
    let pred = |e: (Key, Value)| val(s, e.0) != e.1;
    if goal.len() == 0 {
        assert(unmet_keys(s, goal) =~= Set::<Key>::empty());
        assert(unmet(s, goal) =~= Seq::<(Key, Value)>::empty()) by {
            reveal_with_fuel(Seq::<(Key, Value)>::filter, 1);
        }
    } else {
        let d = goal.drop_last();
        let last = goal.last();
        lemma_val_drop_last(goal, last.0);
        law_heuristic_counts_keys(s, d);
        lemma_val_at(goal, goal.len() - 1);
        let kd = unmet_keys(s, d);
        let kg = unmet_keys(s, goal);
        assert(!kd.contains(last.0));
        assert(unmet(s, goal) == unmet(s, d) + (if pred(last) {
            seq![last]
        } else {
            Seq::<(Key, Value)>::empty()
        })) by {
            reveal_with_fuel(Seq::<(Key, Value)>::filter, 1);
            assert(goal.filter(pred) == d.filter(pred) + (if pred(last) {
                seq![last]
            } else {
                Seq::<(Key, Value)>::empty()
            }));
        }
        if pred(last) {
            assert forall|k: Key| kg.contains(k) == kd.insert(last.0).contains(k) by {
                lemma_val_drop_last(goal, k);
            }
            assert(kg =~= kd.insert(last.0));
        } else {
            assert forall|k: Key| kg.contains(k) == kd.contains(k) by {
                lemma_val_drop_last(goal, k);
            }
            assert(kg =~= kd);
        }
    }
}

} // verus!
