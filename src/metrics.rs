use vstd::prelude::*;

verus! {

/// Why a counter could not be changed.
#[derive(Debug, Clone, Copy, PartialEq, Eq, Structural)]
pub enum MetricsError {
    /// The counter is already at the largest or smallest value it can hold.
    CounterOverflow,
}

/// The counters named by the first `n` keys, with their values.
pub open spec fn counts_of(keys: Seq<Seq<char>>, vals: Seq<i64>, n: nat) -> Map<Seq<char>, i64>
    decreases n,
{
    if n == 0 {
        Map::empty()
    } else {
        counts_of(keys, vals, (n - 1) as nat).insert(keys[n - 1], vals[n - 1])
    }
}

/// The value of counter `k` in `m`; a counter that was never touched is zero.
pub open spec fn count_of(m: Map<Seq<char>, i64>, k: Seq<char>) -> int {
    if m.contains_key(k) {
        m[k] as int
    } else {
        0
    }
}

/// Whether no key occurs twice in `keys`.
pub open spec fn keys_distinct(keys: Seq<Seq<char>>) -> bool {
    forall|x: int, y: int|
        0 <= x < keys.len() && 0 <= y < keys.len() && x != y ==> #[trigger] keys[x] != #[trigger] keys[y]
}

/// Whether a counter value fits in `i64`.
pub open spec fn fits_counter(x: int) -> bool {
    i64::MIN <= x <= i64::MAX
}

/// A store of named signed counters.
pub struct Metrics {
    keys: Vec<String>,
    vals: Vec<i64>,
}

impl Metrics {
    /// The names of the counters, in the order they were first touched.
    pub closed spec fn key_seq(&self) -> Seq<Seq<char>> {
        self.keys@.map_values(|k: String| k@)
    }

    /// The keys and the values line up, and no key occurs twice.
    pub closed spec fn wf(&self) -> bool {
        &&& self.keys@.len() == self.vals@.len()
        &&& keys_distinct(self.key_seq())
    }
}

impl View for Metrics {
    type V = Map<Seq<char>, i64>;

    closed spec fn view(&self) -> Map<Seq<char>, i64> {
        counts_of(self.key_seq(), self.vals@, self.keys@.len())
    }
}

/// Entry `i` is what the map says of its key.
proof fn lemma_counts_lookup(keys: Seq<Seq<char>>, vals: Seq<i64>, n: nat, i: int)
    requires
        keys_distinct(keys),
        n <= keys.len(),
        n <= vals.len(),
        0 <= i < n,
    ensures
        counts_of(keys, vals, n).contains_key(keys[i]),
        counts_of(keys, vals, n)[keys[i]] == vals[i],
    decreases n,
{
    if i < n - 1 {
        lemma_counts_lookup(keys, vals, (n - 1) as nat, i);
        assert(keys[n - 1] != keys[i]);
    }
}

/// A key among none of the first `n` is not in the map.
proof fn lemma_counts_absent(keys: Seq<Seq<char>>, vals: Seq<i64>, n: nat, k: Seq<char>)
    requires
        n <= keys.len(),
        forall|x: int| 0 <= x < n ==> keys[x] != k,
    ensures
        !counts_of(keys, vals, n).contains_key(k),
    decreases n,
{
    if n > 0 {
        lemma_counts_absent(keys, vals, (n - 1) as nat, k);
    }
}

/// Changing the value of entry `i` changes the map at its key alone.
proof fn lemma_counts_update(keys: Seq<Seq<char>>, vals: Seq<i64>, n: nat, i: int, v: i64)
    requires
        keys_distinct(keys),
        n <= keys.len(),
        n <= vals.len(),
        0 <= i < n,
    ensures
        counts_of(keys, vals.update(i, v), n) == counts_of(keys, vals, n).insert(keys[i], v),
    decreases n,
{
    let m = (n - 1) as nat;
    if i < m {
        lemma_counts_update(keys, vals, m, i, v);
        assert(keys[m as int] != keys[i]);
        assert(counts_of(keys, vals.update(i, v), n) =~= counts_of(keys, vals, n).insert(keys[i], v));
    } else {
        lemma_counts_absent(keys, vals, m, keys[i]);
        lemma_counts_same(keys, vals, vals.update(i, v), m);
        assert(counts_of(keys, vals.update(i, v), n) =~= counts_of(keys, vals, n).insert(keys[i], v));
    }
}

/// The map of the first `n` entries reads only those entries' values.
proof fn lemma_counts_same(keys: Seq<Seq<char>>, v1: Seq<i64>, v2: Seq<i64>, n: nat)
    requires
        n <= v1.len(),
        n <= v2.len(),
        forall|x: int| 0 <= x < n ==> v1[x] == v2[x],
    ensures
        counts_of(keys, v1, n) == counts_of(keys, v2, n),
    decreases n,
{
    if n > 0 {
        lemma_counts_same(keys, v1, v2, (n - 1) as nat);
    }
}

/// The map of the first `n` entries reads only those entries' keys.
proof fn lemma_counts_same_keys(k1: Seq<Seq<char>>, k2: Seq<Seq<char>>, vals: Seq<i64>, n: nat)
    requires
        n <= k1.len(),
        n <= k2.len(),
        forall|x: int| 0 <= x < n ==> k1[x] == k2[x],
    ensures
        counts_of(k1, vals, n) == counts_of(k2, vals, n),
    decreases n,
{
    if n > 0 {
        lemma_counts_same_keys(k1, k2, vals, (n - 1) as nat);
    }
}

impl Metrics {
    /// An empty store.
    pub fn new() -> (r: Metrics)
        ensures
            r.wf(),
            r@ == Map::<Seq<char>, i64>::empty(),
    {
        Metrics { keys: Vec::new(), vals: Vec::new() }
    }

    /// Adds one to counter `key`, which starts from zero when it is new.
    /// Fails with `CounterOverflow`, and changes nothing, when the counter is
    /// already at `i64::MAX`.
    pub fn inc(&mut self, key: &str) -> (r: Result<(), MetricsError>)
        requires
            old(self).wf(),
        ensures
            final(self).wf(),
            count_of(old(self)@, key@) == i64::MAX ==> r == Err::<(), MetricsError>(
                MetricsError::CounterOverflow,
            ) && final(self)@ == old(self)@,
            count_of(old(self)@, key@) < i64::MAX ==> r is Ok && final(self)@ == old(self)@.insert(
                key@,
                (count_of(old(self)@, key@) + 1) as i64,
            ),
    {
        self.bump(key, true)
    }

    /// Subtracts one from counter `key`, which starts from zero when it is
    /// new. Fails with `CounterOverflow`, and changes nothing, when the
    /// counter is already at `i64::MIN`.
    pub fn dec(&mut self, key: &str) -> (r: Result<(), MetricsError>)
        requires
            old(self).wf(),
        ensures
            final(self).wf(),
            count_of(old(self)@, key@) == i64::MIN ==> r == Err::<(), MetricsError>(
                MetricsError::CounterOverflow,
            ) && final(self)@ == old(self)@,
            count_of(old(self)@, key@) > i64::MIN ==> r is Ok && final(self)@ == old(self)@.insert(
                key@,
                (count_of(old(self)@, key@) - 1) as i64,
            ),
    {
        self.bump(key, false)
    }

    /// Moves counter `key` one step up or down.
    fn bump(&mut self, key: &str, up: bool) -> (r: Result<(), MetricsError>)
        requires
            old(self).wf(),
        ensures
            final(self).wf(),
            ({
                let c = count_of(old(self)@, key@);
                let next = if up {
                    c + 1
                } else {
                    c - 1
                };
                &&& !fits_counter(next) ==> r == Err::<(), MetricsError>(
                    MetricsError::CounterOverflow,
                ) && final(self)@ == old(self)@
                &&& fits_counter(next) ==> r is Ok && final(self)@ == old(self)@.insert(
                    key@,
                    next as i64,
                )
            }),
    {
        let k = key.to_owned();
        let ghost ks = self.key_seq();
        let ghost n = self.keys@.len();
        match self.find(&k) {
            Some(i) => {
                let v = self.vals[i];
                proof {
                    lemma_counts_lookup(ks, self.vals@, n, i as int);
                }
                let next = if up {
                    if v == i64::MAX {
                        return Err(MetricsError::CounterOverflow);
                    }
                    v + 1
                } else {
                    if v == i64::MIN {
                        return Err(MetricsError::CounterOverflow);
                    }
                    v - 1
                };
                let ghost before = self.vals@;
                self.vals.set(i, next);
                proof {
                    assert(self.key_seq() == ks);
                    lemma_counts_update(ks, before, n, i as int, next);
                }
                Ok(())
            },
            None => {
                proof {
                    lemma_counts_absent(ks, self.vals@, n, key@);
                }
                let start: i64 = if up {
                    1
                } else {
                    -1
                };
                let ghost (k0, v0) = (ks, self.vals@);
                self.keys.push(k);
                self.vals.push(start);
                proof {
                    let ks1 = self.key_seq();
                    assert(ks1 =~= k0.push(key@));
                    lemma_counts_same_keys(k0, ks1, self.vals@, n);
                    lemma_counts_same(k0, v0, self.vals@, n);
                    assert(keys_distinct(ks1)) by {
                        assert forall|x: int, y: int|
                            0 <= x < ks1.len() && 0 <= y < ks1.len() && x != y implies #[trigger] ks1[x]
                            != #[trigger] ks1[y] by {
                            if x < n && y < n {
                                assert(k0[x] != k0[y]);
                            }
                        }
                    }
                }
                Ok(())
            },
        }
    }

    /// The value of counter `key`; zero for a counter that was never touched.
    pub fn get(&self, key: &str) -> (r: i64)
        requires
            self.wf(),
        ensures
            r == count_of(self@, key@),
    {
        let k = key.to_owned();
        match self.find(&k) {
            Some(i) => {
                proof {
                    lemma_counts_lookup(self.key_seq(), self.vals@, self.keys@.len(), i as int);
                }
                self.vals[i]
            },
            None => {
                proof {
                    lemma_counts_absent(self.key_seq(), self.vals@, self.keys@.len(), key@);
                }
                0
            },
        }
    }

    /// A copy of every counter and its value, each name once, in the order
    /// the counters were first touched.
    pub fn snapshot(&self) -> (r: Vec<(String, i64)>)
        requires
            self.wf(),
        ensures
            r@.len() == self.key_seq().len(),
            keys_distinct(r@.map_values(|e: (String, i64)| e.0@)),
            counts_of(
                r@.map_values(|e: (String, i64)| e.0@),
                r@.map_values(|e: (String, i64)| e.1),
                r@.len(),
            ) == self@,
    {
        let mut out: Vec<(String, i64)> = Vec::new();
        let mut i: usize = 0;
        while i < self.keys.len()
            invariant
                self.wf(),
                i <= self.keys@.len(),
                out@.len() == i,
                forall|x: int|
                    0 <= x < i ==> (#[trigger] out@[x]).0@ == self.key_seq()[x] && out@[x].1
                        == self.vals@[x],
            decreases self.keys@.len() - i,
        {
            out.push((self.keys[i].clone(), self.vals[i]));
            i = i + 1;
        }
        proof {
            let ks = out@.map_values(|e: (String, i64)| e.0@);
            let vs = out@.map_values(|e: (String, i64)| e.1);
            assert(ks =~= self.key_seq());
            assert(vs =~= self.vals@);
        }
        out
    }

    /// The position of counter `key`, if it exists.
    fn find(&self, key: &String) -> (r: Option<usize>)
        requires
            self.wf(),
        ensures
            match r {
                Some(i) => i < self.keys@.len() && self.key_seq()[i as int] == key@,
                None => forall|x: int| 0 <= x < self.keys@.len() ==> self.key_seq()[x] != key@,
            },
    {
        let mut i: usize = 0;
        while i < self.keys.len()
            invariant
                i <= self.keys@.len(),
                forall|x: int| 0 <= x < i ==> self.key_seq()[x] != key@,
            decreases self.keys@.len() - i,
        {
            if self.keys[i] == *key {
                return Some(i);
            }
            i = i + 1;
        }
        None
    }
}

impl Default for Metrics {
    /// An empty store.
    fn default() -> (r: Metrics)
        ensures
            r.wf(),
            r@ == Map::<Seq<char>, i64>::empty(),
    {
        Metrics::new()
    }
}

} // verus!
