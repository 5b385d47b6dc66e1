use vstd::prelude::*;

verus! {

/// What one reconciliation pass did, besides keeping the entries whose keys were
/// produced again: the positions of produced keys that had no entry (their entries
/// are for the caller to build and adopt), and the stale entries it took out (for
/// the caller to dispose of).
pub struct PassOutcome<S> {
    pub missing: Vec<usize>,
    pub stale: Vec<(u64, S)>,
}

/// The contract of one pass over the `(key, state)` pairs `before`, given the keys
/// `produced`: `after` keeps exactly the pairs whose keys were produced, `stale`
/// holds exactly the others, each once, and `missing` lists in increasing order the
/// positions of produced keys that had no pair.
pub open spec fn pass_result<S>(
    before: Seq<(u64, S)>,
    produced: Seq<u64>,
    after: Seq<(u64, S)>,
    missing: Seq<usize>,
    stale: Seq<(u64, S)>,
) -> bool {
    &&& forall|p: (u64, S)| #[trigger] after.contains(p) <==> before.contains(p) && produced.contains(p.0)
    &&& forall|p: (u64, S)| #[trigger] stale.contains(p) <==> before.contains(p) && !produced.contains(p.0)
    &&& stale.no_duplicates()
    &&& forall|i: usize| #[trigger] missing.contains(i) <==> i < produced.len() && !has_key(before, produced[i as int])
    &&& forall|a: int, b: int| 0 <= a < b < missing.len() ==> missing[a] < missing[b]
}

/// Whether some pair of `pairs` has key `k`.
pub open spec fn has_key<S>(pairs: Seq<(u64, S)>, k: u64) -> bool {
    exists|j: int| 0 <= j < pairs.len() && #[trigger] pairs[j].0 == k
}

/// No two pairs share a key.
pub open spec fn keys_unique<S>(pairs: Seq<(u64, S)>) -> bool {
    forall|a: int, b: int| 0 <= a < b < pairs.len() ==> #[trigger] pairs[a].0 != #[trigger] pairs[b].0
}

proof fn lemma_push_contains<T>(s: Seq<T>, x: T, y: T)
    ensures
        s.push(x).contains(y) <==> s.contains(y) || x == y,
{
    if s.contains(y) {
        let m = choose|m: int| 0 <= m < s.len() && s[m] == y;
        assert(s.push(x)[m] == y);
    }
    if x == y {
        assert(s.push(x)[s.len() as int] == y);
    }
    if s.push(x).contains(y) && x != y {
        let m = choose|m: int| 0 <= m < s.len() + 1 && s.push(x)[m] == y;
        assert(s[m] == y);
    }
}

/// The live entries of a list-shaped region of the UI, one per key, each with the
/// caller's state for it (its placement cell and the scope of its subtree). A pass
/// flips the generation flag, tags the entries whose keys come again, and takes out
/// the rest.
pub struct EachContainer<S> {
    current_iteration: bool,
    keys: Vec<u64>,
    generations: Vec<bool>,
    states: Vec<S>,
}

impl<S> EachContainer<S> {
    /// The entries as `(key, state)` pairs.
    pub closed spec fn pairs(self) -> Seq<(u64, S)> {
        Seq::new(self.keys.len() as nat, |j: int| (self.keys[j], self.states[j]))
    }

    /// One entry per key, each tagged with the current generation.
    pub closed spec fn wf(self) -> bool {
        &&& self.generations.len() == self.keys.len()
        &&& self.states.len() == self.keys.len()
        &&& forall|a: int, b: int| 0 <= a < b < self.keys.len() ==> #[trigger] self.keys[a] != #[trigger] self.keys[b]
        &&& forall|j: int| 0 <= j < self.keys.len() ==> #[trigger] self.generations[j] == self.current_iteration
    }

    /// A well-formed container holds at most one entry per key.
    pub proof fn lemma_wf_keys_unique(self)
        requires
            self.wf(),
        ensures
            keys_unique(self.pairs()),
    {
    }

    /// A container with no entries.
    pub fn new() -> (r: EachContainer<S>)
        ensures
            r.wf(),
            r.pairs() == Seq::<(u64, S)>::empty(),
    {
        let r = EachContainer {
            current_iteration: false,
            keys: Vec::new(),
            generations: Vec::new(),
            states: Vec::new(),
        };
        assert(r.pairs() =~= Seq::<(u64, S)>::empty());
        r
    }

    /// The number of live entries.
    pub fn len(&self) -> (r: usize)
        requires
            self.wf(),
        ensures
            r == self.pairs().len(),
    {
        self.keys.len()
    }

    fn find(&self, key: u64) -> (r: Option<usize>)
        ensures
            r matches Some(j) ==> j < self.keys.len() && self.keys[j as int] == key,
            r is None ==> forall|j: int| 0 <= j < self.keys.len() ==> self.keys[j] != key,
    {
        let mut j: usize = 0;
        while j < self.keys.len()
            invariant
                j <= self.keys.len(),
                forall|m: int| 0 <= m < j ==> self.keys[m] != key,
            decreases self.keys.len() - j,
        {
            if self.keys[j] == key {
                return Some(j);
            }
            j = j + 1;
        }
        None
    }

    /// The state of the entry for `key`, if there is one.
    pub fn get(&self, key: u64) -> (r: Option<&S>)
        requires
            self.wf(),
        ensures
            r matches Some(s) ==> self.pairs().contains((key, *s)),
            r is None <==> !has_key(self.pairs(), key),
    {
        match self.find(key) {
            Some(j) => {
                assert(self.pairs()[j as int] == (key, self.states[j as int]));
                assert(self.pairs()[j as int].0 == key);
                Some(&self.states[j])
            },
            None => {
                assert forall|j: int| 0 <= j < self.pairs().len() implies #[trigger] self.pairs()[j].0 != key by {
                    assert(self.pairs()[j].0 == self.keys[j]);
                }
                None
            },
        }
    }

    /// Adds the entry for a key that has none, built by the caller for this pass.
    pub fn adopt(&mut self, key: u64, state: S)
        requires
            old(self).wf(),
            !has_key(old(self).pairs(), key),
        ensures
            final(self).wf(),
            final(self).pairs() == old(self).pairs().push((key, state)),
    {
        proof {
            assert forall|j: int| 0 <= j < self.keys.len() implies self.keys[j] != key by {
                assert(self.pairs()[j].0 == self.keys[j]);
            }
        }
        self.keys.push(key);
        self.generations.push(self.current_iteration);
        self.states.push(state);
        assert(self.pairs() =~= old(self).pairs().push((key, state)));
    }

    /// One reconciliation pass for the keys `produced`, in the order the data gave
    /// them. The generation flag flips; each entry whose key was produced is tagged
    /// with the new generation and kept as it is; every entry left with the old tag
    /// is taken out, after the whole walk, and handed back. The positions of produced
    /// keys with no entry are handed back too: the caller builds their entries and
    /// adopts them.
    pub fn update(&mut self, produced: &Vec<u64>) -> (r: PassOutcome<S>)
        requires
            old(self).wf(),
            produced@.no_duplicates(),
        ensures
            final(self).wf(),
            pass_result(old(self).pairs(), produced@, final(self).pairs(), r.missing@, r.stale@),
    {
        let next = !self.current_iteration;
        let ghost k0 = self.keys@;
        let ghost s0 = self.states@;
        let ghost n: int = k0.len() as int;
        let ghost before = old(self).pairs();
        let mut missing: Vec<usize> = Vec::new();
        let mut i: usize = 0;
        while i < produced.len()
            invariant
                self.keys@ == k0,
                self.states@ == s0,
                self.generations.len() == n,
                self.generations.len() == self.keys.len(),
                n == k0.len(),
                self.current_iteration == old(self).current_iteration,
                next == !self.current_iteration,
                forall|a: int, b: int| 0 <= a < b < n ==> #[trigger] k0[a] != #[trigger] k0[b],
                i <= produced.len(),
                forall|j: int| 0 <= j < n ==> (#[trigger] self.generations[j] == next <==> produced@.subrange(0, i as int).contains(k0[j])),
                forall|m: usize| #[trigger] missing@.contains(m) <==> m < i && !k0.contains(produced[m as int]),
                forall|a: int, b: int| 0 <= a < b < missing.len() ==> missing[a] < missing[b],
                forall|a: int| 0 <= a < missing.len() ==> missing[a] < i,
            decreases produced.len() - i,
        {
            let k = produced[i];
            let ghost gens_before = self.generations@;
            let ghost missing_before = missing@;
            let ghost pre = produced@.subrange(0, i as int);
            assert(produced@.subrange(0, i + 1) == pre.push(k));
            match self.find(k) {
                Some(j) => {
                    assert(j < self.keys.len());
                    assert(self.keys.len() == k0.len());
                    assert(self.generations.len() == n);
                    assert(j < self.generations.len());
                    assert(k0.contains(k)) by {
                        assert(k0[j as int] == k);
                    }
                    self.generations.set(j, next);
                    assert forall|m: usize| #[trigger] missing@.contains(m) <==> m < i + 1 && !k0.contains(produced[m as int]) by {
                        if missing@.contains(m) {
                            let a = choose|a: int| 0 <= a < missing.len() && missing[a] == m;
                            assert(missing[a] < i);
                        }
                    }
                    assert forall|jj: int| 0 <= jj < n implies (#[trigger] self.generations[jj] == next
                        <==> pre.push(k).contains(k0[jj])) by {
                        lemma_push_contains(pre, k, k0[jj]);
                        if jj != j {
                            assert(self.generations[jj] == gens_before[jj]);
                        }
                    }
                },
                None => {
                    missing.push(i);
                    assert(missing@ == missing_before.push(i));
                    assert(!k0.contains(k)) by {
                        if k0.contains(k) {
                            let jj = choose|jj: int| 0 <= jj < k0.len() && k0[jj] == k;
                            assert(self.keys[jj] != k);
                        }
                    }
                    assert forall|m: usize| #[trigger] missing@.contains(m) <==> m < i + 1 && !k0.contains(produced[m as int]) by {
                        lemma_push_contains(missing_before, i, m);
                    }
                    assert forall|jj: int| 0 <= jj < n implies (#[trigger] self.generations[jj] == next
                        <==> pre.push(k).contains(k0[jj])) by {
                        lemma_push_contains(pre, k, k0[jj]);
                        assert(k0[jj] != k);
                    }
                },
            }
            i = i + 1;
        }
        assert(produced@.subrange(0, produced.len() as int) == produced@);
        let ghost g1 = self.generations@;
        let mut kept_keys: Vec<u64> = Vec::new();
        let mut kept_generations: Vec<bool> = Vec::new();
        let mut kept_states: Vec<S> = Vec::new();
        let mut stale: Vec<(u64, S)> = Vec::new();
        let ghost mut kept_src: Seq<int> = Seq::empty();
        let ghost mut stale_src: Seq<int> = Seq::empty();
        while self.keys.len() > 0
            invariant
                self.keys.len() <= n,
                n == k0.len(),
                n == s0.len(),
                forall|a: int, b: int| 0 <= a < b < n ==> #[trigger] k0[a] != #[trigger] k0[b],
                self.keys@ == k0.subrange(0, self.keys.len() as int),
                self.states@ == s0.subrange(0, self.keys.len() as int),
                self.generations@ == g1.subrange(0, self.keys.len() as int),
                g1.len() == n,
                kept_keys.len() == kept_src.len(),
                kept_states.len() == kept_src.len(),
                kept_generations.len() == kept_src.len(),
                forall|a: int| 0 <= a < kept_generations.len() ==> #[trigger] kept_generations[a] == next,
                stale.len() == stale_src.len(),
                forall|a: int| 0 <= a < kept_src.len() ==> self.keys.len() <= #[trigger] kept_src[a] < n
                    && kept_keys[a] == k0[kept_src[a]] && kept_states[a] == s0[kept_src[a]]
                    && g1[kept_src[a]] == next && kept_generations[a] == next,
                forall|a: int| 0 <= a < stale_src.len() ==> self.keys.len() <= #[trigger] stale_src[a] < n
                    && stale[a] == (k0[stale_src[a]], s0[stale_src[a]]) && g1[stale_src[a]] != next,
                forall|a: int, b: int| 0 <= a < b < kept_src.len() ==> #[trigger] kept_src[a] > #[trigger] kept_src[b],
                forall|a: int, b: int| 0 <= a < b < stale_src.len() ==> #[trigger] stale_src[a] > #[trigger] stale_src[b],
                forall|j: int| self.keys.len() <= j < n && #[trigger] g1[j] == next ==> exists|a: int| 0 <= a < kept_src.len() && kept_src[a] == j,
                forall|j: int| self.keys.len() <= j < n && #[trigger] g1[j] != next ==> exists|a: int| 0 <= a < stale_src.len() && stale_src[a] == j,
            decreases self.keys.len(),
        {
            let ghost len: int = self.keys.len() as int;
            let ghost j: int = len - 1;
            assert(0 <= j < len <= k0.len());
            assert(k0.subrange(0, len as int).drop_last() =~= k0.subrange(0, j));
            assert(s0.subrange(0, len as int).drop_last() =~= s0.subrange(0, j));
            assert(g1.subrange(0, len as int).drop_last() =~= g1.subrange(0, j));
            let k = match self.keys.pop() {
                Some(k) => k,
                None => 0,
            };
            let g = match self.generations.pop() {
                Some(g) => g,
                None => next,
            };
            let ghost ks = kept_src;
            let ghost ss = stale_src;
            match self.states.pop() {
                Some(st) => {
                    if g == next {
                        kept_keys.push(k);
                        kept_generations.push(next);
                        kept_states.push(st);
                        proof {
                            kept_src = kept_src.push(j);
                        }
                    } else {
                        stale.push((k, st));
                        proof {
                            stale_src = stale_src.push(j);
                        }
                    }
                },
                None => {},
            }
            proof {
                assert(self.keys@ == k0.subrange(0, j));
                assert(self.states@ == s0.subrange(0, j));
                assert(self.generations@ == g1.subrange(0, j));
                assert forall|jj: int| j <= jj < n && #[trigger] g1[jj] == next implies exists|a: int| 0 <= a < kept_src.len() && kept_src[a] == jj by {
                    if jj == j {
                        assert(kept_src[kept_src.len() - 1] == jj);
                    } else {
                        let a = choose|a: int| 0 <= a < ks.len() && ks[a] == jj;
                        assert(kept_src[a] == jj);
                    }
                }
                assert forall|jj: int| j <= jj < n && #[trigger] g1[jj] != next implies exists|a: int| 0 <= a < stale_src.len() && stale_src[a] == jj by {
                    if jj == j {
                        assert(stale_src[stale_src.len() - 1] == jj);
                    } else {
                        let a = choose|a: int| 0 <= a < ss.len() && ss[a] == jj;
                        assert(stale_src[a] == jj);
                    }
                }
            }
        }
        self.keys = kept_keys;
        self.generations = kept_generations;
        self.states = kept_states;
        self.current_iteration = next;
        proof {
            let after = self.pairs();
            assert forall|a: int, b: int| 0 <= a < b < self.keys.len() implies #[trigger] self.keys[a] != #[trigger] self.keys[b] by {
                assert(kept_src[a] > kept_src[b]);
                assert(k0[kept_src[b]] != k0[kept_src[a]]);
            }
            assert forall|p: (u64, S)| #[trigger] after.contains(p) <==> before.contains(p) && produced@.contains(p.0) by {
                if after.contains(p) {
                    let a = choose|a: int| 0 <= a < after.len() && after[a] == p;
                    let j = kept_src[a];
                    assert(before[j] == p);
                    assert(before.contains(p));
                    assert(g1[j] == next);
                }
                if before.contains(p) && produced@.contains(p.0) {
                    let j = choose|j: int| 0 <= j < before.len() && before[j] == p;
                    assert(k0[j] == p.0);
                    assert(g1[j] == next);
                    let a = choose|a: int| 0 <= a < kept_src.len() && kept_src[a] == j;
                    assert(after[a] == p);
                }
            }
            assert forall|p: (u64, S)| #[trigger] stale@.contains(p) <==> before.contains(p) && !produced@.contains(p.0) by {
                if stale@.contains(p) {
                    let a = choose|a: int| 0 <= a < stale.len() && stale[a] == p;
                    let j = stale_src[a];
                    assert(before[j] == p);
                    assert(before.contains(p));
                    assert(g1[j] != next);
                }
                if before.contains(p) && !produced@.contains(p.0) {
                    let j = choose|j: int| 0 <= j < before.len() && before[j] == p;
                    assert(k0[j] == p.0);
                    assert(g1[j] != next);
                    let a = choose|a: int| 0 <= a < stale_src.len() && stale_src[a] == j;
                    assert(stale[a] == p);
                }
            }
            assert forall|a: int, b: int| 0 <= a < b < stale.len() implies stale[a] != stale[b] by {
                assert(stale_src[a] != stale_src[b]);
            }
            assert forall|m: usize| #[trigger] missing@.contains(m) <==> m < produced.len() && !has_key(before, produced[m as int]) by {
                if has_key(before, produced[m as int]) {
                    let j = choose|j: int| 0 <= j < before.len() && #[trigger] before[j].0 == produced[m as int];
                    assert(k0[j] == produced[m as int]);
                }
                if m < produced.len() && k0.contains(produced[m as int]) {
                    let j = choose|j: int| 0 <= j < k0.len() && k0[j] == produced[m as int];
                    assert(before[j].0 == produced[m as int]);
                }
            }
        }
        PassOutcome { missing, stale }
    }
}

/// The placement laid out before position `i`, which the sizer receives.
pub open spec fn previous<C>(laid: &Seq<(u64, C)>, i: int) -> Option<&C> {
    if i == 0 {
        None
    } else {
        Some(&laid[i - 1].1)
    }
}

/// Walks `items` in order, giving each its key and, from the placement of the item
/// before it, its own placement. The walk stops at the first item the sizer gives
/// no placement: that item and all after it are left out of this pass.
pub fn walk<T, C, KF, SF>(items: &Vec<T>, key: &KF, sizer: &SF) -> (r: Vec<(u64, C)>) where
    KF: Fn(&T, usize) -> u64,
    SF: Fn(Option<&C>, &T, usize) -> Option<C>,

    requires
        forall|t: &T, i: usize| #[trigger] key.requires((t, i)),
        forall|p: Option<&C>, t: &T, i: usize| #[trigger] sizer.requires((p, t, i)),
    ensures
        r.len() <= items.len(),
        forall|i: int| 0 <= i < r.len() ==> key.ensures((&items[i], i as usize), #[trigger] r[i].0),
        forall|i: int|
            0 <= i < r.len() ==> sizer.ensures(
                (previous(&r@, i), &items[i], i as usize),
                Some(#[trigger] r[i].1),
            ),
        r.len() < items.len() ==> sizer.ensures(
            (previous(&r@, r.len() as int), &items[r.len() as int], r.len()),
            None,
        ),
{
    let mut out: Vec<(u64, C)> = Vec::new();
    let mut i: usize = 0;
    while i < items.len()
        invariant
            i <= items.len(),
            out.len() == i,
            forall|t: &T, j: usize| #[trigger] key.requires((t, j)),
            forall|p: Option<&C>, t: &T, j: usize| #[trigger] sizer.requires((p, t, j)),
            forall|j: int| 0 <= j < out.len() ==> key.ensures((&items[j], j as usize), #[trigger] out[j].0),
            forall|j: int|
                0 <= j < out.len() ==> sizer.ensures(
                    (previous(&out@, j), &items[j], j as usize),
                    Some(#[trigger] out[j].1),
                ),
        decreases items.len() - i,
    {
        let k = key(&items[i], i);
        let placed = if i == 0 {
            sizer(None, &items[i], i)
        } else {
            sizer(Some(&out[i - 1].1), &items[i], i)
        };
        match placed {
            Some(c) => {
                let ghost before = out@;
                out.push((k, c));
                proof {
                    assert forall|j: int| 0 <= j < out.len() implies sizer.ensures(
                        (previous(&out@, j), &items[j], j as usize),
                        Some(#[trigger] out[j].1),
                    ) by {
                        if j < before.len() {
                            assert(out[j] == before[j]);
                            assert(previous(&out@, j) == previous(&before, j));
                        }
                    }
                }
            },
            None => {
                return out;
            },
        }
        i = i + 1;
    }
    out
}

/// Whether no key occurs twice in `keys`.
pub fn has_unique_keys(keys: &Vec<u64>) -> (r: bool)
    ensures
        r == keys@.no_duplicates(),
{
    let mut i: usize = 0;
    while i < keys.len()
        invariant
            i <= keys.len(),
            forall|a: int, b: int| 0 <= a < b < keys.len() && a < i ==> keys[a] != keys[b],
        decreases keys.len() - i,
    {
        let mut j: usize = i + 1;
        while j < keys.len()
            invariant
                i < j <= keys.len(),
                forall|a: int, b: int| 0 <= a < b < keys.len() && a < i ==> keys[a] != keys[b],
                forall|b: int| i < b < j ==> keys[i as int] != keys[b],
            decreases keys.len() - j,
        {
            if keys[i] == keys[j] {
                return false;
            }
            j = j + 1;
        }
        i = i + 1;
    }
    true
}

/// Running a pass again with the keys that the entries already have keeps every
/// entry as it is: no entry is built and none is disposed.
pub proof fn lemma_same_keys_keep_entries<S>(
    before: Seq<(u64, S)>,
    produced: Seq<u64>,
    after: Seq<(u64, S)>,
    missing: Seq<usize>,
    stale: Seq<(u64, S)>,
)
    requires
        pass_result(before, produced, after, missing, stale),
        forall|k: u64| has_key(before, k) <==> #[trigger] produced.contains(k),
    ensures
        missing.len() == 0,
        stale.len() == 0,
        forall|p: (u64, S)| #[trigger] after.contains(p) <==> before.contains(p),
{
    if missing.len() > 0 {
        let m = missing[0];
        assert(missing.contains(m));
        assert(produced.contains(produced[m as int]));
    }
    if stale.len() > 0 {
        let p = stale[0];
        assert(stale.contains(p));
        let j = choose|j: int| 0 <= j < before.len() && before[j] == p;
        assert(before[j].0 == p.0);
    }
    assert forall|p: (u64, S)| #[trigger] after.contains(p) <==> before.contains(p) by {
        if before.contains(p) {
            let j = choose|j: int| 0 <= j < before.len() && before[j] == p;
            assert(before[j].0 == p.0);
            assert(has_key(before, p.0));
        }
    }
}

/// When the data drops one key and keeps the others, the pass disposes exactly the
/// entry of that key and keeps every other entry as it is.
pub proof fn lemma_dropped_key_disposed<S>(
    before: Seq<(u64, S)>,
    produced: Seq<u64>,
    after: Seq<(u64, S)>,
    missing: Seq<usize>,
    stale: Seq<(u64, S)>,
    gone: u64,
)
    requires
        pass_result(before, produced, after, missing, stale),
        keys_unique(before),
        has_key(before, gone),
        forall|k: u64| #[trigger] produced.contains(k) <==> has_key(before, k) && k != gone,
    ensures
        missing.len() == 0,
        stale.len() == 1,
        stale[0].0 == gone,
        before.contains(stale[0]),
        forall|p: (u64, S)| p.0 != gone ==> (#[trigger] after.contains(p) <==> before.contains(p)),
        forall|p: (u64, S)| #[trigger] after.contains(p) ==> p.0 != gone,
{
    if missing.len() > 0 {
        let m = missing[0];
        assert(missing.contains(m));
        assert(produced.contains(produced[m as int]));
    }
    let j = choose|j: int| 0 <= j < before.len() && #[trigger] before[j].0 == gone;
    let gone_pair = before[j];
    assert(before.contains(gone_pair));
    assert(stale.contains(gone_pair));
    assert forall|a: int| 0 <= a < stale.len() implies stale[a] == gone_pair by {
        assert(stale.contains(stale[a]));
        let x = choose|x: int| 0 <= x < before.len() && before[x] == stale[a];
        assert(!produced.contains(stale[a].0));
        assert(before[x].0 == stale[a].0);
        assert(has_key(before, stale[a].0));
        if x < j {
            assert(before[x].0 != before[j].0);
        } else if j < x {
            assert(before[j].0 != before[x].0);
        }
    }
    if stale.len() > 1 {
        assert(stale[0] == stale[1]);
    }
    assert forall|p: (u64, S)| p.0 != gone implies (#[trigger] after.contains(p) <==> before.contains(p)) by {
        if before.contains(p) {
            let x = choose|x: int| 0 <= x < before.len() && before[x] == p;
            assert(before[x].0 == p.0);
            assert(has_key(before, p.0));
        }
    }
}

/// When the sizer stops the walk early, every entry whose key the walk did not
/// reach again, in particular the entries of the items from the stop on, is
/// disposed by the pass over the keys that were laid out.
pub proof fn lemma_stopped_walk_disposes<S, C>(
    before: Seq<(u64, S)>,
    laid: Seq<(u64, C)>,
    after: Seq<(u64, S)>,
    missing: Seq<usize>,
    stale: Seq<(u64, S)>,
    p: (u64, S),
)
    requires
        pass_result(before, laid.map_values(|e: (u64, C)| e.0), after, missing, stale),
        before.contains(p),
        forall|i: int| 0 <= i < laid.len() ==> #[trigger] laid[i].0 != p.0,
    ensures
        stale.contains(p),
        !after.contains(p),
{
    let produced = laid.map_values(|e: (u64, C)| e.0);
    if produced.contains(p.0) {
        let i = choose|i: int| 0 <= i < produced.len() && produced[i] == p.0;
        assert(laid[i].0 == p.0);
    }
}

} // verus!
