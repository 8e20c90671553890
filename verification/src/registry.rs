//! The plugin registry and dependency resolver.
//!
//! The registry maps each plugin identity to a record holding its declared
//! dependencies and its lifecycle state, and keeps the append-only log of
//! the order in which plugins reached `Started`. Registration is
//! idempotent and resolves declared dependencies transitively; the
//! lifecycle walks (`initialize`, `startup`) flip a plugin's state before
//! visiting its dependencies, visit every dependency before the plugin's
//! own hook, and report the exact order in which the hooks must run.
//! Shutdown visits the started plugins in the reverse of the start log.

use vstd::prelude::*;

use crate::plugin::PluginDecl;
use crate::plugin::State;
use crate::plugin::catalog_declares;
use crate::plugin::catalog_has;
use crate::plugin::catalog_wf;
use crate::plugin::find_decl;

verus! {

/// One registry record: a plugin's identity, its declared dependencies,
/// and its lifecycle state.
pub struct Record {
    pub name: String,
    pub deps: Vec<String>,
    pub state: State,
}

/// The dependency identity at position `k` of a record's declaration.
pub open spec fn dep_at(r: Record, k: int) -> Seq<char> {
    r.deps@[k]@
}

/// The registry: the records, in registration order, and the append-only
/// log of identities in the order they reached `Started`.
pub struct Registry {
    pub records: Vec<Record>,
    pub running: Vec<String>,
}

/// How many records of a sequence are in the given state.
pub open spec fn count_in_state(s: Seq<Record>, st: State) -> nat
    decreases s.len(),
{
    if s.len() == 0 {
        0
    } else {
        count_in_state(s.drop_last(), st) + if s.last().state == st {
            1nat
        } else {
            0nat
        }
    }
}

/// How many catalog entries name a plugin the registry does not hold yet.
pub open spec fn unregistered_count(reg: Registry, catalog: Seq<PluginDecl>) -> nat
    decreases catalog.len(),
{
    if catalog.len() == 0 {
        0
    } else {
        unregistered_count(reg, catalog.drop_last()) + if reg.has(catalog.last().name@) {
            0nat
        } else {
            1nat
        }
    }
}

/// Whether a name occurs in a list of identities.
pub open spec fn name_in(list: Seq<String>, name: Seq<char>) -> bool {
    exists|k: int| 0 <= k < list.len() && (#[trigger] list[k])@ == name
}

impl Registry {
    /// Whether a record of the given identity exists.
    pub open spec fn has(&self, name: Seq<char>) -> bool {
        exists|i: int|
            0 <= i < self.records@.len() && (#[trigger] self.records@[i]).name@ == name
    }

    /// The index of the record of the given identity.
    pub open spec fn idx_of(&self, name: Seq<char>) -> int {
        choose|i: int|
            0 <= i < self.records@.len() && (#[trigger] self.records@[i]).name@ == name
    }

    /// The lifecycle state of the plugin of the given identity.
    pub open spec fn st(&self, name: Seq<char>) -> State {
        self.records@[self.idx_of(name)].state
    }

    /// The declared dependencies of the plugin of the given identity.
    pub open spec fn deps_of(&self, name: Seq<char>) -> Seq<String> {
        self.records@[self.idx_of(name)].deps@
    }

    /// No two records share an identity.
    pub open spec fn names_distinct(&self) -> bool {
        forall|i: int, j: int|
            0 <= i < j < self.records@.len() ==> self.records@[i].name@
                != self.records@[j].name@
    }

    /// Every declared dependency of every record is itself registered.
    pub open spec fn deps_closed(&self) -> bool {
        forall|i: int, k: int|
            0 <= i < self.records@.len() && 0 <= k < self.records@[i].deps@.len() ==> self.has(
                #[trigger] dep_at(self.records@[i], k),
            )
    }

    /// The start log lists exactly the plugins that have reached `Started`
    /// (including those since `Stopped`), each once, and only registered ones.
    pub open spec fn running_ok(&self) -> bool {
        &&& forall|k: int|
            0 <= k < self.running@.len() ==> self.has((#[trigger] self.running@[k])@)
                && crate::plugin::rank(self.st(self.running@[k]@)) >= 2
        &&& forall|i: int|
            0 <= i < self.records@.len() && crate::plugin::rank(
                (#[trigger] self.records@[i]).state,
            ) >= 2 ==> name_in(self.running@, self.records@[i].name@)
        &&& forall|j: int, k: int|
            0 <= j < k < self.running@.len() ==> self.running@[j]@ != self.running@[k]@
    }

    /// Well-formedness: unique identities, transitively registered
    /// dependencies, and a coherent start log.
    pub open spec fn wf(&self) -> bool {
        &&& self.names_distinct()
        &&& self.deps_closed()
        &&& self.running_ok()
    }

    /// With distinct names, an identity determines its record's index.
    pub proof fn lemma_idx_of(&self, name: Seq<char>, i: int)
        requires
            self.names_distinct(),
            0 <= i < self.records@.len(),
            self.records@[i].name@ == name,
        ensures
            self.has(name),
            self.idx_of(name) == i,
    {
        assert(self.has(name));
        let j = self.idx_of(name);
        if i < j {
            assert(self.records@[i].name@ != self.records@[j].name@);
        } else if j < i {
            assert(self.records@[j].name@ != self.records@[i].name@);
        }
    }

    /// An empty registry.
    pub fn new() -> (r: Registry)
        ensures
            r.wf(),
            r.records@.len() == 0,
            r.running@.len() == 0,
    {
        Registry { records: Vec::new(), running: Vec::new() }
    }

    /// Looks the record of the given identity up.
    fn find_index(&self, name: &String) -> (r: Option<usize>)
        requires
            self.names_distinct(),
        ensures
            match r {
                Some(i) => i < self.records@.len() && self.records@[i as int].name@ == name@
                    && self.has(name@) && self.idx_of(name@) == i,
                None => !self.has(name@),
            },
    {
        let n = self.records.len();
        let mut i: usize = 0;
        while i < n
            invariant
                self.names_distinct(),
                n == self.records@.len(),
                i <= n,
                forall|j: int| 0 <= j < i ==> self.records@[j].name@ != name@,
            decreases n - i,
        {
            if self.records[i].name == *name {
                proof {
                    self.lemma_idx_of(name@, i as int);
                }
                return Some(i);
            }
            i = i + 1;
        }
        None
    }

    /// Whether a plugin of the given identity has been registered.
    pub fn is_registered(&self, name: &String) -> (r: bool)
        requires
            self.names_distinct(),
        ensures
            r == self.has(name@),
    {
        self.find_index(name).is_some()
    }

    /// The lifecycle state of a registered plugin, or nothing.
    pub fn plugin_state(&self, name: &String) -> (r: Option<State>)
        requires
            self.names_distinct(),
        ensures
            self.has(name@) ==> r == Some(self.st(name@)),
            !self.has(name@) ==> r is None,
    {
        match self.find_index(name) {
            Some(i) => Some(self.records[i].state),
            None => None,
        }
    }

    /// Registers the plugin of the given identity, resolving its declared
    /// dependencies transitively against the catalog. Idempotent: if the
    /// identity is already present the registry is returned unchanged and
    /// nothing is constructed. Otherwise the plugin and every not yet
    /// registered plugin it transitively depends on are inserted, each
    /// exactly once, in state `Registered`, with the dependency list its
    /// catalog declaration gives. The returned list holds the identities
    /// whose instances must now be constructed, in registration order,
    /// beginning with the requested plugin itself.
    #[verifier::spinoff_prover]
    pub fn register(&mut self, catalog: &Vec<PluginDecl>, name: &String) -> (created: Vec<String>)
        requires
            old(self).wf(),
            catalog_wf(catalog@),
            catalog_has(catalog@, name@),
        ensures
            final(self).wf(),
            final(self).running@ == old(self).running@,
            old(self).records@.len() <= final(self).records@.len(),
            forall|i: int|
                0 <= i < old(self).records@.len() ==> final(self).records@[i] == old(
                    self,
                ).records@[i],
            final(self).has(name@),
            created@.len() + old(self).records@.len() == final(self).records@.len(),
            forall|k: int|
                0 <= k < created@.len() ==> (#[trigger] created@[k])@ == final(self).records@[old(
                    self,
                ).records@.len() + k].name@,
            forall|i: int|
                old(self).records@.len() <= i < final(self).records@.len() ==> (
                #[trigger] final(self).records@[i]).state == State::Registered && !old(self).has(
                    final(self).records@[i].name@,
                ) && catalog_declares(
                    catalog@,
                    final(self).records@[i].name@,
                    final(self).records@[i].deps@,
                ),
            old(self).has(name@) ==> final(self).records@ == old(self).records@ && created@.len()
                == 0,
            !old(self).has(name@) ==> created@.len() >= 1 && created@[0]@ == name@,
    {
        let mut created: Vec<String> = Vec::new();
        let mut worklist: Vec<String> = Vec::new();
        worklist.push(name.clone());
        proof {
            assert(worklist@[0]@ == name@);
        }
        while worklist.len() > 0
            invariant
                old(self).wf(),
                catalog_wf(catalog@),
                catalog_has(catalog@, name@),
                self.names_distinct(),
                self.running_ok(),
                self.running@ == old(self).running@,
                old(self).records@.len() <= self.records@.len(),
                forall|i: int|
                    0 <= i < old(self).records@.len() ==> self.records@[i] == old(
                        self,
                    ).records@[i],
                created@.len() + old(self).records@.len() == self.records@.len(),
                forall|k: int|
                    0 <= k < created@.len() ==> (#[trigger] created@[k])@ == self.records@[old(
                        self,
                    ).records@.len() + k].name@,
                forall|i: int|
                    old(self).records@.len() <= i < self.records@.len() ==> (
                    #[trigger] self.records@[i]).state == State::Registered && !old(self).has(
                        self.records@[i].name@,
                    ) && catalog_declares(
                        catalog@,
                        self.records@[i].name@,
                        self.records@[i].deps@,
                    ),
                forall|k: int|
                    0 <= k < worklist@.len() ==> catalog_has(
                        catalog@,
                        (#[trigger] worklist@[k])@,
                    ),
                forall|i: int, k: int|
                    0 <= i < self.records@.len() && 0 <= k < self.records@[i].deps@.len()
                        ==> self.has(#[trigger] dep_at(self.records@[i], k)) || name_in(
                        worklist@,
                        dep_at(self.records@[i], k),
                    ),
                self.has(name@) || name_in(worklist@, name@),
                created@.len() == 0 ==> forall|k: int|
                    0 <= k < worklist@.len() ==> (#[trigger] worklist@[k])@ == name@,
                created@.len() >= 1 ==> created@[0]@ == name@,
            decreases unregistered_count(*self, catalog@), worklist@.len(),
        {
            let ghost prev = *self;
            let ghost prev_worklist = worklist@;
            let current = worklist.pop().unwrap();
            if self.is_registered(&current) {
                proof {
                    assert forall|i: int, k: int|
                        0 <= i < self.records@.len() && 0 <= k
                            < self.records@[i].deps@.len() implies self.has(
                        #[trigger] dep_at(self.records@[i], k),
                    ) || name_in(worklist@, dep_at(self.records@[i], k)) by {
                        let d = dep_at(self.records@[i], k);
                        if !self.has(d) {
                            let w = choose|w: int|
                                0 <= w < prev_worklist.len() && (#[trigger] prev_worklist[w])@
                                    == d;
                            assert(w < prev_worklist.len() - 1);
                            assert(worklist@[w]@ == d);
                        }
                    }
                    if !self.has(name@) {
                        let w = choose|w: int|
                            0 <= w < prev_worklist.len() && (#[trigger] prev_worklist[w])@
                                == name@;
                        assert(w < prev_worklist.len() - 1);
                        assert(worklist@[w]@ == name@);
                    }
                }
            } else {
                let decl = find_decl(catalog, &current).unwrap();
                let deps = clone_names(&decl.deps);
                let record = Record { name: current.clone(), deps, state: State::Registered };
                self.records.push(record);
                created.push(current);
                proof {
                    let m = self.records@.len() - 1;
                    assert(self.records@[m].name@ == prev_worklist.last()@);
                    assert forall|i: int, j: int|
                        0 <= i < j < self.records@.len() implies self.records@[i].name@
                        != self.records@[j].name@ by {
                        if j == m {
                            assert(!prev.has(self.records@[j].name@));
                        }
                    }
                    lemma_extend_preserves(prev, *self);
                    assert(old(self).records@.len() <= prev.records@.len());
                    assert forall|m2: Seq<char>| #[trigger] old(self).has(m2) implies prev.has(
                        m2,
                    ) by {
                        let i = choose|i: int|
                            0 <= i < old(self).records@.len() && (
                            #[trigger] old(self).records@[i]).name@ == m2;
                        assert(prev.records@[i] == old(self).records@[i]);
                    }
                    assert(self.has(self.records@[m].name@));
                    lemma_unregistered_strict(prev, *self, catalog@, self.records@[m].name@);
                }
                let n = decl.deps.len();
                let mut k = n;
                while k > 0
                    invariant
                        k <= n,
                        n == decl.deps@.len(),
                        forall|j: int|
                            0 <= j < worklist@.len() ==> catalog_has(
                                catalog@,
                                (#[trigger] worklist@[j])@,
                            ),
                        forall|j: int|
                            0 <= j < decl.deps@.len() ==> catalog_has(
                                catalog@,
                                (#[trigger] decl.deps@[j])@,
                            ),
                        forall|m2: Seq<char>|
                            name_in(prev_worklist.drop_last(), m2) ==> name_in(worklist@, m2),
                        forall|j: int|
                            k <= j < n ==> name_in(worklist@, (#[trigger] decl.deps@[j])@),
                    decreases k,
                {
                    k = k - 1;
                    let ghost before = worklist@;
                    worklist.push(decl.deps[k].clone());
                    proof {
                        assert forall|m2: Seq<char>|
                            name_in(before, m2) implies name_in(worklist@, m2) by {
                            let w = choose|w: int|
                                0 <= w < before.len() && (#[trigger] before[w])@ == m2;
                            assert(worklist@[w]@ == m2);
                        }
                        assert(worklist@.last()@ == decl.deps@[k as int]@);
                        assert forall|j: int|
                            k <= j < n implies name_in(
                            worklist@,
                            (#[trigger] decl.deps@[j])@,
                        ) by {
                            if j > k {
                                assert(name_in(before, decl.deps@[j]@));
                                let w = choose|w: int|
                                    0 <= w < before.len() && (#[trigger] before[w])@
                                        == decl.deps@[j]@;
                                assert(worklist@[w]@ == decl.deps@[j]@);
                            } else {
                                assert(worklist@[worklist@.len() - 1]@ == decl.deps@[j]@);
                            }
                        }
                    }
                }
                proof {
                    let m = self.records@.len() - 1;
                    assert forall|i: int, kk: int|
                        0 <= i < self.records@.len() && 0 <= kk
                            < self.records@[i].deps@.len() implies self.has(
                        #[trigger] dep_at(self.records@[i], kk),
                    ) || name_in(worklist@, dep_at(self.records@[i], kk)) by {
                        let d = dep_at(self.records@[i], kk);
                        if i < m {
                            if !prev.has(d) && name_in(prev_worklist, d) {
                                let w = choose|w: int|
                                    0 <= w < prev_worklist.len() && (
                                    #[trigger] prev_worklist[w])@ == d;
                                if w < prev_worklist.len() - 1 {
                                    assert(name_in(prev_worklist.drop_last(), d)) by {
                                        assert(prev_worklist.drop_last()[w]@ == d);
                                    }
                                } else {
                                    assert(d == self.records@[m].name@);
                                    assert(self.has(d));
                                }
                            }
                        } else {
                            assert(d == decl.deps@[kk]@);
                        }
                    }
                    if !self.has(name@) {
                        assert(name_in(prev_worklist, name@));
                        let w = choose|w: int|
                            0 <= w < prev_worklist.len() && (#[trigger] prev_worklist[w])@
                                == name@;
                        if w < prev_worklist.len() - 1 {
                            assert(prev_worklist.drop_last()[w]@ == name@);
                            assert(name_in(prev_worklist.drop_last(), name@));
                        } else {
                            assert(self.records@[self.records@.len() - 1].name@ == name@);
                        }
                    }
                }
            }
        }
        proof {
            if old(self).has(name@) {
                assert(created@.len() == 0) by {
                    if created@.len() >= 1 {
                        assert(!old(self).has(
                            self.records@[old(self).records@.len() as int].name@,
                        ));
                    }
                }
                assert(self.records@ =~= old(self).records@);
            }
        }
        created
    }

    /// One phase walk, shared by `initialize` and `startup`: a no-op unless
    /// the target is in the phase's predecessor state; otherwise the target
    /// is moved to the phase's state first (so a malformed, cyclic
    /// declaration terminates instead of recursing forever), then each
    /// declared dependency is walked, and the target's own hook is
    /// scheduled last.
    #[verifier::rlimit(100)]
    #[verifier::spinoff_prover]
    fn advance_rec(
        &mut self,
        name: &String,
        starting: bool,
        pending: Ghost<Set<Seq<char>>>,
    ) -> (hooks: Vec<String>)
        requires
            old(self).wf(),
            old(self).has(name@),
            forall|p: Seq<char>| pending@.contains(p) ==> reaches(*old(self), p, name@),
        ensures
            final(self).wf(),
            advance_post(*old(self), *final(self), name@, starting, pending@, hooks@),
        decreases count_in_state(old(self).records@, from_state(starting)),
    {
        let ghost o = *old(self);
        let from = if starting {
            State::Initialized
        } else {
            State::Registered
        };
        let to = if starting {
            State::Started
        } else {
            State::Initialized
        };
        let idx = self.find_index(name).unwrap();
        if self.records[idx].state != from {
            let hooks: Vec<String> = Vec::new();
            proof {
                assert(o.st(name@) != from_state(starting));
                assert(same_shape(o, *self));
                assert forall|m: Seq<char>| #[trigger] o.has(m) implies self.st(m) == o.st(m) by {}
            }
            return hooks;
        }
        proof {
            assert(o.st(name@) == from_state(starting));
        }
        {
            let r = &mut self.records[idx];
            r.state = to;
        }
        if starting {
            self.running.push(name.clone());
        }
        let ghost s1 = *self;
        proof {
            lemma_flip(o, s1, idx as int, to_state(starting));
            lemma_same_shape_reaches(o, s1);
            lemma_count_update(o.records@, idx as int, s1.records@[idx as int], from_state(starting));
            assert(count_in_state(s1.records@, from_state(starting)) + 1 == count_in_state(
                o.records@,
                from_state(starting),
            ));
            // the flipped plugin was not yet in the start log
            assert forall|k: int| 0 <= k < o.running@.len() implies (#[trigger] o.running@[k])@
                != name@ by {
                if o.running@[k]@ == name@ {
                    assert(crate::plugin::rank(o.st(name@)) >= 2);
                }
            }
            // well-formedness after the flip
            assert(s1.deps_closed()) by {
                assert forall|i: int, k: int|
                    0 <= i < s1.records@.len() && 0 <= k
                        < s1.records@[i].deps@.len() implies s1.has(
                    #[trigger] dep_at(s1.records@[i], k),
                ) by {
                    assert(s1.records@[i].deps == o.records@[i].deps);
                    assert(dep_at(s1.records@[i], k) == dep_at(o.records@[i], k));
                    assert(o.has(dep_at(o.records@[i], k)));
                }
            }
            assert(s1.running_ok()) by {
                if starting {
                    assert forall|k: int| 0 <= k < s1.running@.len() implies s1.has(
                        (#[trigger] s1.running@[k])@,
                    ) && crate::plugin::rank(s1.st(s1.running@[k]@)) >= 2 by {
                        if k < o.running@.len() {
                            assert(s1.running@[k] == o.running@[k]);
                            assert(o.has(o.running@[k]@));
                            assert(s1.st(o.running@[k]@) == o.st(o.running@[k]@));
                        } else {
                            assert(s1.running@[k]@ == name@);
                            assert(s1.st(name@) == State::Started);
                        }
                    }
                    assert forall|i: int|
                        0 <= i < s1.records@.len() && crate::plugin::rank(
                            (#[trigger] s1.records@[i]).state,
                        ) >= 2 implies name_in(s1.running@, s1.records@[i].name@) by {
                        if i == idx as int {
                            assert(s1.running@[o.running@.len() as int]@ == name@);
                            assert(s1.records@[i].name@ == name@);
                        } else {
                            assert(s1.records@[i] == o.records@[i]);
                            assert(name_in(o.running@, o.records@[i].name@));
                            let w = choose|w: int|
                                0 <= w < o.running@.len() && (#[trigger] o.running@[w])@
                                    == o.records@[i].name@;
                            assert(s1.running@[w]@ == o.records@[i].name@);
                        }
                    }
                } else {
                    assert(s1.running@ == o.running@);
                    assert forall|k: int| 0 <= k < s1.running@.len() implies s1.has(
                        (#[trigger] s1.running@[k])@,
                    ) && crate::plugin::rank(s1.st(s1.running@[k]@)) >= 2 by {
                        assert(o.has(o.running@[k]@));
                        assert(o.running@[k]@ != name@);
                        assert(s1.st(o.running@[k]@) == o.st(o.running@[k]@));
                    }
                    assert forall|i: int|
                        0 <= i < s1.records@.len() && crate::plugin::rank(
                            (#[trigger] s1.records@[i]).state,
                        ) >= 2 implies name_in(s1.running@, s1.records@[i].name@) by {
                        if i != idx as int {
                            assert(s1.records@[i] == o.records@[i]);
                        }
                    }
                }
            }
        }
        let deps = clone_names(&self.records[idx].deps);
        let ghost dep_seq = o.records@[idx as int].deps@;
        proof {
            assert(deps@ == dep_seq);
            assert(o.deps_of(name@) == dep_seq) by {
                o.lemma_idx_of(name@, idx as int);
            }
        }
        let n_deps = deps.len();
        let mut hooks: Vec<String> = Vec::new();
        let mut i: usize = 0;
        while i < n_deps
            invariant
                o == *old(self),
                o.wf(),
                o.has(name@),
                forall|p: Seq<char>| pending@.contains(p) ==> reaches(o, p, name@),
                0 <= idx < o.records@.len(),
                o.records@[idx as int].name@ == name@,
                o.st(name@) == from_state(starting),
                o.deps_of(name@) == dep_seq,
                from == from_state(starting),
                to == to_state(starting),
                i <= n_deps,
                n_deps == deps@.len(),
                deps@ == dep_seq,
                self.wf(),
                same_shape(o, *self),
                // state bookkeeping: the flipped plugins so far are the
                // scheduled hooks plus the target itself
                forall|m: Seq<char>|
                    #[trigger] o.has(m) ==> if name_in(hooks@, m) || m == name@ {
                        o.st(m) == from_state(starting) && self.st(m) == to_state(starting)
                    } else {
                        self.st(m) == o.st(m)
                    },
                !name_in(hooks@, name@),
                forall|k: int| 0 <= k < hooks@.len() ==> o.has((#[trigger] hooks@[k])@),
                forall|j: int, k: int| 0 <= j < k < hooks@.len() ==> hooks@[j]@ != hooks@[k]@,
                // every dependency visited so far has run or was exempt
                forall|j: int|
                    0 <= j < i ==> name_in(hooks@, (#[trigger] dep_seq[j])@) || o.st(dep_seq[j]@)
                        != from_state(starting) || dep_seq[j]@ == name@,
                forall|k: int|
                    0 <= k < hooks@.len() ==> #[trigger] hook_deps_ok(
                        o,
                        from_state(starting),
                        pending@,
                        hooks@,
                        k,
                    ),
                forall|k: int|
                    0 <= k < hooks@.len() ==> reaches(o, name@, (#[trigger] hooks@[k])@),
                // the start log so far
                !starting ==> self.running@ == o.running@,
                starting ==> {
                    &&& self.running@.len() == o.running@.len() + 1 + hooks@.len()
                    &&& (forall|j: int|
                        0 <= j < o.running@.len() ==> self.running@[j] == o.running@[j])
                    &&& self.running@[o.running@.len() as int]@ == name@
                    &&& (forall|j: int|
                        o.running@.len() + 1 <= j < self.running@.len() ==> name_in(
                            hooks@,
                            (#[trigger] self.running@[j])@,
                        ))
                },
                count_in_state(self.records@, from_state(starting)) < count_in_state(
                    o.records@,
                    from_state(starting),
                ),
            decreases n_deps - i,
        {
            let dep = deps[i].clone();
            let ghost pre = *self;
            proof {
                lemma_same_shape_model(o, pre);
                lemma_same_shape_reaches(o, pre);
                assert(dep@ == dep_seq[i as int]@);
                // the dependency is registered
                assert(o.has(dep@)) by {
                    assert(dep_at(o.records@[idx as int], i as int) == dep@);
                }
                // a dependency edge from the target to this dependency
                assert(dep_edge(o, name@, dep@)) by {
                    assert(o.deps_of(name@)[i as int]@ == dep@);
                }
                lemma_edge_reaches(o, name@, dep@);
                // every pending identity, and the target, reaches the dependency
                assert forall|p: Seq<char>| pending@.insert(name@).contains(p) implies reaches(
                    pre,
                    p,
                    dep@,
                ) by {
                    if p == name@ {
                        assert(reaches(o, name@, dep@));
                    } else {
                        assert(reaches(o, p, name@));
                        lemma_reaches_trans(o, p, name@, dep@);
                    }
                    assert(reaches(o, p, dep@));
                }
            }
            let mut sub = self.advance_rec(&dep, starting, Ghost(pending@.insert(name@)));
            let ghost hooks_pre = hooks@;
            let ghost sub_seq = sub@;
            hooks.append(&mut sub);
            i = i + 1;
            proof {
                assert(hooks@ == hooks_pre + sub_seq);
                let post = *self;
                lemma_same_shape_model(o, pre);
                lemma_same_shape_reaches(o, pre);
                lemma_same_shape_reaches(pre, post);
                assert(same_shape(o, post));
                lemma_same_shape_model(o, post);
                let ghost fs = from_state(starting);
                let ghost ts = to_state(starting);
                assert(fs != ts);
                // membership in the combined plan
                assert forall|m: Seq<char>|
                    name_in(hooks_pre, m) || name_in(sub_seq, m) implies name_in(hooks@, m) by {
                    if name_in(hooks_pre, m) {
                        let w = choose|w: int|
                            0 <= w < hooks_pre.len() && (#[trigger] hooks_pre[w])@ == m;
                        assert(hooks@[w]@ == m);
                    } else {
                        let w = choose|w: int|
                            0 <= w < sub_seq.len() && (#[trigger] sub_seq[w])@ == m;
                        assert(hooks@[hooks_pre.len() + w]@ == m);
                    }
                }
                assert forall|m: Seq<char>| name_in(hooks@, m) implies name_in(hooks_pre, m)
                    || name_in(sub_seq, m) by {
                    let w = choose|w: int|
                        0 <= w < hooks@.len() && (#[trigger] hooks@[w])@ == m;
                    if w < hooks_pre.len() {
                        assert(hooks_pre[w]@ == m);
                    } else {
                        assert(sub_seq[w - hooks_pre.len()]@ == m);
                    }
                }
                // state bookkeeping carries over
                assert forall|m: Seq<char>| #[trigger] o.has(m) implies (if name_in(hooks@, m) || m
                    == name@ {
                    o.st(m) == fs && post.st(m) == ts
                } else {
                    post.st(m) == o.st(m)
                }) by {
                    assert(pre.has(m));
                    if name_in(sub_seq, m) {
                        assert(pre.st(m) == fs && post.st(m) == ts);
                        assert(!(name_in(hooks_pre, m) || m == name@)) by {
                            if name_in(hooks_pre, m) || m == name@ {
                                assert(pre.st(m) == ts);
                            }
                        }
                        assert(o.st(m) == fs);
                    } else {
                        assert(post.st(m) == pre.st(m));
                    }
                }
                // the target is still not in the plan
                assert(!name_in(hooks@, name@)) by {
                    if name_in(sub_seq, name@) {
                        assert(pre.st(name@) == fs);
                        assert(self.st(name@) == ts || pre.st(name@) == ts);
                    }
                }
                // registered, distinct
                assert forall|k: int| 0 <= k < hooks@.len() implies o.has(
                    (#[trigger] hooks@[k])@,
                ) by {
                    if k >= hooks_pre.len() {
                        assert(pre.has(sub_seq[k - hooks_pre.len()]@));
                    }
                }
                assert forall|j: int, k: int| 0 <= j < k < hooks@.len() implies hooks@[j]@
                    != hooks@[k]@ by {
                    if j < hooks_pre.len() && k >= hooks_pre.len() {
                        let m = hooks_pre[j]@;
                        if sub_seq[k - hooks_pre.len()]@ == m {
                            assert(name_in(hooks_pre, m));
                            assert(o.st(m) == fs && pre.st(m) == ts);
                            assert(pre.st(m) == fs);
                        }
                    }
                }
                // the dependency just visited has run or is exempt
                assert(name_in(hooks@, dep_seq[i - 1]@) || o.st(dep_seq[i - 1]@) != fs || dep_seq[
                    i - 1]@ == name@) by {
                    if pre.st(dep@) == fs {
                        assert(sub_seq.len() >= 1 && sub_seq.last()@ == dep@);
                        assert(name_in(sub_seq, dep@));
                    } else {
                        if !(name_in(hooks_pre, dep@) || dep@ == name@) {
                            assert(pre.st(dep@) == o.st(dep@));
                        }
                    }
                }
                assert forall|j: int| 0 <= j < i implies name_in(hooks@, (#[trigger] dep_seq[j])@)
                    || o.st(dep_seq[j]@) != fs || dep_seq[j]@ == name@ by {
                    if j < i - 1 {
                        if name_in(hooks_pre, dep_seq[j]@) {
                            assert(name_in(hooks@, dep_seq[j]@));
                        }
                    }
                }
                // dependency ordering for the combined plan
                assert forall|k: int| 0 <= k < hooks@.len() implies #[trigger] hook_deps_ok(
                    o,
                    fs,
                    pending@,
                    hooks@,
                    k,
                ) by {
                    if k < hooks_pre.len() {
                        assert(hook_deps_ok(o, fs, pending@, hooks_pre, k));
                        assert forall|kd: int|
                            0 <= kd < o.deps_of(hooks@[k]@).len() implies {
                            let d = (#[trigger] o.deps_of(hooks@[k]@)[kd])@;
                            ||| exists|j: int| 0 <= j < k && (#[trigger] hooks@[j])@ == d
                            ||| o.st(d) != fs
                            ||| pending@.contains(d)
                            ||| reaches(o, d, hooks@[k]@)
                        } by {
                            assert(hooks@[k] == hooks_pre[k]);
                            let d = o.deps_of(hooks_pre[k]@)[kd]@;
                            assert({
                                ||| exists|j: int| 0 <= j < k && (#[trigger] hooks_pre[j])@ == d
                                ||| o.st(d) != fs
                                ||| pending@.contains(d)
                                ||| reaches(o, d, hooks_pre[k]@)
                            });
                            if exists|j: int| 0 <= j < k && (#[trigger] hooks_pre[j])@ == d {
                                let j = choose|j: int|
                                    0 <= j < k && (#[trigger] hooks_pre[j])@ == d;
                                assert(hooks@[j]@ == d);
                            }
                        }
                    } else {
                        let ks = k - hooks_pre.len();
                        assert(hook_deps_ok(pre, fs, pending@.insert(name@), sub_seq, ks));
                        assert(hooks@[k] == sub_seq[ks]);
                        // the scheduled plugin is reached from the target
                        assert(sub_seq[ks]@ == dep@ || reaches(pre, dep@, sub_seq[ks]@));
                        assert(reaches(o, name@, sub_seq[ks]@)) by {
                            if sub_seq[ks]@ == dep@ {
                                assert(reaches(o, name@, dep@));
                            } else {
                                assert(reaches(o, dep@, sub_seq[ks]@));
                                lemma_reaches_trans(o, name@, dep@, sub_seq[ks]@);
                            }
                        }
                        assert forall|kd: int|
                            0 <= kd < o.deps_of(hooks@[k]@).len() implies {
                            let d = (#[trigger] o.deps_of(hooks@[k]@)[kd])@;
                            ||| exists|j: int| 0 <= j < k && (#[trigger] hooks@[j])@ == d
                            ||| o.st(d) != fs
                            ||| pending@.contains(d)
                            ||| reaches(o, d, hooks@[k]@)
                        } by {
                            let d = o.deps_of(hooks@[k]@)[kd]@;
                            assert(pre.deps_of(sub_seq[ks]@) == o.deps_of(sub_seq[ks]@));
                            assert(pre.deps_of(sub_seq[ks]@)[kd]@ == d);
                            assert({
                                ||| exists|j: int| 0 <= j < ks && (#[trigger] sub_seq[j])@ == d
                                ||| pre.st(d) != fs
                                ||| pending@.insert(name@).contains(d)
                                ||| reaches(pre, d, sub_seq[ks]@)
                            });
                            if exists|j: int| 0 <= j < ks && (#[trigger] sub_seq[j])@ == d {
                                let j = choose|j: int|
                                    0 <= j < ks && (#[trigger] sub_seq[j])@ == d;
                                assert(hooks@[hooks_pre.len() + j]@ == d);
                            } else if pre.st(d) != fs && o.has(d) && o.st(d) == fs {
                                // flipped earlier in this walk: find its hook
                                assert(name_in(hooks_pre, d) || d == name@);
                                if name_in(hooks_pre, d) {
                                    let j = choose|j: int|
                                        0 <= j < hooks_pre.len() && (#[trigger] hooks_pre[j])@
                                            == d;
                                    assert(hooks@[j]@ == d);
                                } else {
                                    // the dependency is the target itself
                                    assert(reaches(o, name@, sub_seq[ks]@));
                                    assert(reaches(o, d, hooks@[k]@));
                                }
                            } else if pre.st(d) != fs && o.has(d) {
                                assert(o.st(d) != fs);
                            } else if pre.st(d) != fs && !o.has(d) {
                                // impossible: a declared dependency of a
                                // registered plugin is itself registered
                                assert(o.has(sub_seq[ks]@));
                                let ri = o.idx_of(sub_seq[ks]@);
                                assert(o.has(dep_at(o.records@[ri], kd)));
                                assert(dep_at(o.records@[ri], kd) == d);
                                assert(false);
                            } else if pending@.insert(name@).contains(d) {
                                if d == name@ && !pending@.contains(d) {
                                    assert(reaches(o, name@, sub_seq[ks]@));
                                } else {
                                    assert(pending@.contains(d));
                                }
                            } else if reaches(pre, d, sub_seq[ks]@) {
                                assert(reaches(o, d, sub_seq[ks]@));
                            }
                        }
                    }
                }
                // everything scheduled is reached from the target
                assert forall|k: int| 0 <= k < hooks@.len() implies reaches(
                    o,
                    name@,
                    (#[trigger] hooks@[k])@,
                ) by {
                    if k >= hooks_pre.len() {
                        let ks = k - hooks_pre.len();
                        if sub_seq[ks]@ == dep@ {
                            assert(reaches(o, name@, dep@));
                        } else {
                            assert(reaches(pre, dep_seq[i - 1]@, sub_seq[ks]@));
                            assert(reaches(o, dep@, sub_seq[ks]@));
                            lemma_reaches_trans(o, name@, dep@, sub_seq[ks]@);
                        }
                    }
                }
                // the start log
                if starting {
                    assert(self.running@.len() == o.running@.len() + 1 + hooks@.len());
                    assert forall|j: int|
                        o.running@.len() + 1 <= j < self.running@.len() implies name_in(
                        hooks@,
                        (#[trigger] self.running@[j])@,
                    ) by {
                        if j < pre.running@.len() {
                            assert(self.running@[j] == pre.running@[j]);
                            assert(name_in(hooks_pre, pre.running@[j]@));
                        } else {
                            assert(name_in(sub_seq, self.running@[j]@));
                        }
                    }
                    assert(self.running@[o.running@.len() as int]@ == name@) by {
                        assert(pre.running@[o.running@.len() as int]@ == name@);
                        assert(self.running@[o.running@.len() as int] == pre.running@[o.running@.len() as int]);
                    }
                }
            }
        }
        let ghost hooks_loop = hooks@;
        hooks.push(name.clone());
        proof {
            let ghost fs = from_state(starting);
            let ghost ts = to_state(starting);
            let hooks_pre = hooks@.drop_last();
            assert(hooks@.drop_last() =~= hooks_loop);
            assert(hooks_pre == hooks_loop);
            assert(hooks@.last() == *name);
            assert(hooks@.last()@ == name@);
            assert forall|m: Seq<char>| name_in(hooks@, m) implies name_in(hooks_pre, m) || m
                == name@ by {
                let w = choose|w: int| 0 <= w < hooks@.len() && (#[trigger] hooks@[w])@ == m;
                if w < hooks@.len() - 1 {
                    assert(hooks_pre[w]@ == m);
                }
            }
            assert forall|m: Seq<char>| name_in(hooks_pre, m) || m == name@ implies name_in(
                hooks@,
                m,
            ) by {
                if name_in(hooks_pre, m) {
                    let w = choose|w: int|
                        0 <= w < hooks_pre.len() && (#[trigger] hooks_pre[w])@ == m;
                    assert(hooks@[w]@ == m);
                } else {
                    assert(hooks@[hooks@.len() - 1]@ == m);
                }
            }
            // state bookkeeping in its final form
            assert forall|m: Seq<char>| #[trigger] o.has(m) implies (if name_in(hooks@, m) {
                o.st(m) == fs && self.st(m) == ts
            } else {
                self.st(m) == o.st(m)
            }) by {}
            // distinctness with the target appended
            assert forall|j: int, k: int| 0 <= j < k < hooks@.len() implies hooks@[j]@
                != hooks@[k]@ by {
                if k == hooks@.len() - 1 {
                    assert(hooks@[j] == hooks_pre[j]);
                    if hooks@[j]@ == name@ {
                        assert(name_in(hooks_pre, name@));
                    }
                }
            }
            // dependency ordering for the target's own hook
            assert forall|k: int| 0 <= k < hooks@.len() implies #[trigger] hook_deps_ok(
                o,
                fs,
                pending@,
                hooks@,
                k,
            ) by {
                if k < hooks@.len() - 1 {
                    assert(hooks@[k] == hooks_pre[k]);
                    assert(hook_deps_ok(o, fs, pending@, hooks_pre, k));
                    assert forall|kd: int|
                        0 <= kd < o.deps_of(hooks@[k]@).len() implies {
                        let d = (#[trigger] o.deps_of(hooks@[k]@)[kd])@;
                        ||| exists|j: int| 0 <= j < k && (#[trigger] hooks@[j])@ == d
                        ||| o.st(d) != fs
                        ||| pending@.contains(d)
                        ||| reaches(o, d, hooks@[k]@)
                    } by {
                        let d = o.deps_of(hooks_pre[k]@)[kd]@;
                        if exists|j: int| 0 <= j < k && (#[trigger] hooks_pre[j])@ == d {
                            let j = choose|j: int|
                                0 <= j < k && (#[trigger] hooks_pre[j])@ == d;
                            assert(hooks@[j]@ == d);
                        }
                    }
                } else {
                    // the target's own dependencies
                    assert(hooks@[k]@ == name@);
                    assert forall|kd: int|
                        0 <= kd < o.deps_of(hooks@[k]@).len() implies {
                        let d = (#[trigger] o.deps_of(hooks@[k]@)[kd])@;
                        ||| exists|j: int| 0 <= j < k && (#[trigger] hooks@[j])@ == d
                        ||| o.st(d) != fs
                        ||| pending@.contains(d)
                        ||| reaches(o, d, hooks@[k]@)
                    } by {
                        let d = o.deps_of(name@)[kd]@;
                        assert(dep_seq[kd]@ == d);
                        assert(name_in(hooks_pre, d) || o.st(d) != fs || d == name@) by {
                            if name_in(hooks@.drop_last(), d) {
                            }
                            assert(name_in(hooks_pre, dep_seq[kd]@) || o.st(dep_seq[kd]@) != fs
                                || dep_seq[kd]@ == name@) by {
                                if name_in(hooks@, dep_seq[kd]@) && !name_in(
                                    hooks_pre,
                                    dep_seq[kd]@,
                                ) {
                                    assert(dep_seq[kd]@ == name@);
                                }
                            }
                        }
                        if name_in(hooks_pre, d) {
                            let j = choose|j: int|
                                0 <= j < hooks_pre.len() && (#[trigger] hooks_pre[j])@ == d;
                            assert(hooks@[j]@ == d);
                        } else if d == name@ {
                            assert(dep_edge(o, name@, name@)) by {
                                assert(o.deps_of(name@)[kd]@ == name@);
                            }
                            lemma_edge_reaches(o, name@, name@);
                            assert(reaches(o, d, hooks@[k]@));
                        }
                    }
                }
            }
            // reach-from-target with the target appended
            assert forall|k: int| 0 <= k < hooks@.len() implies (#[trigger] hooks@[k])@ == name@
                || reaches(o, name@, hooks@[k]@) by {
                if k < hooks@.len() - 1 {
                    assert(hooks@[k] == hooks_pre[k]);
                    assert(reaches(o, name@, hooks_pre[k]@));
                }
            }
            // the start log with the target's hook appended
            if starting {
                assert(self.running@.len() == o.running@.len() + hooks@.len());
                assert forall|j: int|
                    o.running@.len() <= j < self.running@.len() implies name_in(
                    hooks@,
                    (#[trigger] self.running@[j])@,
                ) by {
                    if j == o.running@.len() {
                        assert(self.running@[j]@ == name@);
                    } else {
                        assert(name_in(hooks_pre, self.running@[j]@));
                    }
                }
            }
            assert(advance_post(o, *self, name@, starting, pending@, hooks@));
        }
        hooks
    }

    /// Drives the initialization phase for the plugin of the given
    /// identity: a no-op unless the plugin is still `Registered`; otherwise
    /// the plugin is marked `Initialized`, every declared dependency is
    /// initialized in turn, and the returned plan lists whose init hooks
    /// must now run, dependencies before dependents, the plugin itself last.
    pub fn initialize(&mut self, name: &String) -> (hooks: Vec<String>)
        requires
            old(self).wf(),
            old(self).has(name@),
        ensures
            final(self).wf(),
            advance_post(*old(self), *final(self), name@, false, Set::empty(), hooks@),
    {
        self.advance_rec(name, false, Ghost(Set::empty()))
    }

    /// Drives the startup phase for the plugin of the given identity: a
    /// no-op unless the plugin is `Initialized`; otherwise the plugin is
    /// marked `Started` and appended to the start log before its
    /// dependencies are started, and the returned plan lists whose startup
    /// hooks must now run, dependencies before dependents, the plugin last.
    pub fn startup_plugin(&mut self, name: &String) -> (hooks: Vec<String>)
        requires
            old(self).wf(),
            old(self).has(name@),
        ensures
            final(self).wf(),
            advance_post(*old(self), *final(self), name@, true, Set::empty(), hooks@),
    {
        self.advance_rec(name, true, Ghost(Set::empty()))
    }

    /// Stops one plugin: a no-op unless it is `Started`; otherwise it is
    /// marked `Stopped` and its shutdown hook is due (the result says so).
    /// Never recurses into dependencies: shutdown order is driven entirely
    /// by the start log, not by the dependency graph.
    pub fn shutdown_plugin(&mut self, name: &String) -> (ran: bool)
        requires
            old(self).wf(),
        ensures
            final(self).wf(),
            same_shape(*old(self), *final(self)),
            final(self).running@ == old(self).running@,
            ran == (old(self).has(name@) && old(self).st(name@) == State::Started),
            ran ==> final(self).st(name@) == State::Stopped,
            ran ==> forall|m: Seq<char>|
                #[trigger] old(self).has(m) && m != name@ ==> final(self).st(m) == old(self).st(
                    m,
                ),
            !ran ==> final(self).records@ == old(self).records@,
    {
        let ghost o = *old(self);
        let idx = match self.find_index(name) {
            Some(i) => i,
            None => {
                return false;
            },
        };
        if self.records[idx].state != State::Started {
            return false;
        }
        {
            let r = &mut self.records[idx];
            r.state = State::Stopped;
        }
        proof {
            lemma_flip(o, *self, idx as int, State::Stopped);
            assert(self.deps_closed()) by {
                assert forall|i: int, k: int|
                    0 <= i < self.records@.len() && 0 <= k
                        < self.records@[i].deps@.len() implies self.has(
                    #[trigger] dep_at(self.records@[i], k),
                ) by {
                    assert(self.records@[i].deps == o.records@[i].deps);
                    assert(dep_at(self.records@[i], k) == dep_at(o.records@[i], k));
                    assert(o.has(dep_at(o.records@[i], k)));
                }
            }
            assert(self.running_ok()) by {
                assert forall|k: int| 0 <= k < self.running@.len() implies self.has(
                    (#[trigger] self.running@[k])@,
                ) && crate::plugin::rank(self.st(self.running@[k]@)) >= 2 by {
                    assert(o.has(o.running@[k]@));
                    if o.running@[k]@ == name@ {
                        assert(self.st(name@) == State::Stopped);
                    } else {
                        assert(self.st(o.running@[k]@) == o.st(o.running@[k]@));
                    }
                }
                assert forall|i: int|
                    0 <= i < self.records@.len() && crate::plugin::rank(
                        (#[trigger] self.records@[i]).state,
                    ) >= 2 implies name_in(self.running@, self.records@[i].name@) by {
                    if i != idx as int {
                        assert(self.records@[i] == o.records@[i]);
                    } else {
                        assert(crate::plugin::rank(o.records@[i].state) >= 2);
                        assert(self.records@[i].name@ == o.records@[i].name@);
                    }
                }
            }
        }
        true
    }
}

/// The identities in a start log.
pub open spec fn run_views(s: Seq<String>) -> Seq<Seq<char>> {
    s.map_values(|x: String| x@)
}

/// The teardown plan over the slice `[lo, hi)` of a registry's start log:
/// reading the log backwards from `hi`, the identities still `Started`.
pub open spec fn teardown_span(reg: Registry, lo: int, hi: int) -> Seq<Seq<char>>
    decreases hi - lo,
{
    if hi <= lo {
        Seq::empty()
    } else {
        let m = reg.running@[hi - 1]@;
        (if reg.st(m) == State::Started {
            seq![m]
        } else {
            Seq::<Seq<char>>::empty()
        }) + teardown_span(reg, lo, hi - 1)
    }
}

/// Peeling the teardown plan at its low end.
proof fn lemma_span_step(reg: Registry, lo: int, hi: int)
    requires
        0 <= lo < hi,
    ensures
        teardown_span(reg, lo, hi) =~= teardown_span(reg, lo + 1, hi) + (if reg.st(
            reg.running@[lo]@,
        ) == State::Started {
            seq![reg.running@[lo]@]
        } else {
            Seq::<Seq<char>>::empty()
        }),
    decreases hi - lo,
{
    if hi == lo + 1 {
        assert(teardown_span(reg, lo + 1, hi) =~= Seq::<Seq<char>>::empty());
        assert(teardown_span(reg, lo, lo) =~= Seq::<Seq<char>>::empty());
    } else {
        lemma_span_step(reg, lo, hi - 1);
    }
}

/// When every logged plugin is still `Started`, the teardown plan is the
/// exact reverse of the start log slice.
proof fn lemma_span_all_started(reg: Registry, lo: int, hi: int)
    requires
        0 <= lo <= hi <= reg.running@.len(),
        forall|k: int|
            lo <= k < hi ==> reg.st((#[trigger] reg.running@[k])@) == State::Started,
    ensures
        teardown_span(reg, lo, hi) =~= run_views(reg.running@).subrange(lo, hi).reverse(),
    decreases hi - lo,
{
    if hi > lo {
        lemma_span_all_started(reg, lo, hi - 1);
        assert(teardown_span(reg, lo, hi) =~= run_views(reg.running@).subrange(lo, hi).reverse());
    }
}

impl Registry {
    /// Walks the start log in reverse and stops every plugin still
    /// running. The returned plan lists the plugins whose shutdown hooks
    /// must now run, in exactly that reverse order: the plugin whose start
    /// was logged last is stopped first, independent of the dependency
    /// graph. Each hook runs once; plugins never started, or stopped
    /// already, are untouched.
    #[verifier::rlimit(100)]
    #[verifier::spinoff_prover]
    pub fn shutdown_all(&mut self) -> (hooks: Vec<String>)
        requires
            old(self).wf(),
        ensures
            final(self).wf(),
            same_shape(*old(self), *final(self)),
            final(self).running@ == old(self).running@,
            forall|m: Seq<char>|
                #[trigger] old(self).has(m) ==> if old(self).st(m) == State::Started {
                    final(self).st(m) == State::Stopped && name_in(hooks@, m)
                } else {
                    final(self).st(m) == old(self).st(m) && !name_in(hooks@, m)
                },
            forall|j: int, k: int| 0 <= j < k < hooks@.len() ==> hooks@[j]@ != hooks@[k]@,
            forall|k: int| 0 <= k < hooks@.len() ==> old(self).has((#[trigger] hooks@[k])@),
            hook_views(hooks@) =~= teardown_span(
                *old(self),
                0,
                old(self).running@.len() as int,
            ),
            (forall|k: int|
                0 <= k < old(self).running@.len() ==> old(self).st(
                    (#[trigger] old(self).running@[k])@,
                ) == State::Started) ==> hook_views(hooks@) =~= run_views(
                old(self).running@,
            ).reverse(),
    {
        let ghost o = *old(self);
        let mut hooks: Vec<String> = Vec::new();
        let mut j: usize = self.running.len();
        proof {
            assert(teardown_span(o, j as int, o.running@.len() as int) =~= Seq::<Seq<char>>::empty());
            assert(hook_views(hooks@) =~= Seq::<Seq<char>>::empty());
        }
        while j > 0
            invariant
                o == *old(self),
                o.wf(),
                j <= o.running@.len(),
                self.wf(),
                same_shape(o, *self),
                self.running@ == o.running@,
                forall|m: Seq<char>|
                    #[trigger] o.has(m) ==> if name_in(hooks@, m) {
                        o.st(m) == State::Started && self.st(m) == State::Stopped
                    } else {
                        self.st(m) == o.st(m)
                    },
                forall|w: int|
                    0 <= w < hooks@.len() ==> exists|k: int|
                        #![auto]
                        j <= k < o.running@.len() && o.running@[k]@ == (#[trigger] hooks@[w])@,
                forall|k: int|
                    j <= k < o.running@.len() && o.st((#[trigger] o.running@[k])@)
                        == State::Started ==> name_in(hooks@, o.running@[k]@),
                forall|jj: int, kk: int| 0 <= jj < kk < hooks@.len() ==> hooks@[jj]@ != hooks@[kk]@,
                forall|k: int| 0 <= k < hooks@.len() ==> o.has((#[trigger] hooks@[k])@),
                hook_views(hooks@) =~= teardown_span(o, j as int, o.running@.len() as int),
            decreases j,
        {
            j = j - 1;
            let nm = self.running[j].clone();
            let ghost pre = *self;
            proof {
                lemma_same_shape_model(o, pre);
                assert(pre.has(nm@)) by {
                    assert(o.has((o.running@[j as int])@));
                }
                // this log entry has not been visited yet
                assert(!name_in(hooks@, nm@)) by {
                    if name_in(hooks@, nm@) {
                        let w = choose|w: int|
                            0 <= w < hooks@.len() && (#[trigger] hooks@[w])@ == nm@;
                        let k = choose|k: int|
                            #![auto]
                            j + 1 <= k < o.running@.len() && o.running@[k]@ == hooks@[w]@;
                        assert(o.running@[j as int]@ != o.running@[k]@);
                    }
                }
                assert(pre.st(nm@) == o.st(nm@));
            }
            let ran = self.shutdown_plugin(&nm);
            let ghost hooks_pre = hooks@;
            if ran {
                hooks.push(nm);
            }
            proof {
                lemma_span_step(o, j as int, o.running@.len() as int);
                if ran {
                    assert(hook_views(hooks@) =~= hook_views(hooks_pre).push(
                        o.running@[j as int]@,
                    ));
                    assert(hook_views(hooks@) =~= teardown_span(
                        o,
                        j as int,
                        o.running@.len() as int,
                    ));
                    assert forall|m: Seq<char>| #[trigger] o.has(m) implies (if name_in(
                        hooks@,
                        m,
                    ) {
                        o.st(m) == State::Started && self.st(m) == State::Stopped
                    } else {
                        self.st(m) == o.st(m)
                    }) by {
                        assert(name_in(hooks@, m) <==> name_in(hooks_pre, m) || m
                            == o.running@[j as int]@) by {
                            if name_in(hooks@, m) {
                                let w = choose|w: int|
                                    0 <= w < hooks@.len() && (#[trigger] hooks@[w])@ == m;
                                if w < hooks_pre.len() {
                                    assert(hooks_pre[w]@ == m);
                                }
                            }
                            if name_in(hooks_pre, m) {
                                let w = choose|w: int|
                                    0 <= w < hooks_pre.len() && (#[trigger] hooks_pre[w])@ == m;
                                assert(hooks@[w]@ == m);
                            }
                            if m == o.running@[j as int]@ {
                                assert(hooks@[hooks@.len() - 1]@ == m);
                            }
                        }
                    }
                    assert forall|w: int| 0 <= w < hooks@.len() implies exists|k: int|
                        #![auto]
                        j <= k < o.running@.len() && o.running@[k]@ == (#[trigger] hooks@[w])@ by {
                        if w < hooks_pre.len() {
                            assert(hooks@[w] == hooks_pre[w]);
                            let k = choose|k: int|
                                #![auto]
                                j + 1 <= k < o.running@.len() && o.running@[k]@ == hooks_pre[w]@;
                            assert(o.running@[k]@ == hooks@[w]@);
                        } else {
                            assert(o.running@[j as int]@ == hooks@[w]@);
                        }
                    }
                    assert forall|k: int|
                        j <= k < o.running@.len() && o.st((#[trigger] o.running@[k])@)
                            == State::Started implies name_in(hooks@, o.running@[k]@) by {
                        if k > j {
                            assert(name_in(hooks_pre, o.running@[k]@));
                            let w = choose|w: int|
                                0 <= w < hooks_pre.len() && (#[trigger] hooks_pre[w])@
                                    == o.running@[k]@;
                            assert(hooks@[w]@ == o.running@[k]@);
                        } else {
                            assert(hooks@[hooks@.len() - 1]@ == o.running@[j as int]@);
                        }
                    }
                } else {
                    assert(o.st(o.running@[j as int]@) != State::Started);
                    assert(hook_views(hooks@) =~= teardown_span(
                        o,
                        j as int,
                        o.running@.len() as int,
                    ));
                    assert forall|k: int|
                        j <= k < o.running@.len() && o.st((#[trigger] o.running@[k])@)
                            == State::Started implies name_in(hooks@, o.running@[k]@) by {
                        assert(k > j);
                    }
                }
            }
        }
        proof {
            // completeness over the whole registry: every started plugin
            // appears in the start log, hence in the plan
            assert forall|m: Seq<char>| #[trigger] o.has(m) implies (if o.st(m) == State::Started {
                self.st(m) == State::Stopped && name_in(hooks@, m)
            } else {
                self.st(m) == o.st(m) && !name_in(hooks@, m)
            }) by {
                if o.st(m) == State::Started {
                    let i = choose|i: int|
                        0 <= i < o.records@.len() && (#[trigger] o.records@[i]).name@ == m;
                    o.lemma_idx_of(m, i);
                    assert(crate::plugin::rank(o.records@[i].state) >= 2);
                    assert(name_in(o.running@, m));
                    let k = choose|k: int|
                        0 <= k < o.running@.len() && (#[trigger] o.running@[k])@ == m;
                    assert(name_in(hooks@, o.running@[k]@));
                } else {
                    if name_in(hooks@, m) {
                        assert(o.st(m) == State::Started);
                    }
                }
            }
            if forall|k: int|
                0 <= k < o.running@.len() ==> o.st((#[trigger] o.running@[k])@)
                    == State::Started {
                lemma_span_all_started(o, 0, o.running@.len() as int);
                assert(run_views(o.running@).subrange(0, o.running@.len() as int) =~= run_views(
                    o.running@,
                ));
            }
        }
        hooks
    }

}

/// The lifecycle state a phase walk moves plugins out of: `initialize`
/// visits plugins still `Registered`, `startup` visits the `Initialized`.
pub open spec fn from_state(starting: bool) -> State {
    if starting {
        State::Initialized
    } else {
        State::Registered
    }
}

/// The lifecycle state a phase walk moves plugins into.
pub open spec fn to_state(starting: bool) -> State {
    if starting {
        State::Started
    } else {
        State::Initialized
    }
}

/// The identities in a hook plan.
pub open spec fn hook_views(s: Seq<String>) -> Seq<Seq<char>> {
    s.map_values(|x: String| x@)
}

/// Plugin `a` names `b` among its declared dependencies.
pub open spec fn dep_edge(reg: Registry, a: Seq<char>, b: Seq<char>) -> bool {
    &&& reg.has(a)
    &&& exists|k: int| 0 <= k < reg.deps_of(a).len() && (#[trigger] reg.deps_of(a)[k])@ == b
}

/// Consecutive entries of `p` are dependency edges.
pub open spec fn dep_path(reg: Registry, p: Seq<Seq<char>>) -> bool {
    forall|i: int| 0 <= i < p.len() - 1 ==> dep_edge(reg, #[trigger] p[i], p[i + 1])
}

/// `b` is a transitive dependency of `a`: some chain of one or more
/// declared-dependency edges leads from `a` to `b`.
pub open spec fn reaches(reg: Registry, a: Seq<char>, b: Seq<char>) -> bool {
    exists|p: Seq<Seq<char>>|
        #![auto]
        p.len() >= 2 && p[0] == a && p.last() == b && dep_path(reg, p)
}

/// A declared dependency is a transitive dependency.
proof fn lemma_edge_reaches(reg: Registry, a: Seq<char>, b: Seq<char>)
    requires
        dep_edge(reg, a, b),
    ensures
        reaches(reg, a, b),
{
    let p = seq![a, b];
    assert(dep_path(reg, p)) by {
        assert forall|i: int| 0 <= i < p.len() - 1 implies dep_edge(reg, #[trigger] p[i], p[i + 1]) by {
            assert(i == 0);
            assert(p[0] == a && p[1] == b);
        }
    }
    assert(p.len() >= 2 && p[0] == a && p.last() == b);
}

/// Transitive dependency is transitive.
proof fn lemma_reaches_trans(reg: Registry, a: Seq<char>, b: Seq<char>, c: Seq<char>)
    requires
        reaches(reg, a, b),
        reaches(reg, b, c),
    ensures
        reaches(reg, a, c),
{
    let p1 = choose|p: Seq<Seq<char>>|
        #![auto]
        p.len() >= 2 && p[0] == a && p.last() == b && dep_path(reg, p);
    let p2 = choose|p: Seq<Seq<char>>|
        #![auto]
        p.len() >= 2 && p[0] == b && p.last() == c && dep_path(reg, p);
    let p = p1 + p2.drop_first();
    assert(p.len() >= 2);
    assert(p[0] == a);
    assert(p.last() == p2.drop_first().last());
    assert(p2.drop_first().last() == p2.last());
    assert(dep_path(reg, p)) by {
        assert forall|i: int| 0 <= i < p.len() - 1 implies dep_edge(reg, #[trigger] p[i], p[i + 1]) by {
            if i < p1.len() - 1 {
                assert(p[i] == p1[i] && p[i + 1] == p1[i + 1]);
                assert(dep_edge(reg, p1[i], p1[i + 1]));
            } else if i == p1.len() - 1 {
                assert(p[i] == p1[i] && p1[i] == b);
                assert(p[i + 1] == p2.drop_first()[0]);
                assert(p2.drop_first()[0] == p2[1]);
                assert(dep_edge(reg, p2[0], p2[1]));
            } else {
                let j = i - p1.len();
                assert(p[i] == p2.drop_first()[j]);
                assert(p[i + 1] == p2.drop_first()[j + 1]);
                assert(p2.drop_first()[j] == p2[j + 1]);
                assert(p2.drop_first()[j + 1] == p2[j + 2]);
                assert(dep_edge(reg, p2[j + 1], p2[j + 2]));
            }
        }
    }
}

/// Two registries with the same records apart from the lifecycle states.
pub open spec fn same_shape(o: Registry, n: Registry) -> bool {
    &&& n.records@.len() == o.records@.len()
    &&& forall|i: int|
        0 <= i < o.records@.len() ==> (#[trigger] n.records@[i]).name == o.records@[i].name
            && n.records@[i].deps == o.records@[i].deps
}

/// Same-shaped registries agree on membership, indices and dependencies.
pub proof fn lemma_same_shape_model(o: Registry, n: Registry)
    requires
        same_shape(o, n),
        o.names_distinct(),
    ensures
        n.names_distinct(),
        forall|m: Seq<char>|
            #[trigger] o.has(m) ==> n.has(m) && n.idx_of(m) == o.idx_of(m) && n.deps_of(m)
                == o.deps_of(m),
        forall|m: Seq<char>| #[trigger] n.has(m) ==> o.has(m),
{
    assert forall|i: int, j: int| 0 <= i < j < n.records@.len() implies n.records@[i].name@
        != n.records@[j].name@ by {
        assert(n.records@[i].name == o.records@[i].name);
        assert(n.records@[j].name == o.records@[j].name);
    }
    assert forall|m: Seq<char>| #[trigger] o.has(m) implies n.has(m) && n.idx_of(m) == o.idx_of(m)
        && n.deps_of(m) == o.deps_of(m) by {
        let i = choose|i: int|
            0 <= i < o.records@.len() && (#[trigger] o.records@[i]).name@ == m;
        assert(n.records@[i].name == o.records@[i].name);
        o.lemma_idx_of(m, i);
        n.lemma_idx_of(m, i);
    }
    assert forall|m: Seq<char>| #[trigger] n.has(m) implies o.has(m) by {
        let i = choose|i: int|
            0 <= i < n.records@.len() && (#[trigger] n.records@[i]).name@ == m;
        assert(o.records@[i].name == n.records@[i].name);
        assert(o.records@[i].name@ == m);
    }
}

/// Same-shaped registries agree on transitive dependency.
pub proof fn lemma_same_shape_reaches(o: Registry, n: Registry)
    requires
        same_shape(o, n),
        o.names_distinct(),
    ensures
        forall|a: Seq<char>, b: Seq<char>| #[trigger] reaches(o, a, b) ==> reaches(n, a, b),
        forall|a: Seq<char>, b: Seq<char>| #[trigger] reaches(n, a, b) ==> reaches(o, a, b),
{
    lemma_same_shape_model(o, n);
    assert forall|a: Seq<char>, b: Seq<char>| #[trigger] dep_edge(o, a, b) implies dep_edge(
        n,
        a,
        b,
    ) by {
        assert(n.deps_of(a) == o.deps_of(a));
    }
    assert forall|a: Seq<char>, b: Seq<char>| #[trigger] dep_edge(n, a, b) implies dep_edge(
        o,
        a,
        b,
    ) by {
        assert(o.has(a));
        assert(n.deps_of(a) == o.deps_of(a));
    }
    assert forall|a: Seq<char>, b: Seq<char>| #[trigger] reaches(o, a, b) implies reaches(
        n,
        a,
        b,
    ) by {
        let p = choose|p: Seq<Seq<char>>|
            #![auto]
            p.len() >= 2 && p[0] == a && p.last() == b && dep_path(o, p);
        assert(dep_path(n, p)) by {
            assert forall|i: int| 0 <= i < p.len() - 1 implies dep_edge(
                n,
                #[trigger] p[i],
                p[i + 1],
            ) by {
                assert(dep_edge(o, p[i], p[i + 1]));
            }
        }
    }
    assert forall|a: Seq<char>, b: Seq<char>| #[trigger] reaches(n, a, b) implies reaches(
        o,
        a,
        b,
    ) by {
        let p = choose|p: Seq<Seq<char>>|
            #![auto]
            p.len() >= 2 && p[0] == a && p.last() == b && dep_path(n, p);
        assert(dep_path(o, p)) by {
            assert forall|i: int| 0 <= i < p.len() - 1 implies dep_edge(
                o,
                #[trigger] p[i],
                p[i + 1],
            ) by {
                assert(dep_edge(n, p[i], p[i + 1]));
            }
        }
    }
}

/// Updating one record changes the per-state count by that record alone.
proof fn lemma_count_update(s: Seq<Record>, i: int, r: Record, st: State)
    requires
        0 <= i < s.len(),
    ensures
        count_in_state(s.update(i, r), st) + (if s[i].state == st {
            1nat
        } else {
            0nat
        }) == count_in_state(s, st) + (if r.state == st {
            1nat
        } else {
            0nat
        }),
    decreases s.len(),
{
    let s2 = s.update(i, r);
    if i == s.len() - 1 {
        assert(s2.drop_last() =~= s.drop_last());
        assert(s2.last() == r);
    } else {
        assert(s2.drop_last() =~= s.drop_last().update(i, r));
        assert(s2.last() == s.last());
        lemma_count_update(s.drop_last(), i, r, st);
    }
}

/// A registry whose records differ in one record's state keeps its model:
/// distinct names, unchanged lookups, and every other plugin's state.
proof fn lemma_flip(o: Registry, n: Registry, idx: int, to: State)
    requires
        o.names_distinct(),
        0 <= idx < o.records@.len(),
        n.records@.len() == o.records@.len(),
        forall|i: int| 0 <= i < o.records@.len() && i != idx ==> n.records@[i] == o.records@[i],
        n.records@[idx].name == o.records@[idx].name,
        n.records@[idx].deps == o.records@[idx].deps,
        n.records@[idx].state == to,
    ensures
        same_shape(o, n),
        n.names_distinct(),
        forall|m: Seq<char>|
            #[trigger] o.has(m) ==> n.has(m) && n.idx_of(m) == o.idx_of(m) && n.deps_of(m)
                == o.deps_of(m),
        forall|m: Seq<char>| #[trigger] n.has(m) ==> o.has(m),
        forall|m: Seq<char>|
            #[trigger] o.has(m) && m != o.records@[idx].name@ ==> n.st(m) == o.st(m),
        n.st(o.records@[idx].name@) == to,
{
    assert(same_shape(o, n));
    lemma_same_shape_model(o, n);
    assert forall|m: Seq<char>| #[trigger] o.has(m) && m != o.records@[idx].name@ implies n.st(m)
        == o.st(m) by {
        let i = choose|i: int|
            0 <= i < o.records@.len() && (#[trigger] o.records@[i]).name@ == m;
        o.lemma_idx_of(m, i);
        n.lemma_idx_of(m, i);
        assert(i != idx);
    }
    o.lemma_idx_of(o.records@[idx].name@, idx);
    n.lemma_idx_of(o.records@[idx].name@, idx);
}

/// The dependency-ordering guarantee at position `k` of a hook plan: each
/// declared dependency of the plugin whose hook runs there has either
/// already run its own hook (earlier in this plan, or in an earlier walk),
/// or was handed down by a caller whose walk is still on the stack, or
/// closes a dependency cycle back into this plan's subtree.
pub open spec fn hook_deps_ok(
    o: Registry,
    from: State,
    pending: Set<Seq<char>>,
    hooks: Seq<String>,
    k: int,
) -> bool {
    forall|kd: int|
        0 <= kd < o.deps_of(hooks[k]@).len() ==> {
            let d = (#[trigger] o.deps_of(hooks[k]@)[kd])@;
            ||| exists|j: int| 0 <= j < k && (#[trigger] hooks[j])@ == d
            ||| o.st(d) != from
            ||| pending.contains(d)
            ||| reaches(o, d, hooks[k]@)
        }
}

/// What one phase walk guarantees. `o` is the registry before the walk and
/// `n` the registry after it; `name` is the walk's target; `starting`
/// selects the phase (`initialize` when false, `startup` when true);
/// `pending` holds the identities whose walks are still on the caller's
/// stack; `hooks` lists the plugins whose own hook must now run, in order.
pub open spec fn advance_post(
    o: Registry,
    n: Registry,
    name: Seq<char>,
    starting: bool,
    pending: Set<Seq<char>>,
    hooks: Seq<String>,
) -> bool {
    let from = from_state(starting);
    let to = to_state(starting);
    // records keep their identities and dependency lists
    &&& same_shape(o, n)
    // a plugin moves from the phase's predecessor state to its target state
    // exactly when its hook is scheduled; every other plugin is untouched
    &&& forall|m: Seq<char>|
        #[trigger] o.has(m) ==> if name_in(hooks, m) {
            o.st(m) == from && n.st(m) == to
        } else {
            n.st(m) == o.st(m)
        }
    // each scheduled hook belongs to a registered plugin, and runs once
    &&& forall|k: int| 0 <= k < hooks.len() ==> o.has((#[trigger] hooks[k])@)
    &&& forall|j: int, k: int| 0 <= j < k < hooks.len() ==> hooks[j]@ != hooks[k]@
    // the target's own hook runs last when the phase was due, and a walk on
    // a plugin already past the phase does nothing at all
    &&& (o.st(name) == from ==> hooks.len() >= 1 && hooks.last()@ == name)
    &&& (o.st(name) != from ==> hooks.len() == 0 && n.records@ == o.records@ && n.running@
        == o.running@)
    // only the target and its transitive dependencies are scheduled
    &&& forall|k: int|
        0 <= k < hooks.len() ==> (#[trigger] hooks[k])@ == name || reaches(o, name, hooks[k]@)
    // dependency ordering for every scheduled hook
    &&& forall|k: int| 0 <= k < hooks.len() ==> #[trigger] hook_deps_ok(o, from, pending, hooks, k)
    // the start log: untouched by initialization; startup appends the
    // target first, then exactly the dependencies it started
    &&& (!starting ==> n.running@ == o.running@)
    &&& (starting ==> {
        &&& n.running@.len() == o.running@.len() + hooks.len()
        &&& (forall|j: int| 0 <= j < o.running@.len() ==> n.running@[j] == o.running@[j])
        &&& (o.st(name) == from ==> n.running@[o.running@.len() as int]@ == name)
        &&& (forall|j: int|
            o.running@.len() <= j < n.running@.len() ==> name_in(
                hooks,
                (#[trigger] n.running@[j])@,
            ))
    })
    // the walk never grows the set of plugins still before the phase, and
    // strictly shrinks it whenever it does anything
    &&& count_in_state(n.records@, from) <= count_in_state(o.records@, from)
    &&& (o.st(name) == from ==> count_in_state(n.records@, from) < count_in_state(
        o.records@,
        from,
    ))
}

/// Extending a registry's records with low-ranked records, leaving the
/// start log alone, preserves every lookup and the start log's coherence.
proof fn lemma_extend_preserves(o: Registry, n: Registry)
    requires
        o.names_distinct(),
        n.names_distinct(),
        o.records@.len() <= n.records@.len(),
        forall|i: int| 0 <= i < o.records@.len() ==> n.records@[i] == o.records@[i],
        forall|i: int|
            o.records@.len() <= i < n.records@.len() ==> crate::plugin::rank(
                (#[trigger] n.records@[i]).state,
            ) < 2,
        n.running@ == o.running@,
    ensures
        forall|m: Seq<char>|
            #[trigger] o.has(m) ==> n.has(m) && n.st(m) == o.st(m) && n.deps_of(m) == o.deps_of(
                m,
            ),
        o.running_ok() ==> n.running_ok(),
{
    assert forall|m: Seq<char>| #[trigger] o.has(m) implies n.has(m) && n.st(m) == o.st(m)
        && n.deps_of(m) == o.deps_of(m) by {
        let i = choose|i: int|
            0 <= i < o.records@.len() && (#[trigger] o.records@[i]).name@ == m;
        o.lemma_idx_of(m, i);
        n.lemma_idx_of(m, i);
    }
    if o.running_ok() {
        assert forall|i: int|
            0 <= i < n.records@.len() && crate::plugin::rank(
                (#[trigger] n.records@[i]).state,
            ) >= 2 implies name_in(n.running@, n.records@[i].name@) by {
            if i < o.records@.len() {
                assert(crate::plugin::rank(o.records@[i].state) >= 2);
            }
        }
    }
}

/// Copies a list of identities.
fn clone_names(v: &Vec<String>) -> (r: Vec<String>)
    ensures
        r@ == v@,
{
    let mut r: Vec<String> = Vec::new();
    let n = v.len();
    let mut i: usize = 0;
    while i < n
        invariant
            n == v@.len(),
            i <= n,
            r@ == v@.subrange(0, i as int),
        decreases n - i,
    {
        r.push(v[i].clone());
        proof {
            assert(r@ =~= v@.subrange(0, i + 1));
        }
        i = i + 1;
    }
    proof {
        assert(r@ =~= v@);
    }
    r
}

/// Growing the registered set never grows the count of unregistered
/// catalog entries.
proof fn lemma_unregistered_monotone(reg1: Registry, reg2: Registry, catalog: Seq<PluginDecl>)
    requires
        forall|m: Seq<char>| #[trigger] reg1.has(m) ==> reg2.has(m),
    ensures
        unregistered_count(reg2, catalog) <= unregistered_count(reg1, catalog),
    decreases catalog.len(),
{
    if catalog.len() > 0 {
        lemma_unregistered_monotone(reg1, reg2, catalog.drop_last());
    }
}

/// Registering a plugin that the catalog names strictly shrinks the count
/// of unregistered catalog entries.
proof fn lemma_unregistered_strict(
    reg1: Registry,
    reg2: Registry,
    catalog: Seq<PluginDecl>,
    name: Seq<char>,
)
    requires
        forall|m: Seq<char>| #[trigger] reg1.has(m) ==> reg2.has(m),
        !reg1.has(name),
        reg2.has(name),
        catalog_has(catalog, name),
    ensures
        unregistered_count(reg2, catalog) < unregistered_count(reg1, catalog),
    decreases catalog.len(),
{
    if catalog.last().name@ == name {
        lemma_unregistered_monotone(reg1, reg2, catalog.drop_last());
    } else {
        assert(catalog_has(catalog.drop_last(), name)) by {
            let i = choose|i: int|
                0 <= i < catalog.len() && (#[trigger] catalog[i]).name@ == name;
            assert(catalog.drop_last()[i] == catalog[i]);
        }
        lemma_unregistered_strict(reg1, reg2, catalog.drop_last(), name);
    }
}

} // verus!
