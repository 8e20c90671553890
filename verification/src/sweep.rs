//! The startup sweep: one pass that starts every initialized plugin.

use vstd::prelude::*;

use crate::plugin::State;
use crate::registry::Registry;
use crate::registry::advance_post;
use crate::registry::dep_at;
use crate::registry::hook_deps_ok;
use crate::registry::lemma_same_shape_model;
use crate::registry::lemma_same_shape_reaches;
use crate::registry::name_in;
use crate::registry::reaches;
use crate::registry::same_shape;

verus! {

/// Composes one startup walk onto an accumulated startup plan: `o` is the
/// registry before the whole sweep, `pre` before this walk, `post` after
/// it, `hooks_pre` the plan so far, `sub_seq` the walk's own plan, and
/// `hooks` their concatenation. All sweep bookkeeping carries over.
#[verifier::rlimit(100)]
#[verifier::spinoff_prover]
proof fn lemma_startup_compose(
    o: Registry,
    pre: Registry,
    post: Registry,
    nm: Seq<char>,
    hooks_pre: Seq<String>,
    sub_seq: Seq<String>,
    hooks: Seq<String>,
)
    requires
        o.wf(),
        pre.wf(),
        same_shape(o, pre),
        o.has(nm),
        advance_post(pre, post, nm, true, Set::empty(), sub_seq),
        hooks == hooks_pre + sub_seq,
        forall|m: Seq<char>|
            #[trigger] o.has(m) ==> if name_in(hooks_pre, m) {
                o.st(m) == State::Initialized && pre.st(m) == State::Started
            } else {
                pre.st(m) == o.st(m)
            },
        forall|j: int, k: int| 0 <= j < k < hooks_pre.len() ==> hooks_pre[j]@ != hooks_pre[k]@,
        forall|k: int| 0 <= k < hooks_pre.len() ==> o.has((#[trigger] hooks_pre[k])@),
        forall|k: int|
            0 <= k < hooks_pre.len() ==> #[trigger] hook_deps_ok(
                o,
                State::Initialized,
                Set::empty(),
                hooks_pre,
                k,
            ),
        pre.running@.len() == o.running@.len() + hooks_pre.len(),
        forall|j: int| 0 <= j < o.running@.len() ==> pre.running@[j] == o.running@[j],
        forall|j: int|
            o.running@.len() <= j < pre.running@.len() ==> name_in(
                hooks_pre,
                (#[trigger] pre.running@[j])@,
            ),
    ensures
        same_shape(o, post),
        forall|m: Seq<char>|
            #[trigger] o.has(m) ==> if name_in(hooks, m) {
                o.st(m) == State::Initialized && post.st(m) == State::Started
            } else {
                post.st(m) == o.st(m)
            },
        forall|j: int, k: int| 0 <= j < k < hooks.len() ==> hooks[j]@ != hooks[k]@,
        forall|k: int| 0 <= k < hooks.len() ==> o.has((#[trigger] hooks[k])@),
        forall|m: Seq<char>| name_in(hooks_pre, m) ==> name_in(hooks, m),
        o.st(nm) == State::Initialized ==> name_in(hooks, nm),
        post.running@.len() == o.running@.len() + hooks.len(),
        forall|j: int| 0 <= j < o.running@.len() ==> post.running@[j] == o.running@[j],
        forall|j: int|
            o.running@.len() <= j < post.running@.len() ==> name_in(
                hooks,
                (#[trigger] post.running@[j])@,
            ),
        forall|k: int|
            0 <= k < hooks.len() ==> #[trigger] hook_deps_ok(
                o,
                State::Initialized,
                Set::empty(),
                hooks,
                k,
            ),
{
    lemma_same_shape_model(o, pre);
    lemma_same_shape_reaches(o, pre);
    assert(pre.has(nm));
    assert(same_shape(o, post));
    lemma_same_shape_model(o, post);
    lemma_same_shape_reaches(pre, post);
    assert(hooks == hooks_pre + sub_seq);
    assert forall|m: Seq<char>|
        name_in(hooks_pre, m) || name_in(sub_seq, m) implies name_in(hooks, m) by {
        if name_in(hooks_pre, m) {
            let w = choose|w: int|
                0 <= w < hooks_pre.len() && (#[trigger] hooks_pre[w])@ == m;
            assert(hooks[w]@ == m);
        } else {
            let w = choose|w: int|
                0 <= w < sub_seq.len() && (#[trigger] sub_seq[w])@ == m;
            assert(hooks[hooks_pre.len() + w]@ == m);
        }
    }
    assert forall|m: Seq<char>| name_in(hooks, m) implies name_in(hooks_pre, m)
        || name_in(sub_seq, m) by {
        let w = choose|w: int|
            0 <= w < hooks.len() && (#[trigger] hooks[w])@ == m;
        if w < hooks_pre.len() {
            assert(hooks_pre[w]@ == m);
        } else {
            assert(sub_seq[w - hooks_pre.len()]@ == m);
        }
    }
    // state bookkeeping across the two segments
    assert forall|m: Seq<char>| #[trigger] o.has(m) implies (if name_in(hooks, m) {
        o.st(m) == State::Initialized && post.st(m) == State::Started
    } else {
        post.st(m) == o.st(m)
    }) by {
        assert(pre.has(m));
        if name_in(sub_seq, m) {
            assert(pre.st(m) == State::Initialized && post.st(m) == State::Started);
            assert(!name_in(hooks_pre, m)) by {
                if name_in(hooks_pre, m) {
                    assert(pre.st(m) == State::Started);
                }
            }
            assert(o.st(m) == State::Initialized);
        } else {
            assert(post.st(m) == pre.st(m));
        }
    }
    // distinctness across segments
    assert forall|j: int, k: int| 0 <= j < k < hooks.len() implies hooks[j]@
        != hooks[k]@ by {
        if j < hooks_pre.len() && k >= hooks_pre.len() {
            let m = hooks_pre[j]@;
            if sub_seq[k - hooks_pre.len()]@ == m {
                assert(name_in(hooks_pre, m));
                assert(o.st(m) == State::Initialized && pre.st(m) == State::Started);
                assert(pre.st(m) == State::Initialized);
            }
        }
    }
    assert forall|k: int| 0 <= k < hooks.len() implies o.has(
        (#[trigger] hooks[k])@,
    ) by {
        if k >= hooks_pre.len() {
            assert(pre.has(sub_seq[k - hooks_pre.len()]@));
        }
    }
    // the start log
    assert forall|j: int|
        o.running@.len() <= j < post.running@.len() implies name_in(
        hooks,
        (#[trigger] post.running@[j])@,
    ) by {
        if j < pre.running@.len() {
            assert(post.running@[j] == pre.running@[j]);
            assert(name_in(hooks_pre, pre.running@[j]@));
        } else {
            assert(name_in(sub_seq, post.running@[j]@));
        }
    }
    // dependency ordering for the combined plan
    assert forall|k: int| 0 <= k < hooks.len() implies #[trigger] hook_deps_ok(
        o,
        State::Initialized,
        Set::empty(),
        hooks,
        k,
    ) by {
        if k < hooks_pre.len() {
            assert(hook_deps_ok(o, State::Initialized, Set::empty(), hooks_pre, k));
            assert forall|kd: int|
                0 <= kd < o.deps_of(hooks[k]@).len() implies {
                let d = (#[trigger] o.deps_of(hooks[k]@)[kd])@;
                ||| exists|j: int| 0 <= j < k && (#[trigger] hooks[j])@ == d
                ||| o.st(d) != State::Initialized
                ||| Set::<Seq<char>>::empty().contains(d)
                ||| reaches(o, d, hooks[k]@)
            } by {
                assert(hooks[k] == hooks_pre[k]);
                let d = o.deps_of(hooks_pre[k]@)[kd]@;
                if exists|j: int| 0 <= j < k && (#[trigger] hooks_pre[j])@ == d {
                    let j = choose|j: int|
                        0 <= j < k && (#[trigger] hooks_pre[j])@ == d;
                    assert(hooks[j]@ == d);
                }
            }
        } else {
            let ks = k - hooks_pre.len();
            assert(hook_deps_ok(pre, State::Initialized, Set::empty(), sub_seq, ks));
            assert(hooks[k] == sub_seq[ks]);
            assert forall|kd: int|
                0 <= kd < o.deps_of(hooks[k]@).len() implies {
                let d = (#[trigger] o.deps_of(hooks[k]@)[kd])@;
                ||| exists|j: int| 0 <= j < k && (#[trigger] hooks[j])@ == d
                ||| o.st(d) != State::Initialized
                ||| Set::<Seq<char>>::empty().contains(d)
                ||| reaches(o, d, hooks[k]@)
            } by {
                let d = o.deps_of(hooks[k]@)[kd]@;
                assert(pre.deps_of(sub_seq[ks]@) == o.deps_of(sub_seq[ks]@));
                assert(pre.deps_of(sub_seq[ks]@)[kd]@ == d);
                assert({
                    ||| exists|j: int| 0 <= j < ks && (#[trigger] sub_seq[j])@ == d
                    ||| pre.st(d) != State::Initialized
                    ||| Set::<Seq<char>>::empty().contains(d)
                    ||| reaches(pre, d, sub_seq[ks]@)
                });
                if exists|j: int| 0 <= j < ks && (#[trigger] sub_seq[j])@ == d {
                    let j = choose|j: int|
                        0 <= j < ks && (#[trigger] sub_seq[j])@ == d;
                    assert(hooks[hooks_pre.len() + j]@ == d);
                } else if pre.st(d) != State::Initialized {
                    // if it was initialized at the outset it was
                    // started by an earlier plan segment
                    assert(o.has(sub_seq[ks]@));
                    let ri = o.idx_of(sub_seq[ks]@);
                    assert(o.has(dep_at(o.records@[ri], kd)));
                    assert(dep_at(o.records@[ri], kd) == d);
                    if o.st(d) == State::Initialized {
                        assert(name_in(hooks_pre, d));
                        let j = choose|j: int|
                            0 <= j < hooks_pre.len() && (#[trigger] hooks_pre[j])@
                                == d;
                        assert(hooks[j]@ == d);
                    }
                } else if reaches(pre, d, sub_seq[ks]@) {
                    assert(reaches(o, d, sub_seq[ks]@));
                }
            }
        }
    }
    // the walk's target ran now or had run before
    if o.st(nm) == State::Initialized {
        if pre.st(nm) == State::Initialized {
            assert(sub_seq.len() >= 1 && sub_seq.last()@ == nm);
            assert(name_in(sub_seq, nm));
        } else {
            assert(name_in(hooks_pre, nm));
        }
    }
}

impl Registry {
    /// Starts every initialized plugin, walking the records in
    /// registration order; each walk logs and starts the plugin before its
    /// dependencies' own walks, so the start log interleaves accordingly.
    /// Afterwards every plugin that was `Initialized` is `Started`, its
    /// hook in the returned plan exactly once, after the hooks of those of
    /// its declared dependencies that this call started (up to dependency
    /// cycles); every other plugin is untouched.
    #[verifier::rlimit(100)]
    #[verifier::spinoff_prover]
    pub fn startup_all(&mut self) -> (hooks: Vec<String>)
        requires
            old(self).wf(),
        ensures
            final(self).wf(),
            same_shape(*old(self), *final(self)),
            forall|m: Seq<char>|
                #[trigger] old(self).has(m) ==> if old(self).st(m) == State::Initialized {
                    final(self).st(m) == State::Started && name_in(hooks@, m)
                } else {
                    final(self).st(m) == old(self).st(m) && !name_in(hooks@, m)
                },
            forall|j: int, k: int| 0 <= j < k < hooks@.len() ==> hooks@[j]@ != hooks@[k]@,
            forall|k: int| 0 <= k < hooks@.len() ==> old(self).has((#[trigger] hooks@[k])@),
            final(self).running@.len() == old(self).running@.len() + hooks@.len(),
            forall|j: int|
                0 <= j < old(self).running@.len() ==> final(self).running@[j] == old(
                    self,
                ).running@[j],
            forall|j: int|
                old(self).running@.len() <= j < final(self).running@.len() ==> name_in(
                    hooks@,
                    (#[trigger] final(self).running@[j])@,
                ),
            forall|k: int|
                0 <= k < hooks@.len() ==> #[trigger] hook_deps_ok(
                    *old(self),
                    State::Initialized,
                    Set::empty(),
                    hooks@,
                    k,
                ),
    {
        let ghost o = *old(self);
        let mut hooks: Vec<String> = Vec::new();
        let n = self.records.len();
        let mut i: usize = 0;
        while i < n
            invariant
                o == *old(self),
                o.wf(),
                i <= n,
                n == o.records@.len(),
                self.wf(),
                same_shape(o, *self),
                forall|m: Seq<char>|
                    #[trigger] o.has(m) ==> if name_in(hooks@, m) {
                        o.st(m) == State::Initialized && self.st(m) == State::Started
                    } else {
                        self.st(m) == o.st(m)
                    },
                forall|j: int, k: int| 0 <= j < k < hooks@.len() ==> hooks@[j]@ != hooks@[k]@,
                forall|k: int| 0 <= k < hooks@.len() ==> o.has((#[trigger] hooks@[k])@),
                forall|ii: int|
                    0 <= ii < i && (#[trigger] o.records@[ii]).state == State::Initialized
                        ==> name_in(hooks@, o.records@[ii].name@),
                self.running@.len() == o.running@.len() + hooks@.len(),
                forall|j: int|
                    0 <= j < o.running@.len() ==> self.running@[j] == o.running@[j],
                forall|j: int|
                    o.running@.len() <= j < self.running@.len() ==> name_in(
                        hooks@,
                        (#[trigger] self.running@[j])@,
                    ),
                forall|k: int|
                    0 <= k < hooks@.len() ==> #[trigger] hook_deps_ok(
                        o,
                        State::Initialized,
                        Set::empty(),
                        hooks@,
                        k,
                    ),
            decreases n - i,
        {
            let nm = self.records[i].name.clone();
            let ghost pre = *self;
            proof {
                assert(pre.records@[i as int].name == o.records@[i as int].name);
                assert(o.has(nm@)) by {
                    assert(o.records@[i as int].name@ == nm@);
                }
                lemma_same_shape_model(o, pre);
                assert(pre.has(nm@));
            }
            let mut sub = self.startup_plugin(&nm);
            let ghost hooks_pre = hooks@;
            let ghost sub_seq = sub@;
            hooks.append(&mut sub);
            i = i + 1;
            proof {
                lemma_startup_compose(o, pre, *self, nm@, hooks_pre, sub_seq, hooks@);
                assert forall|ii: int|
                    0 <= ii < i && (#[trigger] o.records@[ii]).state
                        == State::Initialized implies name_in(hooks@, o.records@[ii].name@) by {
                    if ii < i - 1 {
                        assert(name_in(hooks_pre, o.records@[ii].name@));
                    } else {
                        assert(o.records@[ii].name@ == nm@);
                        o.lemma_idx_of(nm@, ii);
                        assert(o.st(nm@) == o.records@[ii].state);
                    }
                }
            }
        }
        proof {
            assert forall|m: Seq<char>| #[trigger] o.has(m) implies (if o.st(m)
                == State::Initialized {
                self.st(m) == State::Started && name_in(hooks@, m)
            } else {
                self.st(m) == o.st(m) && !name_in(hooks@, m)
            }) by {
                if o.st(m) == State::Initialized {
                    let ii = choose|ii: int|
                        0 <= ii < o.records@.len() && (#[trigger] o.records@[ii]).name@ == m;
                    o.lemma_idx_of(m, ii);
                    assert(o.records@[ii].state == State::Initialized);
                    assert(name_in(hooks@, o.records@[ii].name@));
                } else {
                    if name_in(hooks@, m) {
                        assert(o.st(m) == State::Initialized);
                    }
                }
            }
        }
        hooks
    }
}

} // verus!
