//! The application context: one owned object holding the plugin registry,
//! the channel bus and the shutdown coordinator's state.
//!
//! A driver registers root plugins (dependencies are resolved
//! transitively), initializes and starts them, and runs the hook plans the
//! lifecycle calls return. When the process is told to quit, the driver
//! waits until every issued quit handle has been returned and then runs the
//! teardown plan, which visits the started plugins in the reverse of the
//! order in which they started.

use vstd::prelude::*;

use crate::bus::ChannelBus;
use crate::bus::RecvOutcome;
use crate::bus::Subscription;
use crate::plugin::PluginDecl;
use crate::plugin::State;
use crate::plugin::catalog_has;
use crate::plugin::catalog_wf;
use crate::quit::QuitHandle;
use crate::quit::QuitState;
use crate::registry::Registry;
use crate::registry::advance_post;
use crate::registry::hook_deps_ok;
use crate::registry::hook_views;
use crate::registry::name_in;
use crate::registry::run_views;
use crate::registry::same_shape;
use crate::registry::teardown_span;

verus! {

/// The runtime context. Registry and lifecycle transitions are synchronous
/// calls on this object; anything long-running is scheduled outside it and
/// observes cancellation through a quit handle.
pub struct App {
    pub registry: Registry,
    pub bus: ChannelBus,
    pub quit: QuitState,
}

impl App {
    /// Well-formedness of the whole context.
    pub open spec fn wf(&self) -> bool {
        &&& self.registry.wf()
        &&& self.bus.wf()
    }

    /// A fresh context: nothing registered, no topics, not quitting.
    pub fn new() -> (r: App)
        ensures
            r.wf(),
            r.registry.records@.len() == 0,
            r.registry.running@.len() == 0,
            r.bus.topics@.len() == 0,
            r.bus.default_capacity == 32,
            !r.quit.quitting,
            r.quit.outstanding == 0,
    {
        App { registry: Registry::new(), bus: ChannelBus::new(), quit: QuitState::new() }
    }

    /// Whether a plugin of the given identity has been registered.
    pub fn is_registered(&self, name: &String) -> (r: bool)
        requires
            self.wf(),
        ensures
            r == self.registry.has(name@),
    {
        self.registry.is_registered(name)
    }

    /// Registers a plugin and, transitively, its declared dependencies.
    /// Idempotent: registering an identity twice leaves the context
    /// unchanged the second time and constructs nothing. The returned list
    /// names the newly created records, in creation order, the requested
    /// plugin first; the driver constructs one instance for each.
    pub fn register_plugin(&mut self, catalog: &Vec<PluginDecl>, name: &String) -> (created: Vec<
        String,
    >)
        requires
            old(self).wf(),
            catalog_wf(catalog@),
            catalog_has(catalog@, name@),
        ensures
            final(self).wf(),
            final(self).bus == old(self).bus,
            final(self).quit == old(self).quit,
            final(self).registry.running@ == old(self).registry.running@,
            old(self).registry.records@.len() <= final(self).registry.records@.len(),
            forall|i: int|
                0 <= i < old(self).registry.records@.len() ==> final(self).registry.records@[i]
                    == old(self).registry.records@[i],
            final(self).registry.has(name@),
            created@.len() + old(self).registry.records@.len() == final(self).registry.records@.len(),
            forall|k: int|
                0 <= k < created@.len() ==> (#[trigger] created@[k])@ == final(self).registry.records@[old(self).registry.records@.len() + k].name@,
            forall|i: int|
                old(self).registry.records@.len() <= i < final(self).registry.records@.len()
                    ==> (#[trigger] final(self).registry.records@[i]).state == State::Registered
                    && !old(self).registry.has(final(self).registry.records@[i].name@)
                    && crate::plugin::catalog_declares(
                    catalog@,
                    final(self).registry.records@[i].name@,
                    final(self).registry.records@[i].deps@,
                ),
            old(self).registry.has(name@) ==> final(self).registry.records@ == old(
                self,
            ).registry.records@ && created@.len() == 0,
            !old(self).registry.has(name@) ==> created@.len() >= 1 && created@[0]@ == name@,
    {
        self.registry.register(catalog, name)
    }

    /// Drives initialization for one plugin; see `Registry::initialize`.
    /// The returned plan lists the plugins whose init hooks must now run,
    /// dependencies before dependents, the requested plugin last.
    pub fn initialize_plugin(&mut self, name: &String) -> (hooks: Vec<String>)
        requires
            old(self).wf(),
            old(self).registry.has(name@),
        ensures
            final(self).wf(),
            final(self).bus == old(self).bus,
            final(self).quit == old(self).quit,
            advance_post(
                old(self).registry,
                final(self).registry,
                name@,
                false,
                Set::empty(),
                hooks@,
            ),
    {
        self.registry.initialize(name)
    }

    /// Drives startup for one plugin; see `Registry::startup_plugin`. The
    /// plugin is appended to the start log when it moves to `Started`.
    pub fn startup_plugin(&mut self, name: &String) -> (hooks: Vec<String>)
        requires
            old(self).wf(),
            old(self).registry.has(name@),
        ensures
            final(self).wf(),
            final(self).bus == old(self).bus,
            final(self).quit == old(self).quit,
            advance_post(
                old(self).registry,
                final(self).registry,
                name@,
                true,
                Set::empty(),
                hooks@,
            ),
    {
        self.registry.startup_plugin(name)
    }

    /// Starts every plugin that has been initialized, unless the context is
    /// already quitting, in which case nothing happens at all. Each plugin
    /// that was `Initialized` is `Started` afterwards and its hook appears
    /// exactly once in the returned plan, after the hooks of those of its
    /// declared dependencies started by this call (up to dependency
    /// cycles); every other plugin is untouched.
    pub fn startup(&mut self) -> (hooks: Vec<String>)
        requires
            old(self).wf(),
        ensures
            final(self).wf(),
            final(self).bus == old(self).bus,
            final(self).quit == old(self).quit,
            old(self).quit.quitting ==> *final(self) == *old(self) && hooks@.len() == 0,
            !old(self).quit.quitting ==> {
                let o = old(self).registry;
                let n = final(self).registry;
                &&& same_shape(o, n)
                &&& forall|m: Seq<char>|
                    #[trigger] o.has(m) ==> if o.st(m) == State::Initialized {
                        n.st(m) == State::Started && name_in(hooks@, m)
                    } else {
                        n.st(m) == o.st(m) && !name_in(hooks@, m)
                    }
                &&& forall|j: int, k: int| 0 <= j < k < hooks@.len() ==> hooks@[j]@ != hooks@[k]@
                &&& forall|k: int| 0 <= k < hooks@.len() ==> o.has((#[trigger] hooks@[k])@)
                &&& n.running@.len() == o.running@.len() + hooks@.len()
                &&& (forall|j: int|
                    0 <= j < o.running@.len() ==> n.running@[j] == o.running@[j])
                &&& (forall|j: int|
                    o.running@.len() <= j < n.running@.len() ==> name_in(
                        hooks@,
                        (#[trigger] n.running@[j])@,
                    ))
                &&& (forall|k: int|
                    0 <= k < hooks@.len() ==> #[trigger] hook_deps_ok(
                        o,
                        State::Initialized,
                        Set::empty(),
                        hooks@,
                        k,
                    ))
            },
    {
        if self.quit.is_quitting() {
            let hooks: Vec<String> = Vec::new();
            return hooks;
        }
        self.registry.startup_all()
    }

    /// Flips the shared cancellation flag. Idempotent; nothing else moves.
    pub fn quit(&mut self)
        ensures
            final(self).quit.quitting,
            final(self).quit.outstanding == old(self).quit.outstanding,
            final(self).registry == old(self).registry,
            final(self).bus == old(self).bus,
    {
        self.quit.quit();
    }

    /// Whether the cancellation flag has been set.
    pub fn is_quitting(&self) -> (r: bool)
        ensures
            r == self.quit.quitting,
    {
        self.quit.is_quitting()
    }

    /// Issues a quit handle, or nothing once the context is quitting.
    pub fn quit_handle(&mut self) -> (r: Option<QuitHandle>)
        requires
            old(self).quit.outstanding < u64::MAX,
        ensures
            final(self).registry == old(self).registry,
            final(self).bus == old(self).bus,
            old(self).quit.quitting ==> r is None && final(self).quit == old(self).quit,
            !old(self).quit.quitting ==> r is Some && final(self).quit.outstanding == old(
                self,
            ).quit.outstanding + 1 && final(self).quit.quitting == old(self).quit.quitting,
    {
        self.quit.quit_handle()
    }

    /// Returns one issued quit handle.
    pub fn drop_quit_handle(&mut self, handle: QuitHandle)
        requires
            old(self).quit.outstanding > 0,
        ensures
            final(self).registry == old(self).registry,
            final(self).bus == old(self).bus,
            final(self).quit.outstanding == old(self).quit.outstanding - 1,
            final(self).quit.quitting == old(self).quit.quitting,
    {
        self.quit.drop_handle(handle)
    }

    /// Whether the blocking phase of the process has anything to wait for:
    /// it does only if some plugin ever started.
    pub fn has_started_plugins(&self) -> (r: bool)
        ensures
            r == (self.registry.running@.len() > 0),
    {
        self.registry.running.len() > 0
    }

    /// The teardown step of the shutdown sequence. It may run only once
    /// every issued quit handle has been returned, which proves that no
    /// cooperating background task is still in flight; the driver waits for
    /// that before calling. Sets the cancellation flag (idempotently), then
    /// walks the start log in reverse: every still-running plugin is
    /// stopped, and the returned plan lists whose shutdown hooks must now
    /// run, in that order — the plugin started last is stopped first. When
    /// every logged plugin was still running, the plan is the exact reverse
    /// of the start log.
    pub fn shutdown(&mut self) -> (hooks: Vec<String>)
        requires
            old(self).wf(),
            old(self).quit.outstanding == 0,
        ensures
            final(self).wf(),
            final(self).bus == old(self).bus,
            final(self).quit.quitting,
            final(self).quit.outstanding == 0,
            same_shape(old(self).registry, final(self).registry),
            final(self).registry.running@ == old(self).registry.running@,
            forall|m: Seq<char>|
                #[trigger] old(self).registry.has(m) ==> if old(self).registry.st(m)
                    == State::Started {
                    final(self).registry.st(m) == State::Stopped && name_in(hooks@, m)
                } else {
                    final(self).registry.st(m) == old(self).registry.st(m) && !name_in(hooks@, m)
                },
            forall|j: int, k: int| 0 <= j < k < hooks@.len() ==> hooks@[j]@ != hooks@[k]@,
            hook_views(hooks@) =~= teardown_span(
                old(self).registry,
                0,
                old(self).registry.running@.len() as int,
            ),
            (forall|k: int|
                0 <= k < old(self).registry.running@.len() ==> old(self).registry.st(
                    (#[trigger] old(self).registry.running@[k])@,
                ) == State::Started) ==> hook_views(hooks@) =~= run_views(
                old(self).registry.running@,
            ).reverse(),
    {
        self.quit.quit();
        self.registry.shutdown_all()
    }

    /// The index of the record of a registered plugin. The caller must have
    /// registered the plugin first: looking an unknown identity up this way
    /// is a wiring bug.
    pub fn get_plugin(&self, name: &String) -> (r: usize)
        requires
            self.wf(),
            self.registry.has(name@),
        ensures
            r < self.registry.records@.len(),
            self.registry.records@[r as int].name@ == name@,
            r == self.registry.idx_of(name@),
    {
        self.find_plugin(name).unwrap()
    }

    /// The index of the record of the given identity, if it is registered.
    pub fn find_plugin(&self, name: &String) -> (r: Option<usize>)
        requires
            self.wf(),
        ensures
            match r {
                Some(i) => i < self.registry.records@.len()
                    && self.registry.records@[i as int].name@ == name@ && self.registry.has(name@)
                    && self.registry.idx_of(name@) == i,
                None => !self.registry.has(name@),
            },
    {
        let n = self.registry.records.len();
        let mut i: usize = 0;
        while i < n
            invariant
                self.wf(),
                n == self.registry.records@.len(),
                i <= n,
                forall|j: int| 0 <= j < i ==> self.registry.records@[j].name@ != name@,
            decreases n - i,
        {
            if self.registry.records[i].name == *name {
                proof {
                    self.registry.lemma_idx_of(name@, i as int);
                }
                return Some(i);
            }
            i = i + 1;
        }
        None
    }

    /// The lifecycle state of the given plugin, if it is registered.
    pub fn plugin_state(&self, name: &String) -> (r: Option<State>)
        requires
            self.wf(),
        ensures
            self.registry.has(name@) ==> r == Some(self.registry.st(name@)),
            !self.registry.has(name@) ==> r is None,
    {
        self.registry.plugin_state(name)
    }

    /// A handle on the topic of the given name, created first if needed;
    /// see `ChannelBus::get_or_create`. Handles obtained for one name all
    /// denote the one canonical topic.
    pub fn get_channel(&mut self, name: &String) -> (idx: usize)
        requires
            old(self).wf(),
        ensures
            final(self).wf(),
            final(self).registry == old(self).registry,
            final(self).quit == old(self).quit,
            final(self).bus.default_capacity == old(self).bus.default_capacity,
            idx < final(self).bus.topics@.len(),
            final(self).bus.topics@[idx as int].name@ == name@,
            final(self).bus.has_topic(name@),
            final(self).bus.topic_idx(name@) == idx,
            old(self).bus.has_topic(name@) ==> final(self).bus == old(self).bus && idx == old(self).bus.topic_idx(name@),
            !old(self).bus.has_topic(name@) ==> idx == old(self).bus.topics@.len() && final(self).bus.topics@ == old(self).bus.topics@.push(final(self).bus.topics@[idx as int])
                && final(self).bus.topics@[idx as int].capacity == old(self).bus.default_capacity
                && final(self).bus.topics@[idx as int].log@.len() == 0,
    {
        self.bus.get_or_create(name)
    }

    /// A new receiver on the topic of the given name, positioned at "now";
    /// see `ChannelBus::subscribe`. Messages published before this call are
    /// never delivered to the receiver.
    pub fn subscribe_channel(&mut self, name: &String) -> (s: Subscription)
        requires
            old(self).wf(),
        ensures
            final(self).wf(),
            final(self).registry == old(self).registry,
            final(self).quit == old(self).quit,
            final(self).bus.default_capacity == old(self).bus.default_capacity,
            final(self).bus.sub_wf(s),
            s.topic == final(self).bus.topic_idx(name@),
            final(self).bus.topics@[s.topic as int].name@ == name@,
            s.cursor == final(self).bus.topics@[s.topic as int].log@.len(),
            s.joined@ == s.cursor,
            old(self).bus.has_topic(name@) ==> final(self).bus == old(self).bus,
            !old(self).bus.has_topic(name@) ==> s.topic == old(self).bus.topics@.len() && final(self).bus.topics@ == old(self).bus.topics@.push(final(self).bus.topics@[s.topic as int])
                && final(self).bus.topics@[s.topic as int].capacity == old(self).bus.default_capacity && final(self).bus.topics@[s.topic as int].log@.len() == 0,
    {
        self.bus.subscribe(name)
    }

    /// Publishes a message on a topic handle; see `ChannelBus::publish`.
    pub fn publish(&mut self, topic: usize, message: String)
        requires
            old(self).wf(),
            topic < old(self).bus.topics@.len(),
            old(self).bus.topics@[topic as int].published < usize::MAX,
        ensures
            final(self).wf(),
            final(self).registry == old(self).registry,
            final(self).quit == old(self).quit,
            final(self).bus.default_capacity == old(self).bus.default_capacity,
            final(self).bus.topics@.len() == old(self).bus.topics@.len(),
            final(self).bus.topics@[topic as int].log@ == old(self).bus.topics@[topic as int].log@
                .push(message@),
            final(self).bus.topics@[topic as int].name@ == old(self).bus.topics@[topic as int].name@,
            final(self).bus.topics@[topic as int].capacity == old(self).bus.topics@[topic as int].capacity,
            forall|i: int|
                0 <= i < old(self).bus.topics@.len() && i != topic ==> final(self).bus.topics@[i]
                    == old(self).bus.topics@[i],
    {
        self.bus.publish(topic, message)
    }

    /// A non-blocking receive on a subscription; see `ChannelBus::try_recv`.
    pub fn try_recv(&self, sub: &mut Subscription) -> (r: RecvOutcome)
        requires
            self.wf(),
            self.bus.sub_wf(*old(sub)),
        ensures
            self.bus.sub_wf(*final(sub)),
            final(sub).topic == old(sub).topic,
            final(sub).joined == old(sub).joined,
            final(sub).cursor >= old(sub).cursor,
            ({
                let t = self.bus.topics@[old(sub).topic as int];
                let oldest = t.log@.len() - t.history@.len();
                &&& (old(sub).cursor < oldest ==> (r matches RecvOutcome::Lagged(n) && n == oldest
                    - old(sub).cursor) && final(sub).cursor == oldest)
                &&& (old(sub).cursor >= t.log@.len() ==> r is Empty && final(sub).cursor == old(
                    sub,
                ).cursor)
                &&& (oldest <= old(sub).cursor < t.log@.len() ==> (r matches RecvOutcome::Message(
                    m,
                ) && m@ == t.log@[old(sub).cursor as int]) && final(sub).cursor == old(sub).cursor
                    + 1)
            }),
            r is Message ==> old(sub).cursor >= old(sub).joined@,
    {
        self.bus.try_recv(sub)
    }

    /// Changes the history capacity handed to topics created from now on;
    /// existing topics keep the capacity fixed at their creation.
    pub fn set_capacity(&mut self, capacity: usize)
        requires
            old(self).wf(),
            capacity >= 1,
        ensures
            final(self).wf(),
            final(self).registry == old(self).registry,
            final(self).quit == old(self).quit,
            final(self).bus.default_capacity == capacity,
            final(self).bus.topics == old(self).bus.topics,
    {
        self.bus.set_capacity(capacity)
    }
}

} // verus!
