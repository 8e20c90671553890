//! Plugin declarations and the per-plugin lifecycle state.

use vstd::prelude::*;

verus! {

/// The lifecycle phase of a registered plugin, in strict ascending order:
/// `Registered < Initialized < Started < Stopped`. A phase transition
/// succeeds only from its exact predecessor; any other attempt is a
/// silent no-op, which makes every phase-entry function idempotent.
#[derive(PartialEq, Eq, Structural, Clone, Copy, Debug)]
pub enum State {
    Registered,
    Initialized,
    Started,
    Stopped,
}

/// The position of a state in the lifecycle order.
pub open spec fn rank(s: State) -> int {
    match s {
        State::Registered => 0,
        State::Initialized => 1,
        State::Started => 2,
        State::Stopped => 3,
    }
}

/// A plugin declaration: a process-unique identity together with the
/// identities of the plugins it depends on.
pub struct PluginDecl {
    pub name: String,
    pub deps: Vec<String>,
}

/// Whether two lists of identities spell the same names in the same order.
pub open spec fn same_names(a: Seq<String>, b: Seq<String>) -> bool {
    &&& a.len() == b.len()
    &&& forall|k: int| 0 <= k < a.len() ==> a[k]@ == b[k]@
}

/// Whether a catalog holds a declaration of the given name.
pub open spec fn catalog_has(catalog: Seq<PluginDecl>, name: Seq<char>) -> bool {
    exists|i: int| 0 <= i < catalog.len() && (#[trigger] catalog[i]).name@ == name
}

/// A well-formed catalog: each identity is declared at most once, and every
/// declared dependency is itself declared in the catalog, so that following
/// dependency declarations never leaves the catalog.
pub open spec fn catalog_wf(catalog: Seq<PluginDecl>) -> bool {
    &&& forall|i: int, j: int|
        0 <= i < j < catalog.len() ==> catalog[i].name@ != catalog[j].name@
    &&& forall|i: int, k: int|
        0 <= i < catalog.len() && 0 <= k < catalog[i].deps@.len() ==> catalog_has(
            catalog,
            #[trigger] catalog[i].deps@[k]@,
        )
}

/// Whether the catalog declares the given name with exactly the given
/// dependency list.
pub open spec fn catalog_declares(catalog: Seq<PluginDecl>, name: Seq<char>, deps: Seq<String>) -> bool {
    exists|i: int|
        0 <= i < catalog.len() && (#[trigger] catalog[i]).name@ == name && same_names(
            catalog[i].deps@,
            deps,
        )
}

/// Looks a declaration up in a catalog by name.
pub fn find_decl<'a>(catalog: &'a Vec<PluginDecl>, name: &String) -> (r: Option<&'a PluginDecl>)
    ensures
        match r {
            Some(decl) => decl.name@ == name@ && catalog_declares(catalog@, name@, decl.deps@)
                && catalog_has(catalog@, name@),
            None => !catalog_has(catalog@, name@),
        },
{
    let n = catalog.len();
    let mut i: usize = 0;
    while i < n
        invariant
            n == catalog@.len(),
            i <= n,
            forall|j: int| 0 <= j < i ==> catalog@[j].name@ != name@,
        decreases n - i,
    {
        if catalog[i].name == *name {
            let decl = &catalog[i];
            proof {
                assert(same_names(decl.deps@, decl.deps@));
            }
            return Some(decl);
        }
        i = i + 1;
    }
    None
}

/// The contract a plugin type offers to the runtime: a stable identity, a
/// list of declared dependency identities, and a constructor. Concrete
/// plugin types outside the library implement it; a driver turns an
/// implementation into the `PluginDecl` the registry consumes and keeps the
/// constructed instance beside the registry record.
pub trait Plugin {
    /// The process-unique identity of this plugin type.
    fn plugin_name() -> (r: String);

    /// The identities of the plugins this plugin depends on.
    fn dependencies() -> (r: Vec<String>);

    /// A fresh instance of the plugin's own state.
    fn new() -> Self where Self: core::marker::Sized;
}

} // verus!
