//! Registration of the function that starts worker threads.
//!
//! On `wasm32-unknown-unknown` only the embedder can start a thread: a Web Worker that runs another
//! instance of the same module on the same shared memory. So the embedder registers a spawner once,
//! and each worker thread's body is handed to it. The spawner returns as soon as the thread is
//! requested.
use vstd::prelude::*;

verus! {

/// The place of the registered spawner. It is filled at most once.
pub struct SpawnerRegistry<S> {
    spawner: Option<S>,
}

impl<S> View for SpawnerRegistry<S> {
    type V = Option<S>;

    closed spec fn view(&self) -> Option<S> {
        self.spawner
    }
}

impl<S> SpawnerRegistry<S> {
    /// A registry without a spawner.
    pub fn new() -> (registry: Self)
        ensures
            registry@ is None,
    {
        SpawnerRegistry { spawner: None }
    }
}

impl<S: Copy> SpawnerRegistry<S> {
    /// A registry with the same spawner, to call it without holding on to this one.
    pub fn snapshot(&self) -> (registry: Self)
        ensures
            registry@ == self@,
    {
        SpawnerRegistry { spawner: self.spawner }
    }
}

/// What the registry holds after `spawner` has been offered to it.
pub open spec fn registered<S>(before: Option<S>, spawner: S) -> Option<S> {
    match before {
        Some(first) => Some(first),
        None => Some(spawner),
    }
}

/// Registers the function that starts worker threads. Only the first call takes effect; returns
/// whether this one did.
pub fn set_thread_spawner<S>(registry: &mut SpawnerRegistry<S>, spawner: S) -> (took_effect: bool)
    ensures
        took_effect == (old(registry)@ is None),
        final(registry)@ == registered(old(registry)@, spawner),
{
    match &registry.spawner {
        Some(_) => false,
        None => {
            registry.spawner = Some(spawner);
            true
        },
    }
}

/// Whether a spawner is registered, that is, whether more than one thread can work.
pub fn is_thread_spawner_set<S>(registry: &SpawnerRegistry<S>) -> (set: bool)
    ensures
        set == (registry@ is Some),
{
    match &registry.spawner {
        Some(_) => true,
        None => false,
    }
}

/// Hands the body of one worker thread to the registered spawner and returns its answer; fails
/// where none is registered.
pub fn spawn<B, S: Fn(B) -> Result<(), ()>>(registry: &SpawnerRegistry<S>, body: B) -> (started:
    Result<(), ()>)
    requires
        registry@ matches Some(spawner) ==> call_requires(spawner, (body,)),
    ensures
        registry@ is None ==> started == Err::<(), ()>(()),
        registry@ matches Some(spawner) ==> call_ensures(spawner, (body,), started),
{
    match &registry.spawner {
        Some(spawner) => spawner(body),
        None => Err(()),
    }
}

/// The first spawner that is offered stays registered, whatever is offered afterwards.
pub proof fn first_spawner_stays<S>(before: Option<S>, first: S, later: S)
    ensures
        registered(registered(before, first), later) == registered(before, first),
        before is None ==> registered(registered(before, first), later) == Some(first),
{
}

/// What the registry holds after the first `n` of `spawners` have been offered to it in turn.
pub open spec fn registered_in_turn<S>(before: Option<S>, spawners: Seq<S>, n: nat) -> Option<S>
    decreases n,
{
    if n == 0 {
        before
    } else {
        registered(registered_in_turn(before, spawners, (n - 1) as nat), spawners[n - 1])
    }
}

/// Whether offering the spawner with number `i` takes effect, after those before it.
pub open spec fn takes_effect<S>(before: Option<S>, spawners: Seq<S>, i: nat) -> bool {
    registered_in_turn(before, spawners, i) is None
}

/// Of any number of registrations in turn exactly the first takes effect, and its spawner stays registered.
/// Where one is registered already, none takes effect.
pub proof fn exactly_the_first_takes_effect<S>(before: Option<S>, spawners: Seq<S>, n: nat)
    requires
        1 <= n <= spawners.len(),
    ensures
        forall|i: nat| i < n ==> #[trigger] takes_effect(before, spawners, i) == (before is None && i == 0),
        registered_in_turn(before, spawners, n) == registered(before, spawners[0]),
    decreases n,
{
    reveal_with_fuel(registered_in_turn, 2);
    if n > 1 {
        exactly_the_first_takes_effect(before, spawners, (n - 1) as nat);
    }
}

} // verus!
