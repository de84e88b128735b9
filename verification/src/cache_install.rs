//! The command that unpacks the cache anew.

use vstd::prelude::*;

verus! {

/// A cache of the tools that a version comes with. What can go wrong with it is an `E`.
pub trait Cache<E> {
    /// Unpacks the tools, also if they are there.
    fn force_install(&self) -> Result<(), E>;
}

/// What a command finds around it.
pub trait Environment<E> {
    type Cache: Cache<E>;

    /// The cache of this version.
    fn get_cache(&self) -> Self::Cache;
}

/// Forces unpacking the cache from this version.
#[derive(Debug)]
pub struct CacheInstall {}

/// `outcome` is that of a forced installation of the cache of the environment.
pub open spec fn is_outcome<E, Env: Environment<E>>(env: &Env, outcome: Result<(), E>) -> bool {
    exists|cache: Env::Cache|
        call_ensures(Env::get_cache, (env,), cache) && #[trigger] call_ensures(
            Env::Cache::force_install,
            (&cache,),
            outcome,
        )
}

/// Unpacks the cache of the environment anew. The outcome is that of the cache's own installation.
/// The contract does not count installations: the methods of a cache leave no trace in its value.
pub fn exec<E, Env: Environment<E>>(env: &Env, _opts: CacheInstall) -> (outcome: Result<(), E>)
    ensures
        is_outcome(env, outcome),
        exists|cache: Env::Cache|
            call_ensures(Env::get_cache, (env,), cache) && #[trigger] call_ensures(
                Env::Cache::force_install,
                (&cache,),
                outcome,
            ),
{
    let cache = env.get_cache();
    let outcome = cache.force_install();
    assert(call_ensures(Env::Cache::force_install, (&cache,), outcome));
    outcome
}

/// However often the command is run in a row on one environment, the outcome of each run is that of
/// a forced installation of its cache, whether the runs before it succeeded or failed.
pub proof fn lemma_runs_in_a_row<E, Env: Environment<E>>(
    env: &Env,
    opts: Seq<CacheInstall>,
    outcomes: Seq<Result<(), E>>,
)
    requires
        opts.len() == outcomes.len(),
        forall|i: int|
            0 <= i < outcomes.len() ==> call_ensures(
                exec::<E, Env>,
                (env, opts[i]),
                #[trigger] outcomes[i],
            ),
    ensures
        forall|i: int| 0 <= i < outcomes.len() ==> is_outcome(env, #[trigger] outcomes[i]),
        forall|outcome: Result<(), E>| #[trigger]
            outcomes.contains(outcome) ==> exists|cache: Env::Cache|
                call_ensures(Env::get_cache, (env,), cache) && #[trigger] call_ensures(
                    Env::Cache::force_install,
                    (&cache,),
                    outcome,
                ),
{
}

/// The command makes up no outcome of its own, whatever its errors are: what holds of every outcome
/// that an installation of a cache of the environment can have holds of the outcome of the command.
/// So if every installation fails, the command fails, and with the error that they fail with.
pub proof fn lemma_no_outcome_of_its_own<E, Env: Environment<E>>(
    env: &Env,
    opts: CacheInstall,
    outcome: Result<(), E>,
    error: E,
    holds: spec_fn(Result<(), E>) -> bool,
)
    requires
        call_ensures(exec::<E, Env>, (env, opts), outcome),
    ensures
        (forall|cache: Env::Cache, done: Result<(), E>|
            call_ensures(Env::get_cache, (env,), cache) && #[trigger] call_ensures(
                Env::Cache::force_install,
                (&cache,),
                done,
            ) ==> done is Err) ==> outcome is Err,
        (forall|cache: Env::Cache, done: Result<(), E>|
            call_ensures(Env::get_cache, (env,), cache) && #[trigger] call_ensures(
                Env::Cache::force_install,
                (&cache,),
                done,
            ) ==> done is Ok) ==> outcome is Ok,
        (forall|cache: Env::Cache, done: Result<(), E>|
            call_ensures(Env::get_cache, (env,), cache) && #[trigger] call_ensures(
                Env::Cache::force_install,
                (&cache,),
                done,
            ) ==> done == Err::<(), E>(error)) ==> outcome == Err::<(), E>(error),
        (forall|cache: Env::Cache, done: Result<(), E>|
            call_ensures(Env::get_cache, (env,), cache) && #[trigger] call_ensures(
                Env::Cache::force_install,
                (&cache,),
                done,
            ) ==> holds(done)) ==> holds(outcome),
{
}

} // verus!
