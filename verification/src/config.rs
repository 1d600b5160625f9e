//! The player's configuration: when tracks are written to the disk cache, and
//! the slot that holds the configuration for the whole run.
use vstd::prelude::*;

verus! {

/// When played tracks go into the disk cache.
#[derive(Clone, Copy, Debug, PartialEq, Eq, Structural)]
pub enum CacheMode {
    /// Never.
    Off,
    /// When the user asks for it with a key.
    Hotkey,
    /// Always.
    Auto,
}

impl Default for CacheMode {
    fn default() -> (r: Self)
        ensures
            r == CacheMode::Hotkey,
    {
        CacheMode::Hotkey
    }
}

/// The player's configuration.
#[derive(Clone, Copy, Debug, PartialEq, Eq, Structural)]
pub struct Config {
    pub cache: CacheMode,
}

/// The configuration used where none was given: caching on the hotkey.
pub open spec fn default_config() -> Config {
    Config { cache: CacheMode::Hotkey }
}

impl Default for Config {
    fn default() -> (r: Self)
        ensures
            r == default_config(),
    {
        Config { cache: CacheMode::default() }
    }
}

/// The slot after `init` with `loaded`: a slot already set keeps its
/// configuration; an empty one takes `loaded`, or the default.
pub open spec fn after_init(slot: Option<Config>, loaded: Option<Config>) -> Option<Config> {
    match slot {
        Some(c) => Some(c),
        None => Some(
            match loaded {
                Some(c) => c,
                None => default_config(),
            },
        ),
    }
}

/// The slot after `get`, and what `get` gives: a set slot gives its
/// configuration; an empty one is set to the default, which it gives.
pub open spec fn after_get(slot: Option<Config>) -> (Option<Config>, Config) {
    match slot {
        Some(c) => (Some(c), c),
        None => (Some(default_config()), default_config()),
    }
}

/// Sets the configuration of the run, once: to `loaded`, or to the default
/// where it could not be loaded. A slot that is already set keeps its
/// configuration.
pub fn init(slot: &mut Option<Config>, loaded: Option<Config>)
    ensures
        *final(slot) == after_init(*old(slot), loaded),
{
    if slot.is_none() {
        *slot = Some(
            match loaded {
                Some(c) => c,
                None => Config::default(),
            },
        );
    }
}

/// The configuration of the run; an empty slot is first set to the default.
pub fn get(slot: &mut Option<Config>) -> (r: Config)
    ensures
        (*final(slot), r) == after_get(*old(slot)),
{
    match *slot {
        Some(c) => c,
        None => {
            let c = Config::default();
            *slot = Some(c);
            c
        },
    }
}

/// The cache mode of the run's configuration.
pub fn cache_mode(slot: &mut Option<Config>) -> (r: CacheMode)
    ensures
        *final(slot) == after_get(*old(slot)).0,
        r == after_get(*old(slot)).1.cache,
{
    get(slot).cache
}

/// The configuration is set once: a later `init` changes nothing.
pub proof fn law_init_sets_once(slot: Option<Config>, first: Option<Config>, second: Option<Config>)
    ensures
        after_init(after_init(slot, first), second) == after_init(slot, first),
{
}

/// Where no configuration was given, tracks are cached on the hotkey.
pub proof fn law_default_is_hotkey()
    ensures
        default_config().cache == CacheMode::Hotkey,
        after_init(None, None) == Some(Config { cache: CacheMode::Hotkey }),
        after_get(None).1.cache == CacheMode::Hotkey,
{
}

/// After the first `init`, `get` gives what was loaded, or the default.
pub proof fn law_get_after_init(loaded: Option<Config>)
    ensures
        after_get(after_init(None, loaded)).1 == match loaded {
            Some(c) => c,
            None => default_config(),
        },
{
}

/// `get` gives the same configuration each time, and leaves a set slot as it was.
pub proof fn law_get_is_stable(slot: Option<Config>)
    ensures
        after_get(after_get(slot).0) == after_get(slot),
        slot is Some ==> after_get(slot).0 == slot,
{
}

} // verus!
