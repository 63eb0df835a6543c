//! Process-wide switches: verbose request logging, the request timeout, colored tables.

use vstd::prelude::*;

verus! {

/// The switches a run is configured with.
pub struct Settings {
    /// Log each request.
    pub verbose: bool,
    /// Request timeout in seconds; `0` keeps the client's default.
    pub timeout_secs: u64,
    /// Color table headers.
    pub color: bool,
}

impl Settings {
    /// Nothing logged, the default timeout, colors on.
    pub fn new() -> (r: Settings)
        ensures
            r.verbose == false,
            r.timeout_secs == 0,
            r.color == true,
    {
        Settings { verbose: false, timeout_secs: 0, color: true }
    }
}

/// Enable verbose request logging (`-v`).
pub fn set_verbose(settings: &mut Settings, enabled: bool)
    ensures
        final(settings).verbose == enabled,
        final(settings).timeout_secs == old(settings).timeout_secs,
        final(settings).color == old(settings).color,
{
    settings.verbose = enabled;
}

/// Override the request timeout (seconds); `0` restores the client default.
pub fn set_timeout_secs(settings: &mut Settings, secs: u64)
    ensures
        final(settings).timeout_secs == secs,
        final(settings).verbose == old(settings).verbose,
        final(settings).color == old(settings).color,
{
    settings.timeout_secs = secs;
}

/// Turn ANSI colors in table output on or off.
pub fn set_color_enabled(settings: &mut Settings, enabled: bool)
    ensures
        final(settings).color == enabled,
        final(settings).verbose == old(settings).verbose,
        final(settings).timeout_secs == old(settings).timeout_secs,
{
    settings.color = enabled;
}

/// The timeout every request gets unless its command sets one: none when it is `0`.
pub fn global_timeout(settings: &Settings) -> (r: Option<u64>)
    ensures
        r == (if settings.timeout_secs == 0 { None } else { Some(settings.timeout_secs) }),
{
    if settings.timeout_secs == 0 {
        None
    } else {
        Some(settings.timeout_secs)
    }
}

/// Whether requests are logged: the switch, or the `ANYCLI_VERBOSE` variable being set.
pub fn verbose_enabled(settings: &Settings, env_set: bool) -> (r: bool)
    ensures
        r == (settings.verbose || env_set),
{
    settings.verbose || env_set
}

/// Whether tables are colored: the switch, unless the `NO_COLOR` variable is set.
pub fn color_enabled(settings: &Settings, no_color_env: bool) -> (r: bool)
    ensures
        r == (settings.color && !no_color_env),
{
    settings.color && !no_color_env
}

} // verus!
