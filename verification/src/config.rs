use vstd::prelude::*;

verus! {

/// Number of seconds in one minute: timestamps count seconds, options count minutes.
pub const SECONDS_PER_MINUTE: u64 = 60;

/// Default grace period, in minutes.
pub const DEFAULT_GRACE_PERIOD_MINUTES: u32 = 15;

/// Default extension window, in minutes.
pub const DEFAULT_EXTENSION_WINDOW_MINUTES: u32 = 5;

/// The two timing options of the session engine.
///
/// The grace period is the time after a session's `end_time` during which the
/// device still counts as active and the session can still be extended. The
/// extension window is what is added to "now" to give the `end_time` of a
/// session that is created or extended.
#[derive(Clone, Copy, Debug, PartialEq, Eq, Structural)]
pub struct Config {
    pub grace_period_minutes: u32,
    pub extension_window_minutes: u32,
}

impl Config {
    /// The grace period in seconds.
    pub open spec fn grace(self) -> int {
        self.grace_period_minutes * 60
    }

    /// The extension window in seconds.
    pub open spec fn extension(self) -> int {
        self.extension_window_minutes * 60
    }

    /// A configuration with the given options.
    pub fn new(grace_period_minutes: u32, extension_window_minutes: u32) -> (config: Config)
        ensures
            config.grace_period_minutes == grace_period_minutes,
            config.extension_window_minutes == extension_window_minutes,
    {
        Config { grace_period_minutes, extension_window_minutes }
    }

    /// The grace period in seconds.
    pub fn grace_seconds(&self) -> (seconds: u64)
        ensures
            seconds == self.grace(),
    {
        let minutes: u64 = self.grace_period_minutes as u64;
        minutes * SECONDS_PER_MINUTE
    }

    /// The extension window in seconds.
    pub fn extension_seconds(&self) -> (seconds: u64)
        ensures
            seconds == self.extension(),
    {
        let minutes: u64 = self.extension_window_minutes as u64;
        minutes * SECONDS_PER_MINUTE
    }
}

impl Default for Config {
    /// Fifteen minutes of grace, five minutes of extension.
    fn default() -> (config: Config)
        ensures
            config.grace_period_minutes == DEFAULT_GRACE_PERIOD_MINUTES,
            config.extension_window_minutes == DEFAULT_EXTENSION_WINDOW_MINUTES,
    {
        Config {
            grace_period_minutes: DEFAULT_GRACE_PERIOD_MINUTES,
            extension_window_minutes: DEFAULT_EXTENSION_WINDOW_MINUTES,
        }
    }
}

} // verus!
