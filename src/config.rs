use vstd::prelude::*;

verus! {

/// Default ceiling on directories waiting in the work queue at once.
pub const DEFAULT_MAX_QUEUE_SIZE: usize = 100_000;

/// Default ceiling on items enumerated from a single directory.
pub const DEFAULT_MAX_ENTRIES_PER_DIR: usize = 50_000;

/// The traversal policy of one walk, fixed when the walker is built.
///
/// Built from `WalkConfig::new()` (the defaults) by chaining the setters,
/// each of which changes one option and keeps the others.
#[derive(Debug, Clone, Copy)]
pub struct WalkConfig {
    /// `None`: no limit. `Some(n)`: entries are reported up to depth `n`
    /// (depth 0 being the root's own children), and no directory whose
    /// children would lie deeper is ever opened.
    pub max_depth: Option<usize>,
    /// Whether directory entries are handed to the caller. Subdirectories
    /// are traversed either way.
    pub yield_directories: bool,
    /// `true`: a failing entry or directory is skipped and the walk goes on.
    /// `false`: the first failure is reported once and the walk halts.
    pub continue_on_error: bool,
    /// Ceiling on directories waiting in the work queue at once.
    pub max_queue_size: usize,
    /// Ceiling on items enumerated from one directory (a bound on I/O, not
    /// on what is handed to the caller).
    pub max_entries_per_dir: usize,
    /// Whether links to directories are traversed into (and links to files
    /// reported as files).
    pub follow_symlinks: bool,
}

/// The default policy: unlimited depth, directories reported, errors skipped,
/// the default bounds, links not followed.
pub open spec fn default_config() -> WalkConfig {
    WalkConfig {
        max_depth: None,
        yield_directories: true,
        continue_on_error: true,
        max_queue_size: DEFAULT_MAX_QUEUE_SIZE,
        max_entries_per_dir: DEFAULT_MAX_ENTRIES_PER_DIR,
        follow_symlinks: false,
    }
}

impl Default for WalkConfig {
    fn default() -> (r: Self)
        ensures
            r == default_config(),
    {
        WalkConfig {
            max_depth: None,
            yield_directories: true,
            continue_on_error: true,
            max_queue_size: DEFAULT_MAX_QUEUE_SIZE,
            max_entries_per_dir: DEFAULT_MAX_ENTRIES_PER_DIR,
            follow_symlinks: false,
        }
    }
}

impl WalkConfig {
    /// The default policy.
    pub fn new() -> (r: Self)
        ensures
            r == default_config(),
    {
        WalkConfig {
            max_depth: None,
            yield_directories: true,
            continue_on_error: true,
            max_queue_size: DEFAULT_MAX_QUEUE_SIZE,
            max_entries_per_dir: DEFAULT_MAX_ENTRIES_PER_DIR,
            follow_symlinks: false,
        }
    }

    /// Limits the depth of reported entries to `depth`.
    pub fn max_depth(self, depth: usize) -> (r: Self)
        ensures
            r == (WalkConfig { max_depth: Some(depth), ..self }),
    {
        WalkConfig { max_depth: Some(depth), ..self }
    }

    /// Sets whether directory entries are reported.
    pub fn yield_directories(self, yield_dirs: bool) -> (r: Self)
        ensures
            r == (WalkConfig { yield_directories: yield_dirs, ..self }),
    {
        WalkConfig { yield_directories: yield_dirs, ..self }
    }

    /// Sets whether failures are skipped (`true`) or halt the walk (`false`).
    pub fn continue_on_error(self, skip_errors: bool) -> (r: Self)
        ensures
            r == (WalkConfig { continue_on_error: skip_errors, ..self }),
    {
        WalkConfig { continue_on_error: skip_errors, ..self }
    }

    /// Sets the ceiling on directories waiting in the work queue.
    pub fn max_queue_size(self, size: usize) -> (r: Self)
        ensures
            r == (WalkConfig { max_queue_size: size, ..self }),
    {
        WalkConfig { max_queue_size: size, ..self }
    }

    /// Sets the ceiling on items enumerated from one directory.
    pub fn max_entries_per_dir(self, limit: usize) -> (r: Self)
        ensures
            r == (WalkConfig { max_entries_per_dir: limit, ..self }),
    {
        WalkConfig { max_entries_per_dir: limit, ..self }
    }

    /// Sets whether links to directories are traversed into.
    pub fn follow_symlinks(self, follow: bool) -> (r: Self)
        ensures
            r == (WalkConfig { follow_symlinks: follow, ..self }),
    {
        WalkConfig { follow_symlinks: follow, ..self }
    }
}

} // verus!
