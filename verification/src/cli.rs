//! The listing options chosen on the command line.
use vstd::prelude::*;

verus! {

/// The order in which entries are listed.
#[derive(Debug, Clone, Copy, PartialEq, Eq, Structural)]
pub enum SortKey {
    /// Case-insensitive name order.
    Name,
    /// Largest first, ties by name.
    Size,
    /// Most recently modified first, ties by name.
    Mtime,
}

/// The options of one listing run.
#[derive(Debug, Clone)]
pub struct Config {
    /// Path to list.
    pub path: String,
    /// Show metadata, human-readable sizes, and rich information.
    pub long: bool,
    /// Show hidden files.
    pub all: bool,
    /// Hide entries matched by `.gitignore` or `.dockerignore`.
    pub respect_ignore: bool,
    /// Sort by name, size, or modification time.
    pub sort_key: SortKey,
    /// Generate shell completion files.
    pub completions: bool,
    /// Suggest cleanup candidate files without deleting them.
    pub clean_suggest: bool,
    /// Accepted for compatibility: enables the long format.
    pub humanize: bool,
    /// Accepted for compatibility: enables the long format.
    pub tagline: bool,
    /// Accepted for compatibility: enables the long format.
    pub pdf_title: bool,
    /// Accepted for compatibility: enables the long format.
    pub new_mark: bool,
}

impl Config {
    /// Whether the long format was asked for, directly or through one of the
    /// compatibility options.
    pub open spec fn spec_long_enabled(&self) -> bool {
        self.long || self.humanize || self.tagline || self.pdf_title || self.new_mark
    }

    pub fn long_enabled(&self) -> (b: bool)
        ensures
            b == self.spec_long_enabled(),
    {
        self.long || self.humanize || self.tagline || self.pdf_title || self.new_mark
    }

    /// The same options with `long` set whenever a compatibility option asks for it.
    pub fn normalized(self) -> (out: Self)
        ensures
            out == (Config { long: self.spec_long_enabled(), ..self }),
    {
        let long = self.long_enabled();
        Config { long, ..self }
    }
}

} // verus!
