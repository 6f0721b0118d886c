//! The construction parameters of the write buffer, as one value with named
//! fields, and its builder.

use vstd::prelude::*;

verus! {

/// The probability one half, in units of `2^-32`.
pub const HALF: u32 = 0x8000_0000;

/// The number of keys that a buffer is laid out for unless told otherwise.
pub const DEFAULT_EXPECTED_NUM_KEYS: u32 = 10_000;

/// The largest number of levels that an index gets unless told otherwise.
pub const DEFAULT_ALLOWED_MAX_LEVELS: u32 = 32;

/// The parameters from which a buffer's index is built.
#[derive(Clone, Copy, Debug)]
pub struct DBConfig {
    memtable_probability: u32,
    memtable_expected_num_keys: u32,
    memtable_allowed_max_levels: u32,
}

/// The mathematical value of a [`DBConfig`].
pub struct DBConfigView {
    /// The probability with which a node rises one level, in units of
    /// `2^-32`.
    pub probability: u32,
    pub expected_num_keys: u32,
    pub allowed_max_levels: u32,
}

impl View for DBConfig {
    type V = DBConfigView;

    closed spec fn view(&self) -> DBConfigView {
        DBConfigView {
            probability: self.memtable_probability,
            expected_num_keys: self.memtable_expected_num_keys,
            allowed_max_levels: self.memtable_allowed_max_levels,
        }
    }
}

impl DBConfig {
    /// The probability with which a node of the index rises one level, in
    /// units of `2^-32`.
    pub fn memtable_probability(&self) -> (out: u32)
        ensures
            out == self@.probability,
    {
        self.memtable_probability
    }

    /// The number of keys that the index is laid out for.
    pub fn memtable_expected_num_keys(&self) -> (out: u32)
        ensures
            out == self@.expected_num_keys,
    {
        self.memtable_expected_num_keys
    }

    /// The largest number of levels that the index may have.
    pub fn memtable_allowed_max_levels(&self) -> (out: u32)
        ensures
            out == self@.allowed_max_levels,
    {
        self.memtable_allowed_max_levels
    }
}

/// Builds a [`DBConfig`] field by field, starting from the defaults.
pub struct DBConfigBuilder {
    config: DBConfig,
}

impl View for DBConfigBuilder {
    type V = DBConfigView;

    closed spec fn view(&self) -> DBConfigView {
        self.config@
    }
}

impl DBConfigBuilder {
    /// A builder that holds the defaults: probability one half, 10 000
    /// expected keys, 32 levels at most.
    pub fn new() -> (out: DBConfigBuilder)
        ensures
            out@ == (DBConfigView {
                probability: HALF,
                expected_num_keys: DEFAULT_EXPECTED_NUM_KEYS,
                allowed_max_levels: DEFAULT_ALLOWED_MAX_LEVELS,
            }),
    {
        DBConfigBuilder {
            config: DBConfig {
                memtable_probability: HALF,
                memtable_expected_num_keys: DEFAULT_EXPECTED_NUM_KEYS,
                memtable_allowed_max_levels: DEFAULT_ALLOWED_MAX_LEVELS,
            },
        }
    }

    /// The configuration as it was built.
    pub fn build(self) -> (out: DBConfig)
        ensures
            out@ == self@,
    {
        self.config
    }

    /// Sets the probability, in units of `2^-32`.
    pub fn memtable_probability(self, val: u32) -> (out: DBConfigBuilder)
        ensures
            out@ == (DBConfigView { probability: val, ..self@ }),
    {
        let mut out = self;
        out.config.memtable_probability = val;
        out
    }

    /// Sets the number of keys that the index is laid out for.
    pub fn memtable_expected_num_keys(self, val: u32) -> (out: DBConfigBuilder)
        ensures
            out@ == (DBConfigView { expected_num_keys: val, ..self@ }),
    {
        let mut out = self;
        out.config.memtable_expected_num_keys = val;
        out
    }

    /// Sets the largest number of levels that the index may have.
    pub fn memtable_allowed_max_levels(self, val: u32) -> (out: DBConfigBuilder)
        ensures
            out@ == (DBConfigView { allowed_max_levels: val, ..self@ }),
    {
        let mut out = self;
        out.config.memtable_allowed_max_levels = val;
        out
    }
}

} // verus!
