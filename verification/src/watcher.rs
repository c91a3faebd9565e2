//! The configuration watcher.
//!
//! `Config` owns the resolved file path, the modification timestamp observed
//! at the most recent reload, and the cached scale. The caller supplies what
//! only the filesystem can tell: the file's current modification time and,
//! when a reload is due, its bytes. The watcher decides when a reload is due
//! (`needs_reload`), recomputes the cached scale from the bytes (`reload`),
//! and hands the cached value out (`get_scale`).

use vstd::prelude::*;
use vstd::string::StringExecFns;
use crate::scale::Scale;
use crate::parse::{compute_scale, scales_of, no_scales, is_max_scale};

verus! {

/// A file modification timestamp: seconds and nanoseconds since an epoch.
/// Only equality of timestamps ever matters to the watcher.
#[derive(Clone, Copy, PartialEq, Eq, Structural, Debug)]
pub struct Mtime {
    pub secs: u64,
    pub nanos: u32,
}

/// Path of the override configuration file under a home directory.
pub open spec fn override_suffix() -> Seq<char> {
    "/.config/niri/dms/outputs.kdl"@
}

/// Path of the primary configuration file under a home directory.
pub open spec fn primary_suffix() -> Seq<char> {
    "/.config/niri/config.kdl"@
}

/// The watcher over one configuration file.
pub struct Config {
    path: String,
    scale: Scale,
    mtime: Option<Mtime>,
}

impl Config {
    /// The resolved path, fixed at construction.
    pub closed spec fn spec_path(self) -> Seq<char> {
        self.path@
    }

    /// The cached scale.
    pub closed spec fn spec_scale(self) -> Scale {
        self.scale
    }

    /// The timestamp observed at the most recent reload, absent before the
    /// first one.
    pub closed spec fn spec_mtime(self) -> Option<Mtime> {
        self.mtime
    }

    /// A reload is due exactly when a timestamp is observable and differs
    /// from the cached one — in particular on the first observation.
    pub open spec fn spec_needs_reload(self, mtime: Option<Mtime>) -> bool {
        mtime is Some && mtime != self.spec_mtime()
    }

    /// Build a watcher over the configuration file under `home`: the
    /// override file when the caller found it present, the primary file
    /// otherwise. The scale starts at the safe default of one, and no
    /// timestamp has been observed yet.
    pub fn new(home: &str, use_override: bool) -> (c: Config)
        ensures
            c.spec_path() == home@ + (if use_override {
                override_suffix()
            } else {
                primary_suffix()
            }),
            c.spec_scale() == Scale::one_spec(),
            c.spec_scale().wf(),
            c.spec_mtime() is None,
    {
        let mut path = home.to_owned();
        if use_override {
            path.append("/.config/niri/dms/outputs.kdl");
        } else {
            path.append("/.config/niri/config.kdl");
        }
        Config { path, scale: Scale::one(), mtime: None }
    }

    /// The resolved path, for the caller to stat and read.
    pub fn path(&self) -> (r: &String)
        ensures
            r@ == self.spec_path(),
    {
        &self.path
    }

    /// The current effective scale: the result of the most recent successful
    /// reload, or the default of one.
    pub fn get_scale(&self) -> (r: Scale)
        ensures
            r == self.spec_scale(),
    {
        self.scale
    }

    /// Decide whether the observed modification time calls for a reload. An
    /// unobservable timestamp (missing or unreadable file) never does: the
    /// cached state stays in effect untouched.
    pub fn needs_reload(&self, mtime: &Option<Mtime>) -> (r: bool)
        ensures
            r == self.spec_needs_reload(*mtime),
    {
        match mtime {
            None => false,
            Some(m) => match &self.mtime {
                None => true,
                Some(c) => !(m.secs == c.secs && m.nanos == c.nanos),
            },
        }
    }

    /// Re-parse the file from its bytes and cache the outcome. `contents` is
    /// `None` when the file could not be read after its timestamp was
    /// observed. The scale becomes the maximum declared across all outputs;
    /// on any failure (unreadable file, no scale declarations) it falls back
    /// to the default of one. The timestamp cursor advances either way, so a
    /// broken file is not re-parsed until it next changes.
    pub fn reload(&mut self, mtime: Mtime, contents: Option<&Vec<u8>>)
        ensures
            final(self).spec_path() == old(self).spec_path(),
            final(self).spec_mtime() == Some(mtime),
            final(self).spec_scale().wf(),
            match contents {
                None => final(self).spec_scale() == Scale::one_spec(),
                Some(c) => ({
                    let m = scales_of(c@);
                    if no_scales(m) {
                        final(self).spec_scale() == Scale::one_spec()
                    } else {
                        is_max_scale(final(self).spec_scale(), m)
                    }
                }),
            },
    {
        match contents {
            None => {
                self.scale = Scale::one();
            },
            Some(c) => {
                match compute_scale(c) {
                    Some(sc) => {
                        self.scale = sc;
                    },
                    None => {
                        self.scale = Scale::one();
                    },
                }
            },
        }
        self.mtime = Some(mtime);
    }
}

/// No-op on an unchanged file: a query that observes the timestamp already
/// cached triggers no reload, so consecutive queries with no intervening
/// modification leave the watcher untouched and return the same scale.
pub proof fn lemma_unchanged_mtime_no_reload(c: Config, m: Mtime)
    requires
        c.spec_mtime() == Some(m),
    ensures
        !c.spec_needs_reload(Some(m)),
{
}

/// A file that never becomes observable (missing or unreadable) never
/// triggers a reload: a fresh watcher over it keeps the default scale of one.
pub proof fn lemma_unobservable_no_reload(c: Config)
    ensures
        !c.spec_needs_reload(None),
{
}

} // verus!
