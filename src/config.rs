use vstd::prelude::*;
use crate::json::{StoredValue, ValueModel};
use crate::keymap::{KeyMap, lookup, put};

verus! {

/// A built-in extension, present whatever the user configured.
pub struct PlatformExtension {
    pub name: String,
    pub description: String,
}

impl View for PlatformExtension {
    /// Name and description.
    type V = (Seq<char>, Seq<char>);

    open spec fn view(&self) -> (Seq<char>, Seq<char>) {
        (self.name@, self.description@)
    }
}

pub open spec fn platform_view(v: Seq<PlatformExtension>) -> Seq<(Seq<char>, Seq<char>)> {
    v.map_values(|p: PlatformExtension| p@)
}

/// The configuration a process runs with: a key-value store of JSON values,
/// with a count of the writes made to it, and the list of built-in extensions.
pub struct Config {
    params: KeyMap<StoredValue>,
    writes: u64,
    platform: Vec<PlatformExtension>,
}

impl Config {
    /// The stored values, by key.
    pub closed spec fn params(&self) -> Seq<(Seq<char>, ValueModel)> {
        self.params.pairs()
    }

    /// How many writes the store has taken.
    pub closed spec fn write_count(&self) -> u64 {
        self.writes
    }

    /// The built-in extensions, as name and description.
    pub closed spec fn platform(&self) -> Seq<(Seq<char>, Seq<char>)> {
        platform_view(self.platform@)
    }

    pub open spec fn param(&self, key: Seq<char>) -> Option<ValueModel> {
        lookup(self.params(), key)
    }

    pub fn new(platform: Vec<PlatformExtension>) -> (r: Config)
        ensures
            r.params() == Seq::<(Seq<char>, ValueModel)>::empty(),
            r.write_count() == 0,
            r.platform() == platform_view(platform@),
    {
        Config { params: KeyMap::new(), writes: 0, platform }
    }

    /// Reads the value under `key`; `None` where nothing is stored there.
    pub fn get_param(&self, key: &str) -> (r: Option<&StoredValue>)
        ensures
            match r {
                Some(v) => self.param(key@) == Some(v@),
                None => self.param(key@) is None,
            },
    {
        self.params.get(key)
    }

    /// Writes `value` under `key`, replacing what was there.
    pub fn set_param(&mut self, key: &str, value: StoredValue)
        ensures
            final(self).params() == put(old(self).params(), key@, value@),
            final(self).write_count() == if old(self).write_count() < u64::MAX {
                (old(self).write_count() + 1) as u64
            } else {
                old(self).write_count()
            },
            final(self).platform() == old(self).platform(),
    {
        let k = <String as vstd::string::StringExecFns>::from_str(key);
        self.params.insert(k, value);
        if self.writes < u64::MAX {
            self.writes = self.writes + 1;
        }
    }

    pub fn writes(&self) -> (r: u64)
        ensures
            r == self.write_count(),
    {
        self.writes
    }

    pub fn platform_extensions(&self) -> (r: &Vec<PlatformExtension>)
        ensures
            platform_view(r@) == self.platform(),
    {
        &self.platform
    }
}

} // verus!
