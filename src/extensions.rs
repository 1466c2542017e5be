use vstd::prelude::*;
use vstd::string::StringExecFns;
use crate::config::{Config, PlatformExtension};
use crate::json::{EntryModel, FieldModel, JsonField, StoredEntry, StoredValue, ValueModel};
use crate::key::{key_of, name_to_key};
use crate::keymap::{
    KeyMap, delete, key_index, keys_of, lemma_lookup_append, lemma_put_unique, lemma_lookup_put, lemma_put_all_fresh, lemma_put_fresh,
    lookup, put, put_all, unique_keys, values_of,
};

verus! {

/// The extension enabled when nothing is configured.
pub const DEFAULT_EXTENSION: &'static str = "developer";

/// Seconds an extension may take to answer, unless configured otherwise.
pub const DEFAULT_EXTENSION_TIMEOUT: u64 = 300;

/// The description an extension has when none is stored.
pub const DEFAULT_EXTENSION_DESCRIPTION: &'static str = "";

/// The display name of the default extension.
pub const DEFAULT_DISPLAY_NAME: &'static str = "Developer";

/// The store key under which the extensions are kept.
pub const EXTENSIONS_CONFIG_KEY: &'static str = "extensions";

/// The configuration of one extension: its type tag, name, description, and
/// the fields of its type, which this library carries without reading. The
/// fields have distinct keys, none of them a field name that the stored form
/// of an entry reserves for itself.
pub struct ExtensionConfig {
    kind: String,
    name: String,
    description: String,
    fields: KeyMap<JsonField>,
}

pub struct ConfigModel {
    pub kind: Seq<char>,
    pub name: Seq<char>,
    pub description: Seq<char>,
    pub fields: Seq<(Seq<char>, FieldModel)>,
}

impl View for ExtensionConfig {
    type V = ConfigModel;

    closed spec fn view(&self) -> ConfigModel {
        ConfigModel {
            kind: self.kind@,
            name: self.name@,
            description: self.description@,
            fields: self.fields.pairs(),
        }
    }
}

impl ExtensionConfig {
    #[verifier::type_invariant]
    spec fn inv(self) -> bool {
        config_wf(self@)
    }

    /// A configuration from its parts; `None` where a field key repeats or is
    /// one of the reserved field names.
    pub fn new(kind: String, name: String, description: String, fields: KeyMap<JsonField>) -> (r: Option<
        ExtensionConfig,
    >)
        ensures
            r is Some <==> config_wf(
                ConfigModel { kind: kind@, name: name@, description: description@, fields: fields.pairs() },
            ),
            r is Some ==> r->Some_0@ == (ConfigModel {
                kind: kind@,
                name: name@,
                description: description@,
                fields: fields.pairs(),
            }),
    {
        let n = fields.len();
        let mut i: usize = 0;
        while i < n
            invariant
                n == fields.pairs().len(),
                i <= n,
                forall|j: int| 0 <= j < i ==> !reserved(#[trigger] fields.pairs()[j].0),
                forall|j: int| 0 <= j < i ==> key_index(fields.pairs(), #[trigger] fields.pairs()[j].0) == j,
            decreases n - i,
        {
            let k = fields.key_at(i);
            if is_reserved(k) {
                return None;
            }
            match fields.index_of(k.as_str()) {
                Some(j) => {
                    if j != i {
                        proof {
                            crate::keymap::lemma_key_index_unique_needed(fields.pairs(), i as int);
                        }
                        return None;
                    }
                },
                None => {
                    proof {
                        crate::keymap::lemma_key_index(fields.pairs(), k@);
                    }
                    return None;
                },
            }
            i = i + 1;
        }
        proof {
            let s = fields.pairs();
            assert forall|a: int, b: int| 0 <= a < b < s.len() implies s[a].0 != s[b].0 by {
                assert(key_index(s, s[a].0) == a);
                assert(key_index(s, s[b].0) == b);
            }
        }
        Some(ExtensionConfig { kind, name, description, fields })
    }

    pub fn kind(&self) -> (r: &String)
        ensures
            r@ == self@.kind,
    {
        &self.kind
    }

    pub fn description(&self) -> (r: &String)
        ensures
            r@ == self@.description,
    {
        &self.description
    }

    /// The fields of the extension's own type.
    pub fn fields(&self) -> (r: &KeyMap<JsonField>)
        ensures
            r.pairs() == self@.fields,
    {
        &self.fields
    }

    pub fn copy(&self) -> (r: ExtensionConfig)
        ensures
            r@ == self@,
    {
        proof {
            use_type_invariant(self);
        }
        ExtensionConfig {
            kind: self.kind.clone(),
            name: self.name.clone(),
            description: self.description.clone(),
            fields: self.fields.copy(),
        }
    }

    pub fn name(&self) -> (r: String)
        ensures
            r@ == self@.name,
    {
        self.name.clone()
    }

    /// The storage key: the normalized name.
    pub fn key(&self) -> (r: String)
        ensures
            r@ == key_of(self@.name),
    {
        name_to_key(self.name.as_str())
    }
}

/// An extension with its enabled flag.
pub struct ExtensionEntry {
    pub enabled: bool,
    pub config: ExtensionConfig,
}

pub struct ExtensionModel {
    pub enabled: bool,
    pub config: ConfigModel,
}

impl View for ExtensionEntry {
    type V = ExtensionModel;

    open spec fn view(&self) -> ExtensionModel {
        ExtensionModel { enabled: self.enabled, config: self.config@ }
    }
}

/// Field names that the stored form of an entry gives its own meaning.
pub open spec fn reserved(k: Seq<char>) -> bool {
    k == "enabled"@ || k == "type"@ || k == "name"@ || k == "description"@
}

/// The fields of a stored entry that belong to the extension's own type.
pub open spec fn other_fields(s: Seq<(Seq<char>, FieldModel)>) -> Seq<(Seq<char>, FieldModel)>
    decreases s.len(),
{
    if s.len() == 0 {
        s
    } else {
        let r = other_fields(s.drop_last());
        if reserved(s.last().0) {
            r
        } else {
            put(r, s.last().0, s.last().1)
        }
    }
}

/// The description of a stored entry, an absent or null one read as empty.
pub open spec fn description_field(s: Seq<(Seq<char>, FieldModel)>) -> FieldModel {
    match lookup(s, "description"@) {
        None => FieldModel::Str(Seq::empty()),
        Some(FieldModel::Null) => FieldModel::Str(Seq::empty()),
        Some(f) => f,
    }
}

/// Reads an extension from the fields of a stored object; `None` where a
/// required field is missing or of the wrong kind.
pub open spec fn decode_fields(s: Seq<(Seq<char>, FieldModel)>) -> Option<ExtensionModel> {
    match (lookup(s, "enabled"@), lookup(s, "type"@), lookup(s, "name"@), description_field(s)) {
        (
            Some(FieldModel::Bool(e)),
            Some(FieldModel::Str(t)),
            Some(FieldModel::Str(n)),
            FieldModel::Str(d),
        ) => Some(
            ExtensionModel {
                enabled: e,
                config: ConfigModel { kind: t, name: n, description: d, fields: other_fields(s) },
            },
        ),
        _ => None,
    }
}

pub open spec fn decode_extension(e: EntryModel) -> Option<ExtensionModel> {
    match e {
        EntryModel::Object(s) => decode_fields(s),
        EntryModel::Other(_) => None,
    }
}

/// The members of a stored object that read as extensions, in order; the
/// others are skipped.
pub open spec fn decode_extensions(s: Seq<(Seq<char>, EntryModel)>) -> Seq<(Seq<char>, ExtensionModel)>
    decreases s.len(),
{
    if s.len() == 0 {
        Seq::empty()
    } else {
        let r = decode_extensions(s.drop_last());
        match decode_extension(s.last().1) {
            Some(e) => put(r, s.last().0, e),
            None => r,
        }
    }
}

/// The entry that stands for a built-in extension the user has not configured.
pub open spec fn platform_entry(p: (Seq<char>, Seq<char>)) -> ExtensionModel {
    ExtensionModel {
        enabled: true,
        config: ConfigModel {
            kind: "platform"@,
            name: p.0,
            description: p.1,
            fields: put(
                put(Seq::empty(), "bundled"@, FieldModel::Bool(true)),
                "available_tools"@,
                FieldModel::Strs(Seq::empty()),
            ),
        },
    }
}

/// `m` with an entry for each built-in extension whose name is not a key yet.
pub open spec fn with_platform(
    m: Seq<(Seq<char>, ExtensionModel)>,
    p: Seq<(Seq<char>, Seq<char>)>,
) -> Seq<(Seq<char>, ExtensionModel)>
    decreases p.len(),
{
    if p.len() == 0 {
        m
    } else {
        let r = with_platform(m, p.drop_last());
        if lookup(r, p.last().0) is Some {
            r
        } else {
            put(r, p.last().0, platform_entry(p.last()))
        }
    }
}

/// The extensions that a load finds, given what the store holds.
pub open spec fn loaded_extensions(
    stored: Option<ValueModel>,
    p: Seq<(Seq<char>, Seq<char>)>,
) -> Seq<(Seq<char>, ExtensionModel)> {
    let m = match stored {
        Some(ValueModel::Object(s)) => decode_extensions(s),
        _ => Seq::empty(),
    };
    if m.len() == 0 {
        m
    } else {
        with_platform(m, p)
    }
}

/// The extensions that a load from `c` finds.
pub open spec fn extensions_in(c: Config) -> Seq<(Seq<char>, ExtensionModel)> {
    loaded_extensions(c.param(EXTENSIONS_CONFIG_KEY@), c.platform())
}

/// The stored fields of an entry, before those of its type.
pub open spec fn base_fields(e: ExtensionModel) -> Seq<(Seq<char>, FieldModel)> {
    put(
        put(
            put(
                put(Seq::empty(), "enabled"@, FieldModel::Bool(e.enabled)),
                "type"@,
                FieldModel::Str(e.config.kind),
            ),
            "name"@,
            FieldModel::Str(e.config.name),
        ),
        "description"@,
        FieldModel::Str(e.config.description),
    )
}

/// The stored form of an entry.
pub open spec fn encode_extension(e: ExtensionModel) -> EntryModel {
    EntryModel::Object(put_all(base_fields(e), e.config.fields))
}

pub open spec fn encode_extensions(s: Seq<(Seq<char>, ExtensionModel)>) -> Seq<(Seq<char>, EntryModel)>
    decreases s.len(),
{
    if s.len() == 0 {
        Seq::empty()
    } else {
        put(encode_extensions(s.drop_last()), s.last().0, encode_extension(s.last().1))
    }
}

/// The store after the extensions `m` are saved to `c`.
pub open spec fn saved_extensions(
    c: Seq<(Seq<char>, ValueModel)>,
    m: Seq<(Seq<char>, ExtensionModel)>,
) -> Seq<(Seq<char>, ValueModel)> {
    put(c, EXTENSIONS_CONFIG_KEY@, ValueModel::Object(encode_extensions(m)))
}

fn is_reserved(k: &String) -> (r: bool)
    ensures
        r == reserved(k@),
{
    *k == String::from_str("enabled") || *k == String::from_str("type") || *k
        == String::from_str("name") || *k == String::from_str("description")
}

fn decode_object(m: &KeyMap<JsonField>) -> (r: Option<ExtensionEntry>)
    ensures
        match r {
            Some(e) => decode_fields(m.pairs()) == Some(e@),
            None => decode_fields(m.pairs()) is None,
        },
{
    let enabled = match m.get("enabled") {
        Some(JsonField::Bool(b)) => *b,
        _ => return None,
    };
    let kind = match m.get("type") {
        Some(JsonField::Str(t)) => t.clone(),
        _ => return None,
    };
    let name = match m.get("name") {
        Some(JsonField::Str(n)) => n.clone(),
        _ => return None,
    };
    let description = match m.get("description") {
        None => String::new(),
        Some(JsonField::Null) => String::new(),
        Some(JsonField::Str(d)) => d.clone(),
        _ => return None,
    };
    let mut fields: KeyMap<JsonField> = KeyMap::new();
    let n = m.len();
    let mut i: usize = 0;
    while i < n
        invariant
            n == m.pairs().len(),
            i <= n,
            fields.pairs() == other_fields(m.pairs().take(i as int)),
        decreases n - i,
    {
        proof {
            assert(m.pairs().take(i as int + 1).drop_last() =~= m.pairs().take(i as int));
        }
        let k = m.key_at(i);
        if !is_reserved(k) {
            fields.insert(k.clone(), m.value_at(i).copy());
        }
        i = i + 1;
    }
    assert(m.pairs().take(n as int) =~= m.pairs());
    proof {
        lemma_other_fields_wf(m.pairs());
    }
    Some(ExtensionEntry { enabled, config: ExtensionConfig { kind, name, description, fields } })
}

/// Reads one stored member as an extension; `None` where it is malformed.
pub fn parse_extension(e: &StoredEntry) -> (r: Option<ExtensionEntry>)
    ensures
        match r {
            Some(x) => decode_extension(e@) == Some(x@),
            None => decode_extension(e@) is None,
        },
{
    match e {
        StoredEntry::Object(m) => decode_object(m),
        StoredEntry::Other(_) => None,
    }
}

fn platform_extension_entry(p: &PlatformExtension) -> (r: ExtensionEntry)
    ensures
        r@ == platform_entry(p@),
{
    let mut fields: KeyMap<JsonField> = KeyMap::new();
    fields.insert(String::from_str("bundled"), JsonField::Bool(true));
    fields.insert(String::from_str("available_tools"), JsonField::Strs(Vec::new()));
    proof {
        assert(crate::json::strings_view(Seq::<String>::empty()) =~= Seq::<Seq<char>>::empty());
        lemma_platform_entry_wf(p@);
    }
    ExtensionEntry {
        enabled: true,
        config: ExtensionConfig {
            kind: String::from_str("platform"),
            name: p.name.clone(),
            description: p.description.clone(),
            fields,
        },
    }
}

/// Loads the extensions from the store. A missing or non-object value reads
/// as no extensions, a malformed member is skipped, and where any extension
/// was read the built-in ones that are missing are added.
pub fn get_extensions_map(config: &Config) -> (r: KeyMap<ExtensionEntry>)
    ensures
        r.pairs() == extensions_in(*config),
{
    let mut m: KeyMap<ExtensionEntry> = KeyMap::new();
    match config.get_param(EXTENSIONS_CONFIG_KEY) {
        Some(StoredValue::Object(obj)) => {
            let n = obj.len();
            let mut i: usize = 0;
            while i < n
                invariant
                    n == obj.pairs().len(),
                    i <= n,
                    m.pairs() == decode_extensions(obj.pairs().take(i as int)),
                decreases n - i,
            {
                proof {
                    assert(obj.pairs().take(i as int + 1).drop_last() =~= obj.pairs().take(i as int));
                }
                match parse_extension(obj.value_at(i)) {
                    Some(e) => {
                        m.insert(obj.key_at(i).clone(), e);
                    },
                    None => {},
                }
                i = i + 1;
            }
            assert(obj.pairs().take(n as int) =~= obj.pairs());
        },
        _ => {
            assert(m.pairs() =~= Seq::<(Seq<char>, ExtensionModel)>::empty());
        },
    }
    if m.is_empty() {
        return m;
    }
    let ghost found = m.pairs();
    let platform = config.platform_extensions();
    let pn = platform.len();
    let mut j: usize = 0;
    while j < pn
        invariant
            pn == config.platform().len(),
            crate::config::platform_view(platform@) == config.platform(),
            j <= pn,
            m.pairs() == with_platform(found, config.platform().take(j as int)),
        decreases pn - j,
    {
        proof {
            assert(config.platform().take(j as int + 1).drop_last() =~= config.platform().take(j as int));
        }
        let p = &platform[j];
        if m.index_of(p.name.as_str()).is_none() {
            m.insert(p.name.clone(), platform_extension_entry(p));
        }
        j = j + 1;
    }
    assert(config.platform().take(pn as int) =~= config.platform());
    m
}

fn encode_extension_entry(e: &ExtensionEntry) -> (r: StoredEntry)
    ensures
        r@ == encode_extension(e@),
{
    let mut m: KeyMap<JsonField> = KeyMap::new();
    m.insert(String::from_str("enabled"), JsonField::Bool(e.enabled));
    m.insert(String::from_str("type"), JsonField::Str(e.config.kind.clone()));
    m.insert(String::from_str("name"), JsonField::Str(e.config.name.clone()));
    m.insert(String::from_str("description"), JsonField::Str(e.config.description.clone()));
    let ghost base = m.pairs();
    let f = &e.config.fields;
    let n = f.len();
    let mut i: usize = 0;
    while i < n
        invariant
            n == f.pairs().len(),
            i <= n,
            m.pairs() == put_all(base, f.pairs().take(i as int)),
        decreases n - i,
    {
        proof {
            assert(f.pairs().take(i as int + 1).drop_last() =~= f.pairs().take(i as int));
        }
        m.insert(f.key_at(i).clone(), f.value_at(i).copy());
        i = i + 1;
    }
    assert(f.pairs().take(n as int) =~= f.pairs());
    StoredEntry::Object(m)
}

/// Writes the extensions to the store, in one write.
pub fn save_extensions_map(config: &mut Config, extensions: &KeyMap<ExtensionEntry>)
    ensures
        final(config).params() == saved_extensions(old(config).params(), extensions.pairs()),
        final(config).write_count() == bumped(old(config).write_count()),
        final(config).platform() == old(config).platform(),
        unique_keys(extensions.pairs()),
        forall|j: int| 0 <= j < extensions.pairs().len() ==> config_wf(#[trigger] extensions.pairs()[j].1.config),
{
    let mut out: KeyMap<StoredEntry> = KeyMap::new();
    let n = extensions.len();
    let mut i: usize = 0;
    while i < n
        invariant
            n == extensions.pairs().len(),
            i <= n,
            out.pairs() == encode_extensions(extensions.pairs().take(i as int)),
            forall|j: int| 0 <= j < i ==> config_wf(#[trigger] extensions.pairs()[j].1.config),
        decreases n - i,
    {
        let e = extensions.value_at(i);
        proof {
            use_type_invariant(&e.config);
        }
        proof {
            assert(extensions.pairs().take(i as int + 1).drop_last() =~= extensions.pairs().take(i as int));
        }
        out.insert(extensions.key_at(i).clone(), encode_extension_entry(e));
        i = i + 1;
    }
    assert(extensions.pairs().take(n as int) =~= extensions.pairs());
    config.set_param(EXTENSIONS_CONFIG_KEY, StoredValue::Object(out));
}

/// The write count after one more write.
pub open spec fn bumped(w: u64) -> u64 {
    if w < u64::MAX {
        (w + 1) as u64
    } else {
        w
    }
}

/// The configuration of the first extension, in load order, named `n`.
pub open spec fn first_named(s: Seq<(Seq<char>, ExtensionModel)>, n: Seq<char>) -> Option<ConfigModel>
    decreases s.len(),
{
    if s.len() == 0 {
        None
    } else {
        let r = first_named(s.drop_last(), n);
        if r is Some {
            r
        } else if s.last().1.config.name == n {
            Some(s.last().1.config)
        } else {
            None
        }
    }
}

/// The configurations of the enabled extensions, in order.
pub open spec fn enabled_configs(s: Seq<(Seq<char>, ExtensionModel)>) -> Seq<ConfigModel>
    decreases s.len(),
{
    if s.len() == 0 {
        Seq::empty()
    } else {
        let r = enabled_configs(s.drop_last());
        if s.last().1.enabled {
            r.push(s.last().1.config)
        } else {
            r
        }
    }
}

pub open spec fn with_enabled(e: ExtensionModel, enabled: bool) -> ExtensionModel {
    ExtensionModel { enabled, config: e.config }
}

/// Whether the extension under `k` is present and enabled.
pub open spec fn enabled_in(s: Seq<(Seq<char>, ExtensionModel)>, k: Seq<char>) -> bool {
    match lookup(s, k) {
        Some(e) => e.enabled,
        None => false,
    }
}

/// The configuration of the first extension, in load order, whose name is `name`.
pub fn get_extension_by_name(config: &Config, name: &str) -> (r: Option<ExtensionConfig>)
    ensures
        match r {
            Some(c) => first_named(extensions_in(*config), name@) == Some(c@),
            None => first_named(extensions_in(*config), name@) is None,
        },
{
    let m = get_extensions_map(config);
    let target = String::from_str(name);
    let n = m.len();
    let mut found: Option<usize> = None;
    let mut i: usize = 0;
    while i < n
        invariant
            n == m.pairs().len(),
            i <= n,
            target@ == name@,
            match found {
                Some(j) => j < i && first_named(m.pairs().take(i as int), name@) == Some(
                    m.pairs()[j as int].1.config,
                ),
                None => first_named(m.pairs().take(i as int), name@) is None,
            },
        decreases n - i,
    {
        proof {
            assert(m.pairs().take(i as int + 1).drop_last() =~= m.pairs().take(i as int));
        }
        if found.is_none() && m.value_at(i).config.name == target {
            found = Some(i);
        }
        i = i + 1;
    }
    assert(m.pairs().take(n as int) =~= m.pairs());
    match found {
        Some(j) => Some(m.value_at(j).config.copy()),
        None => None,
    }
}

/// Adds the entry under the key of its name, replacing any entry there, and saves.
pub fn set_extension(config: &mut Config, entry: ExtensionEntry)
    ensures
        final(config).params() == saved_extensions(
            old(config).params(),
            put(extensions_in(*old(config)), key_of(entry.config@.name), entry@),
        ),
        final(config).write_count() == bumped(old(config).write_count()),
        final(config).platform() == old(config).platform(),
        config_wf(entry.config@),
{
    proof {
        use_type_invariant(&entry.config);
    }
    let mut m = get_extensions_map(config);
    let key = entry.config.key();
    m.insert(key, entry);
    save_extensions_map(config, &m);
}

/// Removes the extension under `key`, if any, and saves in either case.
pub fn remove_extension(config: &mut Config, key: &str)
    ensures
        final(config).params() == saved_extensions(
            old(config).params(),
            delete(extensions_in(*old(config)), key@),
        ),
        final(config).write_count() == bumped(old(config).write_count()),
        final(config).platform() == old(config).platform(),
{
    let mut m = get_extensions_map(config);
    m.remove(key);
    save_extensions_map(config, &m);
}

/// Sets the enabled flag of the extension at position `i` of `m`, in place.
pub(crate) fn set_enabled_at(m: &mut KeyMap<ExtensionEntry>, i: usize, enabled: bool)
    requires
        i < old(m).pairs().len(),
    ensures
        final(m).pairs() == old(m).pairs().update(
            i as int,
            (old(m).pairs()[i as int].0, with_enabled(old(m).pairs()[i as int].1, enabled)),
        ),
{
    let ghost before = m.pairs();
    let (k, mut e) = m.remove_at(i);
    e.enabled = enabled;
    m.insert_at(i, k, e);
    assert(m.pairs() =~= before.update(i as int, (before[i as int].0, with_enabled(before[i as int].1, enabled))));
}

/// Sets the enabled flag of the extension under `key` and saves; where there
/// is no such extension, nothing is written.
pub fn set_extension_enabled(config: &mut Config, key: &str, enabled: bool)
    ensures
        match lookup(extensions_in(*old(config)), key@) {
            Some(e) => {
                &&& final(config).params() == saved_extensions(
                    old(config).params(),
                    put(extensions_in(*old(config)), key@, with_enabled(e, enabled)),
                )
                &&& final(config).write_count() == bumped(old(config).write_count())
            },
            None => {
                &&& final(config).params() == old(config).params()
                &&& final(config).write_count() == old(config).write_count()
            },
        },
        final(config).platform() == old(config).platform(),
{
    let mut m = get_extensions_map(config);
    match m.index_of(key) {
        Some(i) => {
            proof {
                crate::keymap::lemma_key_index(m.pairs(), key@);
            }
            set_enabled_at(&mut m, i, enabled);
            save_extensions_map(config, &m);
        },
        None => {},
    }
}

/// All extensions, in load order.
pub fn get_all_extensions(config: &Config) -> (r: Vec<ExtensionEntry>)
    ensures
        r@.map_values(|e: ExtensionEntry| e@) == values_of(extensions_in(*config)),
{
    get_extensions_map(config).into_values()
}

/// The keys of all extensions, in load order.
pub fn get_all_extension_names(config: &Config) -> (r: Vec<String>)
    ensures
        r@.map_values(|s: String| s@) == keys_of(extensions_in(*config)),
{
    get_extensions_map(config).keys()
}

/// Whether the extension under `key` exists and is enabled.
pub fn is_extension_enabled(config: &Config, key: &str) -> (r: bool)
    ensures
        r == enabled_in(extensions_in(*config), key@),
{
    let m = get_extensions_map(config);
    match m.get(key) {
        Some(e) => e.enabled,
        None => false,
    }
}

/// The configurations of the enabled extensions, in load order.
pub fn get_enabled_extensions(config: &Config) -> (r: Vec<ExtensionConfig>)
    ensures
        r@.map_values(|c: ExtensionConfig| c@) == enabled_configs(extensions_in(*config)),
{
    let m = get_extensions_map(config);
    let mut r: Vec<ExtensionConfig> = Vec::new();
    let n = m.len();
    let mut i: usize = 0;
    while i < n
        invariant
            n == m.pairs().len(),
            i <= n,
            r@.map_values(|c: ExtensionConfig| c@) == enabled_configs(m.pairs().take(i as int)),
        decreases n - i,
    {
        proof {
            assert(m.pairs().take(i as int + 1).drop_last() =~= m.pairs().take(i as int));
        }
        let e = m.value_at(i);
        if e.enabled {
            let ghost prev = r@;
            let c = e.config.copy();
            r.push(c);
            assert(r@.map_values(|c: ExtensionConfig| c@) =~= prev.map_values(|c: ExtensionConfig| c@).push(c@));
        }
        i = i + 1;
    }
    assert(m.pairs().take(n as int) =~= m.pairs());
    r
}

/// The fields of the configuration have distinct keys, none of them one that
/// the stored form of an entry reserves.
pub open spec fn config_wf(c: ConfigModel) -> bool {
    &&& unique_keys(c.fields)
    &&& forall|i: int| 0 <= i < c.fields.len() ==> !reserved(#[trigger] c.fields[i].0)
}

proof fn lemma_base_fields(e: ExtensionModel)
    ensures
        base_fields(e) == seq![
            ("enabled"@, FieldModel::Bool(e.enabled)),
            ("type"@, FieldModel::Str(e.config.kind)),
            ("name"@, FieldModel::Str(e.config.name)),
            ("description"@, FieldModel::Str(e.config.description)),
        ],
{
    reveal_strlit("enabled");
    reveal_strlit("type");
    reveal_strlit("name");
    reveal_strlit("description");
    let s0 = Seq::<(Seq<char>, FieldModel)>::empty();
    lemma_put_fresh(s0, "enabled"@, FieldModel::Bool(e.enabled));
    let s1 = s0.push(("enabled"@, FieldModel::Bool(e.enabled)));
    assert("enabled"@[0] != "type"@[0]);
    assert("enabled"@ != "type"@);
    lemma_put_fresh(s1, "type"@, FieldModel::Str(e.config.kind));
    let s2 = s1.push(("type"@, FieldModel::Str(e.config.kind)));
    assert("enabled"@[0] != "name"@[0]);
    assert("enabled"@ != "name"@);
    assert("type"@ != "name"@);
    lemma_put_fresh(s2, "name"@, FieldModel::Str(e.config.name));
    let s3 = s2.push(("name"@, FieldModel::Str(e.config.name)));
    assert("enabled"@ != "description"@);
    assert("type"@ != "description"@);
    assert("name"@ != "description"@);
    lemma_put_fresh(s3, "description"@, FieldModel::Str(e.config.description));
    assert(s3.push(("description"@, FieldModel::Str(e.config.description))) =~= seq![
        ("enabled"@, FieldModel::Bool(e.enabled)),
        ("type"@, FieldModel::Str(e.config.kind)),
        ("name"@, FieldModel::Str(e.config.name)),
        ("description"@, FieldModel::Str(e.config.description)),
    ]);
}

proof fn lemma_other_fields_of_reserved(b: Seq<(Seq<char>, FieldModel)>)
    requires
        forall|i: int| 0 <= i < b.len() ==> reserved(#[trigger] b[i].0),
    ensures
        other_fields(b) == Seq::<(Seq<char>, FieldModel)>::empty(),
    decreases b.len(),
{
    if b.len() > 0 {
        lemma_other_fields_of_reserved(b.drop_last());
    }
}

proof fn lemma_other_fields_append(b: Seq<(Seq<char>, FieldModel)>, f: Seq<(Seq<char>, FieldModel)>)
    requires
        forall|i: int| 0 <= i < b.len() ==> reserved(#[trigger] b[i].0),
        unique_keys(f),
        forall|i: int| 0 <= i < f.len() ==> !reserved(#[trigger] f[i].0),
    ensures
        other_fields(b + f) == f,
    decreases f.len(),
{
    if f.len() == 0 {
        assert(b + f =~= b);
        lemma_other_fields_of_reserved(b);
        assert(f =~= Seq::<(Seq<char>, FieldModel)>::empty());
    } else {
        let f2 = f.drop_last();
        assert((b + f).drop_last() =~= b + f2);
        assert((b + f).last() == f.last());
        assert(!reserved(f[f.len() - 1].0));
        lemma_other_fields_append(b, f2);
        lemma_put_fresh(f2, f.last().0, f.last().1);
        assert(f2.push((f.last().0, f.last().1)) =~= f);
    }
}

/// An entry whose configuration is well formed reads back from its stored form.
pub proof fn lemma_decode_encode(e: ExtensionModel)
    requires
        config_wf(e.config),
    ensures
        decode_extension(encode_extension(e)) == Some(e),
{
    lemma_base_fields(e);
    let b = base_fields(e);
    let f = e.config.fields;
    reveal_strlit("enabled");
    reveal_strlit("type");
    reveal_strlit("name");
    reveal_strlit("description");
    assert forall|i: int, j: int| 0 <= i < b.len() && 0 <= j < f.len() implies b[i].0 != f[j].0 by {
        assert(!reserved(f[j].0));
    }
    lemma_put_all_fresh(b, f);
    let s = b + f;
    assert forall|i: int| 0 <= i < b.len() implies reserved(#[trigger] b[i].0) by {}
    lemma_other_fields_append(b, f);
    assert forall|j: int| 0 <= j < f.len() implies f[j].0 != "enabled"@ && f[j].0 != "type"@
        && f[j].0 != "name"@ && f[j].0 != "description"@ by {
        assert(!reserved(f[j].0));
    }
    lemma_lookup_append(b, f, "enabled"@);
    lemma_lookup_append(b, f, "type"@);
    lemma_lookup_append(b, f, "name"@);
    lemma_lookup_append(b, f, "description"@);
    assert(b.drop_last().drop_last().drop_last().drop_last() =~= Seq::<(Seq<char>, FieldModel)>::empty());
    assert("enabled"@[0] != "type"@[0]);
    assert("enabled"@ != "type"@);
    assert("enabled"@[0] != "name"@[0]);
    assert("enabled"@ != "name"@);
    assert("type"@ != "name"@);
    assert("enabled"@ != "description"@);
    assert("type"@ != "description"@);
    assert("name"@ != "description"@);
    assert(unique_keys(b));
    crate::keymap::lemma_key_index_unique(b, 0);
    crate::keymap::lemma_key_index_unique(b, 1);
    crate::keymap::lemma_key_index_unique(b, 2);
    crate::keymap::lemma_key_index_unique(b, 3);
    assert(lookup(b, "enabled"@) == Some(FieldModel::Bool(e.enabled)));
    assert(lookup(b, "type"@) == Some(FieldModel::Str(e.config.kind)));
    assert(lookup(b, "name"@) == Some(FieldModel::Str(e.config.name)));
    assert(lookup(b, "description"@) == Some(FieldModel::Str(e.config.description)));
}

proof fn lemma_encode_extensions_unique(m: Seq<(Seq<char>, ExtensionModel)>)
    requires
        unique_keys(m),
    ensures
        encode_extensions(m).len() == m.len(),
        forall|i: int| 0 <= i < m.len() ==> #[trigger] encode_extensions(m)[i] == (m[i].0, encode_extension(m[i].1)),
    decreases m.len(),
{
    if m.len() > 0 {
        let m2 = m.drop_last();
        lemma_encode_extensions_unique(m2);
        let r = encode_extensions(m2);
        assert forall|j: int| 0 <= j < r.len() implies r[j].0 != m.last().0 by {
            assert(r[j].0 == m[j].0);
        }
        lemma_put_fresh(r, m.last().0, encode_extension(m.last().1));
        assert forall|i: int| 0 <= i < m.len() implies #[trigger] encode_extensions(m)[i] == (m[i].0, encode_extension(m[i].1)) by {
            if i < m2.len() {
                assert(m2[i] == m[i]);
            }
        }
    }
}

proof fn lemma_decode_extensions_prefix(m: Seq<(Seq<char>, ExtensionModel)>, n: int)
    requires
        unique_keys(m),
        forall|i: int| 0 <= i < m.len() ==> config_wf(#[trigger] m[i].1.config),
        0 <= n <= m.len(),
    ensures
        decode_extensions(encode_extensions(m).take(n)) == m.take(n),
    decreases n,
{
    lemma_encode_extensions_unique(m);
    let s = encode_extensions(m);
    if n == 0 {
        assert(s.take(0) =~= Seq::<(Seq<char>, EntryModel)>::empty());
        assert(m.take(0) =~= Seq::<(Seq<char>, ExtensionModel)>::empty());
    } else {
        lemma_decode_extensions_prefix(m, n - 1);
        assert(s.take(n).drop_last() =~= s.take(n - 1));
        assert(s.take(n).last() == s[n - 1]);
        lemma_decode_encode(m[n - 1].1);
        let r = m.take(n - 1);
        assert forall|j: int| 0 <= j < r.len() implies r[j].0 != m[n - 1].0 by {}
        lemma_put_fresh(r, m[n - 1].0, m[n - 1].1);
        assert(r.push((m[n - 1].0, m[n - 1].1)) =~= m.take(n));
    }
}

/// Saving extensions and loading them back gives the same extensions, with
/// the built-in ones that are missing added where there is at least one.
pub proof fn lemma_save_then_load(before: Config, after: Config, m: Seq<(Seq<char>, ExtensionModel)>)
    requires
        unique_keys(m),
        forall|i: int| 0 <= i < m.len() ==> config_wf(#[trigger] m[i].1.config),
        after.params() == saved_extensions(before.params(), m),
        after.platform() == before.platform(),
    ensures
        extensions_in(after) == if m.len() == 0 {
            m
        } else {
            with_platform(m, before.platform())
        },
{
    lemma_lookup_put(before.params(), EXTENSIONS_CONFIG_KEY@, ValueModel::Object(encode_extensions(m)));
    lemma_encode_extensions_unique(m);
    lemma_decode_extensions_prefix(m, m.len() as int);
    assert(encode_extensions(m).take(m.len() as int) =~= encode_extensions(m));
    assert(m.take(m.len() as int) =~= m);
}

/// The merge of the built-in extensions keeps every entry already there, adds
/// one for each built-in name, and adds nothing else.
pub proof fn lemma_with_platform(m: Seq<(Seq<char>, ExtensionModel)>, p: Seq<(Seq<char>, Seq<char>)>)
    requires
        unique_keys(m),
    ensures
        unique_keys(with_platform(m, p)),
        forall|k: Seq<char>| lookup(m, k) is Some ==> #[trigger] lookup(with_platform(m, p), k) == lookup(m, k),
        forall|i: int| 0 <= i < p.len() ==> lookup(with_platform(m, p), #[trigger] p[i].0) is Some,
        forall|k: Seq<char>|
            #[trigger] lookup(with_platform(m, p), k) is Some && lookup(m, k) is None ==> exists|i: int|
                0 <= i < p.len() && p[i].0 == k,
    decreases p.len(),
{
    if p.len() > 0 {
        let p2 = p.drop_last();
        lemma_with_platform(m, p2);
        let r = with_platform(m, p2);
        let q = p.last();
        if lookup(r, q.0) is None {
            lemma_put_unique(r, q.0, platform_entry(q));
        }
        let w = with_platform(m, p);
        assert forall|k: Seq<char>| lookup(m, k) is Some implies #[trigger] lookup(w, k) == lookup(m, k) by {
            assert(lookup(r, k) == lookup(m, k));
            if k == q.0 {
                assert(lookup(r, q.0) is Some);
            }
        }
        assert forall|i: int| 0 <= i < p.len() implies lookup(w, #[trigger] p[i].0) is Some by {
            if i < p2.len() {
                assert(p2[i] == p[i]);
            }
        }
        assert forall|k: Seq<char>| #[trigger] lookup(w, k) is Some && lookup(m, k) is None implies exists|i: int|
            0 <= i < p.len() && p[i].0 == k by {
            if k != q.0 {
                assert(lookup(r, k) == lookup(w, k));
                assert(lookup(r, k) is Some);
                let i = choose|i: int| 0 <= i < p2.len() && p2[i].0 == k;
                assert(p[i] == p2[i]);
            } else {
                assert(p[p.len() - 1].0 == k);
            }
        }
    }
}

/// The built-in extensions have distinct names.
pub open spec fn distinct_names(p: Seq<(Seq<char>, Seq<char>)>) -> bool {
    forall|i: int, j: int| 0 <= i < j < p.len() ==> p[i].0 != p[j].0
}

/// With distinct built-in names, each built-in that `m` lacks is added as
/// its platform entry.
pub proof fn lemma_with_platform_entry(m: Seq<(Seq<char>, ExtensionModel)>, p: Seq<(Seq<char>, Seq<char>)>)
    requires
        unique_keys(m),
        distinct_names(p),
    ensures
        forall|i: int|
            0 <= i < p.len() && lookup(m, p[i].0) is None ==> #[trigger] lookup(with_platform(m, p), p[i].0)
                == Some(platform_entry(p[i])),
    decreases p.len(),
{
    if p.len() > 0 {
        let p2 = p.drop_last();
        lemma_with_platform_entry(m, p2);
        lemma_with_platform(m, p2);
        let r = with_platform(m, p2);
        let q = p.last();
        let w = with_platform(m, p);
        if lookup(r, q.0) is None {
            lemma_put_unique(r, q.0, platform_entry(q));
        }
        assert forall|i: int| 0 <= i < p.len() && lookup(m, p[i].0) is None implies #[trigger] lookup(w, p[i].0)
            == Some(platform_entry(p[i])) by {
            if i < p2.len() {
                assert(p2[i] == p[i]);
                assert(p[i].0 != q.0);
            } else {
                if lookup(r, q.0) is Some {
                    let j = choose|j: int| 0 <= j < p2.len() && p2[j].0 == q.0;
                    assert(p[j] == p2[j]);
                }
            }
        }
    }
}

/// What a load finds has no key twice.
pub proof fn lemma_decoded_unique(s: Seq<(Seq<char>, EntryModel)>)
    ensures
        unique_keys(decode_extensions(s)),
    decreases s.len(),
{
    if s.len() > 0 {
        lemma_decoded_unique(s.drop_last());
        let r = decode_extensions(s.drop_last());
        match decode_extension(s.last().1) {
            Some(e) => lemma_put_unique(r, s.last().0, e),
            None => {},
        }
    }
}

/// Where the store holds at least one extension that reads, a load finds
/// each of those, and an entry for every built-in extension.
pub proof fn lemma_load_adds_platform(c: Config)
    requires
        match c.param(EXTENSIONS_CONFIG_KEY@) {
            Some(ValueModel::Object(s)) => decode_extensions(s).len() > 0,
            _ => false,
        },
    ensures
        forall|k: Seq<char>|
            #![trigger lookup(extensions_in(c), k)]
            match c.param(EXTENSIONS_CONFIG_KEY@) {
                Some(ValueModel::Object(s)) => lookup(decode_extensions(s), k) is Some ==> lookup(extensions_in(c), k)
                    == lookup(decode_extensions(s), k),
                _ => true,
            },
        forall|i: int| 0 <= i < c.platform().len() ==> lookup(extensions_in(c), #[trigger] c.platform()[i].0) is Some,
        distinct_names(c.platform()) ==> forall|i: int|
            0 <= i < c.platform().len() && match c.param(EXTENSIONS_CONFIG_KEY@) {
                Some(ValueModel::Object(s)) => lookup(decode_extensions(s), c.platform()[i].0) is None,
                _ => false,
            } ==> lookup(extensions_in(c), #[trigger] c.platform()[i].0) == Some(platform_entry(c.platform()[i])),
{
    match c.param(EXTENSIONS_CONFIG_KEY@) {
        Some(ValueModel::Object(s)) => {
            lemma_decoded_unique(s);
            lemma_with_platform(decode_extensions(s), c.platform());
            if distinct_names(c.platform()) {
                lemma_with_platform_entry(decode_extensions(s), c.platform());
            }
        },
        _ => {},
    }
}

/// Enabling or disabling an extension that is not there leaves the store as it
/// was, and it still reads as not enabled.
pub proof fn lemma_toggle_missing_is_noop(before: Config, after: Config, key: Seq<char>)
    requires
        lookup(extensions_in(before), key) is None,
        after.params() == before.params(),
        after.platform() == before.platform(),
    ensures
        extensions_in(after) == extensions_in(before),
        !enabled_in(extensions_in(after), key),
{
}

proof fn lemma_other_fields_wf(s: Seq<(Seq<char>, FieldModel)>)
    ensures
        unique_keys(other_fields(s)),
        forall|i: int| 0 <= i < other_fields(s).len() ==> !reserved(#[trigger] other_fields(s)[i].0),
    decreases s.len(),
{
    if s.len() > 0 {
        lemma_other_fields_wf(s.drop_last());
        let r = other_fields(s.drop_last());
        let k = s.last().0;
        if !reserved(k) {
            lemma_put_unique(r, k, s.last().1);
            crate::keymap::lemma_key_index(r, k);
            let t = put(r, k, s.last().1);
            assert forall|i: int| 0 <= i < t.len() implies !reserved(#[trigger] t[i].0) by {
                if i < r.len() && i != key_index(r, k) {
                    assert(t[i] == r[i]);
                }
            }
        }
    }
}

proof fn lemma_platform_entry_wf(p: (Seq<char>, Seq<char>))
    ensures
        config_wf(platform_entry(p).config),
{
    reveal_strlit("bundled");
    reveal_strlit("available_tools");
    reveal_strlit("enabled");
    reveal_strlit("type");
    reveal_strlit("name");
    reveal_strlit("description");
    let s0 = Seq::<(Seq<char>, FieldModel)>::empty();
    lemma_put_fresh(s0, "bundled"@, FieldModel::Bool(true));
    let s1 = s0.push(("bundled"@, FieldModel::Bool(true)));
    assert("bundled"@[0] != "available_tools"@[0]);
    lemma_put_fresh(s1, "available_tools"@, FieldModel::Strs(Seq::empty()));
    let f = platform_entry(p).config.fields;
    assert(f == s1.push(("available_tools"@, FieldModel::Strs(Seq::empty()))));
    assert("bundled"@[0] != "enabled"@[0]);
    assert("bundled"@[0] != "type"@[0]);
    assert("bundled"@[0] != "name"@[0]);
    assert("bundled"@[0] != "description"@[0]);
    assert("available_tools"@[0] != "enabled"@[0]);
    assert("available_tools"@[0] != "type"@[0]);
    assert("available_tools"@[0] != "name"@[0]);
    assert("available_tools"@[0] != "description"@[0]);
    assert(!reserved(f[0].0));
    assert(!reserved(f[1].0));
}

/// What a load finds has distinct keys, and every configuration in it is well
/// formed, so the round trip of saving and loading applies to it.
pub proof fn lemma_loaded_wf(c: Config)
    ensures
        unique_keys(extensions_in(c)),
        forall|i: int| 0 <= i < extensions_in(c).len() ==> config_wf(#[trigger] extensions_in(c)[i].1.config),
{
    match c.param(EXTENSIONS_CONFIG_KEY@) {
        Some(ValueModel::Object(s)) => {
            lemma_decoded_wf(s);
            lemma_with_platform_wf(decode_extensions(s), c.platform());
            lemma_with_platform(decode_extensions(s), c.platform());
        },
        _ => {},
    }
}

proof fn lemma_put_wf(m: Seq<(Seq<char>, ExtensionModel)>, k: Seq<char>, e: ExtensionModel)
    requires
        unique_keys(m),
        forall|i: int| 0 <= i < m.len() ==> config_wf(#[trigger] m[i].1.config),
        config_wf(e.config),
    ensures
        unique_keys(put(m, k, e)),
        forall|i: int| 0 <= i < put(m, k, e).len() ==> config_wf(#[trigger] put(m, k, e)[i].1.config),
{
    lemma_put_unique(m, k, e);
    crate::keymap::lemma_key_index(m, k);
    let t = put(m, k, e);
    assert forall|i: int| 0 <= i < t.len() implies config_wf(#[trigger] t[i].1.config) by {
        if i < m.len() && i != key_index(m, k) {
            assert(t[i] == m[i]);
        }
    }
}

proof fn lemma_decoded_wf(s: Seq<(Seq<char>, EntryModel)>)
    ensures
        unique_keys(decode_extensions(s)),
        forall|i: int| 0 <= i < decode_extensions(s).len() ==> config_wf(#[trigger] decode_extensions(s)[i].1.config),
    decreases s.len(),
{
    if s.len() > 0 {
        lemma_decoded_wf(s.drop_last());
        let r = decode_extensions(s.drop_last());
        match s.last().1 {
            EntryModel::Object(f) => {
                lemma_other_fields_wf(f);
            },
            _ => {},
        }
        match decode_extension(s.last().1) {
            Some(e) => lemma_put_wf(r, s.last().0, e),
            None => {},
        }
    }
}

proof fn lemma_with_platform_wf(m: Seq<(Seq<char>, ExtensionModel)>, p: Seq<(Seq<char>, Seq<char>)>)
    requires
        unique_keys(m),
        forall|i: int| 0 <= i < m.len() ==> config_wf(#[trigger] m[i].1.config),
    ensures
        forall|i: int| 0 <= i < with_platform(m, p).len() ==> config_wf(#[trigger] with_platform(m, p)[i].1.config),
    decreases p.len(),
{
    if p.len() > 0 {
        lemma_with_platform_wf(m, p.drop_last());
        lemma_with_platform(m, p.drop_last());
        let r = with_platform(m, p.drop_last());
        if lookup(r, p.last().0) is None {
            lemma_platform_entry_wf(p.last());
            lemma_put_wf(r, p.last().0, platform_entry(p.last()));
        }
    }
}

/// After an entry is set, a load finds it under the key of its name, with its
/// own enabled flag.
pub proof fn lemma_set_then_read(before: Config, after: Config, e: ExtensionModel)
    requires
        config_wf(e.config),
        after.params() == saved_extensions(
            before.params(),
            put(extensions_in(before), key_of(e.config.name), e),
        ),
        after.platform() == before.platform(),
    ensures
        lookup(extensions_in(after), key_of(e.config.name)) == Some(e),
        enabled_in(extensions_in(after), key_of(e.config.name)) == e.enabled,
{
    let k = key_of(e.config.name);
    lemma_loaded_wf(before);
    let m = put(extensions_in(before), k, e);
    lemma_put_wf(extensions_in(before), k, e);
    lemma_save_then_load(before, after, m);
    crate::keymap::lemma_lookup_put(extensions_in(before), k, e);
    crate::keymap::lemma_key_index(m, k);
    lemma_with_platform(m, before.platform());
}

proof fn lemma_other_fields_same(s: Seq<(Seq<char>, FieldModel)>, t: Seq<(Seq<char>, FieldModel)>)
    requires
        s.len() == t.len(),
        forall|i: int| 0 <= i < s.len() ==> s[i] == t[i] || (reserved(s[i].0) && reserved(t[i].0)),
    ensures
        other_fields(s) == other_fields(t),
    decreases s.len(),
{
    if s.len() > 0 {
        let s2 = s.drop_last();
        let t2 = t.drop_last();
        assert forall|i: int| 0 <= i < s2.len() implies s2[i] == t2[i] || (reserved(s2[i].0) && reserved(t2[i].0)) by {
            assert(s2[i] == s[i]);
            assert(t2[i] == t[i]);
        }
        lemma_other_fields_same(s2, t2);
        assert(s.last() == s[s.len() - 1]);
        assert(t.last() == t[t.len() - 1]);
    }
}

/// A stored entry whose description is absent or null reads as the same entry
/// with an empty description stored.
pub proof fn lemma_description_default(s: Seq<(Seq<char>, FieldModel)>)
    requires
        unique_keys(s),
        lookup(s, "description"@) is None || lookup(s, "description"@) == Some(FieldModel::Null),
    ensures
        decode_fields(s) == decode_fields(put(s, "description"@, FieldModel::Str(Seq::empty()))),
{
    let d = "description"@;
    let t = put(s, d, FieldModel::Str(Seq::empty()));
    reveal_strlit("enabled");
    reveal_strlit("type");
    reveal_strlit("name");
    reveal_strlit("description");
    assert("enabled"@[0] != d[0]);
    assert("type"@[0] != d[0]);
    assert("name"@[0] != d[0]);
    lemma_put_unique(s, d, FieldModel::Str(Seq::empty()));
    crate::keymap::lemma_key_index(s, d);
    let i = key_index(s, d);
    if i >= 0 {
        assert forall|j: int| 0 <= j < s.len() implies s[j] == t[j] || (reserved(s[j].0) && reserved(t[j].0)) by {
            if j == i {
                assert(reserved(s[j].0));
            }
        }
        lemma_other_fields_same(s, t);
    } else {
        assert(t.drop_last() =~= s);
    }
}

} // verus!
