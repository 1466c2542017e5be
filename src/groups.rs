use vstd::prelude::*;
use vstd::string::StringExecFns;
use crate::config::Config;
use crate::extensions::{
    ExtensionModel, bumped, enabled_in, extensions_in, get_extensions_map,
    save_extensions_map, saved_extensions, set_enabled_at, with_enabled,
};
use crate::json::{EntryModel, FieldModel, JsonField, StoredEntry, StoredValue, ValueModel, copy_strings, strings_view};
use crate::key::{key_of, name_to_key};
use crate::keymap::{KeyMap, delete, keys_of, lookup, put, values_of};

verus! {

/// The store key under which the extension groups are kept.
pub const EXTENSION_GROUPS_CONFIG_KEY: &'static str = "extension_groups";

/// The aggregate state of a group's members.
#[derive(Clone, Copy, Debug, PartialEq, Eq, Structural)]
pub enum ExtensionGroupState {
    Enabled,
    Disabled,
    Mixed,
}

/// A named, ordered collection of extension keys.
pub struct ExtensionGroup {
    pub name: String,
    pub extension_keys: Vec<String>,
}

pub struct GroupModel {
    pub name: Seq<char>,
    pub keys: Seq<Seq<char>>,
}

impl View for ExtensionGroup {
    type V = GroupModel;

    open spec fn view(&self) -> GroupModel {
        GroupModel { name: self.name@, keys: strings_view(self.extension_keys@) }
    }
}

impl ExtensionGroup {
    pub fn name(&self) -> (r: String)
        ensures
            r@ == self.name@,
    {
        self.name.clone()
    }

    /// The storage key: the normalized name.
    pub fn key(&self) -> (r: String)
        ensures
            r@ == key_of(self.name@),
    {
        name_to_key(self.name.as_str())
    }

    pub fn extension_keys(&self) -> (r: &[String])
        ensures
            r@ == self.extension_keys@,
    {
        self.extension_keys.as_slice()
    }
}

/// Reads a group from a stored member; `None` where it is malformed.
pub open spec fn decode_group(e: EntryModel) -> Option<GroupModel> {
    match e {
        EntryModel::Object(s) => match (lookup(s, "name"@), lookup(s, "extension_keys"@)) {
            (Some(FieldModel::Str(n)), Some(FieldModel::Strs(ks))) => Some(GroupModel { name: n, keys: ks }),
            _ => None,
        },
        EntryModel::Other(_) => None,
    }
}

/// The members of a stored object that read as groups, in order; the others
/// are skipped.
pub open spec fn decode_groups(s: Seq<(Seq<char>, EntryModel)>) -> Seq<(Seq<char>, GroupModel)>
    decreases s.len(),
{
    if s.len() == 0 {
        Seq::empty()
    } else {
        let r = decode_groups(s.drop_last());
        match decode_group(s.last().1) {
            Some(g) => put(r, s.last().0, g),
            None => r,
        }
    }
}

/// The groups that a load from `c` finds.
pub open spec fn groups_in(c: Config) -> Seq<(Seq<char>, GroupModel)> {
    match c.param(EXTENSION_GROUPS_CONFIG_KEY@) {
        Some(ValueModel::Object(s)) => decode_groups(s),
        _ => Seq::empty(),
    }
}

pub open spec fn encode_group(g: GroupModel) -> EntryModel {
    EntryModel::Object(
        put(put(Seq::empty(), "name"@, FieldModel::Str(g.name)), "extension_keys"@, FieldModel::Strs(g.keys)),
    )
}

pub open spec fn encode_groups(s: Seq<(Seq<char>, GroupModel)>) -> Seq<(Seq<char>, EntryModel)>
    decreases s.len(),
{
    if s.len() == 0 {
        Seq::empty()
    } else {
        put(encode_groups(s.drop_last()), s.last().0, encode_group(s.last().1))
    }
}

/// The store after the groups `m` are saved to `c`.
pub open spec fn saved_groups(
    c: Seq<(Seq<char>, ValueModel)>,
    m: Seq<(Seq<char>, GroupModel)>,
) -> Seq<(Seq<char>, ValueModel)> {
    put(c, EXTENSION_GROUPS_CONFIG_KEY@, ValueModel::Object(encode_groups(m)))
}

/// How many of `keys` name an extension of `m` that is enabled.
pub open spec fn count_enabled(keys: Seq<Seq<char>>, m: Seq<(Seq<char>, ExtensionModel)>) -> nat
    decreases keys.len(),
{
    if keys.len() == 0 {
        0
    } else {
        count_enabled(keys.drop_last(), m) + if enabled_in(m, keys.last()) {
            1nat
        } else {
            0nat
        }
    }
}

/// The aggregate state of a group with member keys `keys`.
pub open spec fn group_state(keys: Seq<Seq<char>>, m: Seq<(Seq<char>, ExtensionModel)>) -> ExtensionGroupState {
    let c = count_enabled(keys, m);
    if keys.len() == 0 || c == 0 {
        ExtensionGroupState::Disabled
    } else if c == keys.len() {
        ExtensionGroupState::Enabled
    } else {
        ExtensionGroupState::Mixed
    }
}

/// `m` with each member of `keys` that is present set to `enabled`.
pub open spec fn set_members(
    m: Seq<(Seq<char>, ExtensionModel)>,
    keys: Seq<Seq<char>>,
    enabled: bool,
) -> Seq<(Seq<char>, ExtensionModel)>
    decreases keys.len(),
{
    if keys.len() == 0 {
        m
    } else {
        let r = set_members(m, keys.drop_last(), enabled);
        match lookup(r, keys.last()) {
            Some(e) => if e.enabled != enabled {
                put(r, keys.last(), with_enabled(e, enabled))
            } else {
                r
            },
            None => r,
        }
    }
}

/// Whether setting the members of `keys` to `enabled` changes any of them.
pub open spec fn members_change(
    m: Seq<(Seq<char>, ExtensionModel)>,
    keys: Seq<Seq<char>>,
    enabled: bool,
) -> bool
    decreases keys.len(),
{
    if keys.len() == 0 {
        false
    } else {
        members_change(m, keys.drop_last(), enabled) || match lookup(
            set_members(m, keys.drop_last(), enabled),
            keys.last(),
        ) {
            Some(e) => e.enabled != enabled,
            None => false,
        }
    }
}

/// Whether every member of `keys` is present in `m` and enabled.
pub open spec fn all_enabled(keys: Seq<Seq<char>>, m: Seq<(Seq<char>, ExtensionModel)>) -> bool {
    forall|i: int| 0 <= i < keys.len() ==> enabled_in(m, #[trigger] keys[i])
}

/// The message of the error for a group that does not exist.
pub open spec fn not_found_message(name: Seq<char>) -> Seq<char> {
    "Extension group '"@ + name + "' not found"@
}

/// Reads one stored member as a group; `None` where it is malformed.
pub fn parse_group(e: &StoredEntry) -> (r: Option<ExtensionGroup>)
    ensures
        match r {
            Some(g) => decode_group(e@) == Some(g@),
            None => decode_group(e@) is None,
        },
{
    match e {
        StoredEntry::Object(m) => {
            let name = match m.get("name") {
                Some(JsonField::Str(n)) => n.clone(),
                _ => return None,
            };
            let extension_keys = match m.get("extension_keys") {
                Some(JsonField::Strs(ks)) => copy_strings(ks),
                _ => return None,
            };
            Some(ExtensionGroup { name, extension_keys })
        },
        StoredEntry::Other(_) => None,
    }
}

/// Loads the groups from the store. A missing or non-object value reads as no
/// groups, and a malformed member is skipped.
pub fn get_extension_groups_map(config: &Config) -> (r: KeyMap<ExtensionGroup>)
    ensures
        r.pairs() == groups_in(*config),
{
    let mut m: KeyMap<ExtensionGroup> = KeyMap::new();
    match config.get_param(EXTENSION_GROUPS_CONFIG_KEY) {
        Some(StoredValue::Object(obj)) => {
            let n = obj.len();
            let mut i: usize = 0;
            while i < n
                invariant
                    n == obj.pairs().len(),
                    i <= n,
                    m.pairs() == decode_groups(obj.pairs().take(i as int)),
                decreases n - i,
            {
                proof {
                    assert(obj.pairs().take(i as int + 1).drop_last() =~= obj.pairs().take(i as int));
                }
                match parse_group(obj.value_at(i)) {
                    Some(g) => {
                        m.insert(obj.key_at(i).clone(), g);
                    },
                    None => {},
                }
                i = i + 1;
            }
            assert(obj.pairs().take(n as int) =~= obj.pairs());
        },
        _ => {
            assert(m.pairs() =~= Seq::<(Seq<char>, GroupModel)>::empty());
        },
    }
    m
}

fn encode_extension_group(g: &ExtensionGroup) -> (r: StoredEntry)
    ensures
        r@ == encode_group(g@),
{
    let mut m: KeyMap<JsonField> = KeyMap::new();
    m.insert(String::from_str("name"), JsonField::Str(g.name.clone()));
    m.insert(String::from_str("extension_keys"), JsonField::Strs(copy_strings(&g.extension_keys)));
    StoredEntry::Object(m)
}

/// Writes the groups to the store, in one write.
pub fn save_extension_groups_map(config: &mut Config, groups: &KeyMap<ExtensionGroup>)
    ensures
        final(config).params() == saved_groups(old(config).params(), groups.pairs()),
        final(config).write_count() == bumped(old(config).write_count()),
        final(config).platform() == old(config).platform(),
{
    let mut out: KeyMap<StoredEntry> = KeyMap::new();
    let n = groups.len();
    let mut i: usize = 0;
    while i < n
        invariant
            n == groups.pairs().len(),
            i <= n,
            out.pairs() == encode_groups(groups.pairs().take(i as int)),
        decreases n - i,
    {
        proof {
            assert(groups.pairs().take(i as int + 1).drop_last() =~= groups.pairs().take(i as int));
        }
        out.insert(groups.key_at(i).clone(), encode_extension_group(groups.value_at(i)));
        i = i + 1;
    }
    assert(groups.pairs().take(n as int) =~= groups.pairs());
    config.set_param(EXTENSION_GROUPS_CONFIG_KEY, StoredValue::Object(out));
}

/// All groups, in load order.
pub fn get_all_extension_groups(config: &Config) -> (r: Vec<ExtensionGroup>)
    ensures
        r@.map_values(|g: ExtensionGroup| g@) == values_of(groups_in(*config)),
{
    get_extension_groups_map(config).into_values()
}

/// The group stored under the key of `name`.
pub fn get_extension_group_by_name(config: &Config, name: &str) -> (r: Option<ExtensionGroup>)
    ensures
        match r {
            Some(g) => lookup(groups_in(*config), key_of(name@)) == Some(g@),
            None => lookup(groups_in(*config), key_of(name@)) is None,
        },
{
    let key = name_to_key(name);
    let mut m = get_extension_groups_map(config);
    m.remove(key.as_str())
}

/// Adds the group under the key of its name, replacing any group there, and saves.
pub fn set_extension_group(config: &mut Config, group: ExtensionGroup)
    ensures
        final(config).params() == saved_groups(
            old(config).params(),
            put(groups_in(*old(config)), key_of(group.name@), group@),
        ),
        final(config).write_count() == bumped(old(config).write_count()),
        final(config).platform() == old(config).platform(),
{
    let mut m = get_extension_groups_map(config);
    let key = group.key();
    m.insert(key, group);
    save_extension_groups_map(config, &m);
}

/// Removes the group under `key`, if any, and saves in either case.
pub fn remove_extension_group(config: &mut Config, key: &str)
    ensures
        final(config).params() == saved_groups(old(config).params(), delete(groups_in(*old(config)), key@)),
        final(config).write_count() == bumped(old(config).write_count()),
        final(config).platform() == old(config).platform(),
{
    let mut m = get_extension_groups_map(config);
    m.remove(key);
    save_extension_groups_map(config, &m);
}

/// The keys of all groups, in load order.
pub fn get_all_extension_group_names(config: &Config) -> (r: Vec<String>)
    ensures
        r@.map_values(|s: String| s@) == keys_of(groups_in(*config)),
{
    get_extension_groups_map(config).keys()
}

/// The aggregate state of the group named `group_name`; `None` where there is
/// no such group.
pub fn get_extension_group_state(config: &Config, group_name: &str) -> (r: Option<ExtensionGroupState>)
    ensures
        match lookup(groups_in(*config), key_of(group_name@)) {
            Some(g) => r == Some(group_state(g.keys, extensions_in(*config))),
            None => r is None,
        },
{
    let group = match get_extension_group_by_name(config, group_name) {
        Some(g) => g,
        None => return None,
    };
    let extensions = get_extensions_map(config);
    let keys = group.extension_keys();
    let total = keys.len();
    if total == 0 {
        return Some(ExtensionGroupState::Disabled);
    }
    let ghost ks = strings_view(keys@);
    let mut enabled_count: usize = 0;
    let mut i: usize = 0;
    while i < total
        invariant
            total == keys@.len(),
            ks == strings_view(keys@),
            i <= total,
            enabled_count == count_enabled(ks.take(i as int), extensions.pairs()),
            enabled_count <= i,
        decreases total - i,
    {
        proof {
            assert(ks.take(i as int + 1).drop_last() =~= ks.take(i as int));
        }
        let on = match extensions.get(keys[i].as_str()) {
            Some(e) => e.enabled,
            None => false,
        };
        if on {
            enabled_count = enabled_count + 1;
        }
        i = i + 1;
    }
    assert(ks.take(total as int) =~= ks);
    if enabled_count == 0 {
        Some(ExtensionGroupState::Disabled)
    } else if enabled_count == total {
        Some(ExtensionGroupState::Enabled)
    } else {
        Some(ExtensionGroupState::Mixed)
    }
}

/// Sets each member of `keys` present in the extensions to `enabled`, and
/// saves only where that changed one.
fn set_members_enabled(config: &mut Config, keys: &Vec<String>, enabled: bool)
    ensures
        members_change(extensions_in(*old(config)), strings_view(keys@), enabled) ==> {
            &&& final(config).params() == saved_extensions(
                old(config).params(),
                set_members(extensions_in(*old(config)), strings_view(keys@), enabled),
            )
            &&& final(config).write_count() == bumped(old(config).write_count())
        },
        !members_change(extensions_in(*old(config)), strings_view(keys@), enabled) ==> {
            &&& final(config).params() == old(config).params()
            &&& final(config).write_count() == old(config).write_count()
        },
        final(config).platform() == old(config).platform(),
{
    let mut extensions = get_extensions_map(config);
    let ghost start = extensions.pairs();
    let ghost ks = strings_view(keys@);
    let mut modified = false;
    let n = keys.len();
    let mut i: usize = 0;
    while i < n
        invariant
            n == keys@.len(),
            ks == strings_view(keys@),
            i <= n,
            extensions.pairs() == set_members(start, ks.take(i as int), enabled),
            modified == members_change(start, ks.take(i as int), enabled),
        decreases n - i,
    {
        proof {
            assert(ks.take(i as int + 1).drop_last() =~= ks.take(i as int));
        }
        match extensions.index_of(keys[i].as_str()) {
            Some(j) => {
                proof {
                    crate::keymap::lemma_key_index(extensions.pairs(), ks[i as int]);
                }
                if extensions.value_at(j).enabled != enabled {
                    set_enabled_at(&mut extensions, j, enabled);
                    modified = true;
                }
            },
            None => {},
        }
        i = i + 1;
    }
    assert(ks.take(n as int) =~= ks);
    if modified {
        save_extensions_map(config, &extensions);
    }
}

fn not_found(name: &str) -> (r: String)
    ensures
        r@ == not_found_message(name@),
{
    let mut msg = String::from_str("Extension group '");
    msg.append(name);
    msg.append("' not found");
    msg
}

/// Enables every member of the group named `group_name` that exists, saving
/// only where one changed; an error where there is no such group.
pub fn enable_extension_group(config: &mut Config, group_name: &str) -> (r: Result<(), String>)
    ensures
        match lookup(groups_in(*old(config)), key_of(group_name@)) {
            Some(g) => {
                &&& r is Ok
                &&& members_change(extensions_in(*old(config)), g.keys, true) ==> {
                    &&& final(config).params() == saved_extensions(
                        old(config).params(),
                        set_members(extensions_in(*old(config)), g.keys, true),
                    )
                    &&& final(config).write_count() == bumped(old(config).write_count())
                }
                &&& !members_change(extensions_in(*old(config)), g.keys, true) ==> {
                    &&& final(config).params() == old(config).params()
                    &&& final(config).write_count() == old(config).write_count()
                }
            },
            None => {
                &&& r is Err
                &&& r->Err_0@ == not_found_message(group_name@)
                &&& final(config).params() == old(config).params()
                &&& final(config).write_count() == old(config).write_count()
            },
        },
        final(config).platform() == old(config).platform(),
{
    match get_extension_group_by_name(config, group_name) {
        Some(group) => {
            set_members_enabled(config, &group.extension_keys, true);
            Ok(())
        },
        None => Err(not_found(group_name)),
    }
}

/// Disables every member of the group named `group_name` that exists, saving
/// only where one changed; an error where there is no such group.
pub fn disable_extension_group(config: &mut Config, group_name: &str) -> (r: Result<(), String>)
    ensures
        match lookup(groups_in(*old(config)), key_of(group_name@)) {
            Some(g) => {
                &&& r is Ok
                &&& members_change(extensions_in(*old(config)), g.keys, false) ==> {
                    &&& final(config).params() == saved_extensions(
                        old(config).params(),
                        set_members(extensions_in(*old(config)), g.keys, false),
                    )
                    &&& final(config).write_count() == bumped(old(config).write_count())
                }
                &&& !members_change(extensions_in(*old(config)), g.keys, false) ==> {
                    &&& final(config).params() == old(config).params()
                    &&& final(config).write_count() == old(config).write_count()
                }
            },
            None => {
                &&& r is Err
                &&& r->Err_0@ == not_found_message(group_name@)
                &&& final(config).params() == old(config).params()
                &&& final(config).write_count() == old(config).write_count()
            },
        },
        final(config).platform() == old(config).platform(),
{
    match get_extension_group_by_name(config, group_name) {
        Some(group) => {
            set_members_enabled(config, &group.extension_keys, false);
            Ok(())
        },
        None => Err(not_found(group_name)),
    }
}

/// Sets every existing member of the group stored under `key` to `enabled`,
/// saving only where one changed; nothing happens where there is no such group.
pub fn set_extension_group_enabled(config: &mut Config, key: &str, enabled: bool)
    ensures
        match lookup(groups_in(*old(config)), key@) {
            Some(g) => {
                &&& members_change(extensions_in(*old(config)), g.keys, enabled) ==> {
                    &&& final(config).params() == saved_extensions(
                        old(config).params(),
                        set_members(extensions_in(*old(config)), g.keys, enabled),
                    )
                    &&& final(config).write_count() == bumped(old(config).write_count())
                }
                &&& !members_change(extensions_in(*old(config)), g.keys, enabled) ==> {
                    &&& final(config).params() == old(config).params()
                    &&& final(config).write_count() == old(config).write_count()
                }
            },
            None => {
                &&& final(config).params() == old(config).params()
                &&& final(config).write_count() == old(config).write_count()
            },
        },
        final(config).platform() == old(config).platform(),
{
    let mut groups = get_extension_groups_map(config);
    match groups.remove(key) {
        Some(group) => set_members_enabled(config, &group.extension_keys, enabled),
        None => {},
    }
}

/// Whether the group stored under `key` exists and every one of its members
/// exists and is enabled.
pub fn is_extension_group_enabled(config: &Config, key: &str) -> (r: bool)
    ensures
        r == match lookup(groups_in(*config), key@) {
            Some(g) => all_enabled(g.keys, extensions_in(*config)),
            None => false,
        },
{
    let mut groups = get_extension_groups_map(config);
    let group = match groups.remove(key) {
        Some(g) => g,
        None => return false,
    };
    let extensions = get_extensions_map(config);
    let keys = &group.extension_keys;
    let ghost ks = strings_view(keys@);
    let n = keys.len();
    let mut i: usize = 0;
    while i < n
        invariant
            n == keys@.len(),
            ks == strings_view(keys@),
            i <= n,
            all_enabled(ks.take(i as int), extensions.pairs()),
            extensions.pairs() == extensions_in(*config),
            lookup(groups_in(*config), key@) == Some(group@),
            group@.keys == ks,
        decreases n - i,
    {
        let on = match extensions.get(keys[i].as_str()) {
            Some(e) => e.enabled,
            None => false,
        };
        assert(ks[i as int] == keys@[i as int]@);
        if !on {
            assert(!enabled_in(extensions.pairs(), ks[i as int]));
            assert(!all_enabled(ks, extensions.pairs()));
            return false;
        }
        proof {
            assert forall|j: int| 0 <= j < i + 1 implies enabled_in(extensions.pairs(), #[trigger] ks.take(i as int + 1)[j]) by {
                if j < i {
                    assert(ks.take(i as int + 1)[j] == ks.take(i as int)[j]);
                }
            }
        }
        i = i + 1;
    }
    assert(ks.take(n as int) =~= ks);
    true
}

/// Where every member of `keys` that exists already has the flag `enabled`,
/// setting the members changes nothing, so the bulk operations write nothing.
pub proof fn lemma_members_already_set(
    m: Seq<(Seq<char>, ExtensionModel)>,
    keys: Seq<Seq<char>>,
    enabled: bool,
)
    requires
        forall|i: int|
            0 <= i < keys.len() ==> match lookup(m, #[trigger] keys[i]) {
                Some(e) => e.enabled == enabled,
                None => true,
            },
    ensures
        set_members(m, keys, enabled) == m,
        !members_change(m, keys, enabled),
    decreases keys.len(),
{
    if keys.len() > 0 {
        let d = keys.drop_last();
        assert forall|i: int| 0 <= i < d.len() implies match lookup(m, #[trigger] d[i]) {
            Some(e) => e.enabled == enabled,
            None => true,
        } by {
            assert(d[i] == keys[i]);
        }
        lemma_members_already_set(m, d, enabled);
        assert(keys.last() == keys[keys.len() - 1]);
    }
}

proof fn lemma_count_enabled(keys: Seq<Seq<char>>, m: Seq<(Seq<char>, ExtensionModel)>)
    ensures
        count_enabled(keys, m) <= keys.len(),
        count_enabled(keys, m) == keys.len() <==> all_enabled(keys, m),
    decreases keys.len(),
{
    if keys.len() > 0 {
        let d = keys.drop_last();
        lemma_count_enabled(d, m);
        if all_enabled(keys, m) {
            assert forall|i: int| 0 <= i < d.len() implies enabled_in(m, #[trigger] d[i]) by {
                assert(d[i] == keys[i]);
            }
            assert(enabled_in(m, keys[keys.len() - 1]));
        }
        if count_enabled(keys, m) == keys.len() {
            assert forall|i: int| 0 <= i < keys.len() implies enabled_in(m, #[trigger] keys[i]) by {
                if i < d.len() {
                    assert(d[i] == keys[i]);
                }
            }
        }
    }
}

/// A group reads as enabled exactly when it has members and each of them is
/// present and enabled, which is what the check by key asks of it.
pub proof fn lemma_state_enabled_iff_all_enabled(keys: Seq<Seq<char>>, m: Seq<(Seq<char>, ExtensionModel)>)
    ensures
        group_state(keys, m) == ExtensionGroupState::Enabled <==> (keys.len() > 0 && all_enabled(keys, m)),
{
    lemma_count_enabled(keys, m);
}

} // verus!
