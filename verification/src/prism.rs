//! Prism / MultiMC instances: where they live, what they are called, and the
//! settings that a new instance takes over from an old one.
use vstd::prelude::*;
use vstd::string::*;

pub use crate::groups::register_in_group;
use crate::ini::{keys_of, value_of, with_value, LineView};
pub use crate::ini::{Ini, DEFAULT_SECTION};
use crate::order::{sort_by_keys, sorted, SortKey};
use crate::text::{chars_of, decimal, decimal_of, lowercase, same, text_from, trim, trimmed};
use crate::util::{join_path, path_in};

verus! {

// ---------------------------------------------------------------------------
// Launch settings
// ---------------------------------------------------------------------------

/// `[General]` keys describing how the instance launches rather than what pack it
/// is. These are carried from the old instance onto the freshly extracted one, so
/// the new instance keeps the same Java binary, JVM arguments and memory limits.
pub open spec fn launch_keys() -> Seq<Seq<char>> {
    seq![
        "AutoCloseConsole"@,
        "AutomaticJava"@,
        "CloseAfterLaunch"@,
        "CustomGLFWPath"@,
        "CustomOpenALPath"@,
        "EnableFeralGamemode"@,
        "EnableMangoHud"@,
        "Env"@,
        "IgnoreJavaCompatibility"@,
        "InstanceAccountId"@,
        "JavaArchitecture"@,
        "JavaPath"@,
        "JavaRealArchitecture"@,
        "JavaSignature"@,
        "JavaVendor"@,
        "JavaVersion"@,
        "JoinServerOnLaunch"@,
        "JoinServerOnLaunchAddress"@,
        "JoinWorldOnLaunch"@,
        "JvmArgs"@,
        "LaunchMaximized"@,
        "LogPrePostOutput"@,
        "LowMemWarning"@,
        "MaxMemAlloc"@,
        "MinMemAlloc"@,
        "MinecraftWinHeight"@,
        "MinecraftWinWidth"@,
        "ModDownloadLoaders"@,
        "OnlineFixes"@,
        "OverrideCommands"@,
        "OverrideConsole"@,
        "OverrideEnv"@,
        "OverrideGameTime"@,
        "OverrideJavaArgs"@,
        "OverrideJavaLocation"@,
        "OverrideMemory"@,
        "OverrideMiscellaneous"@,
        "OverrideModDownloadLoaders"@,
        "OverrideNativeWorkarounds"@,
        "OverridePerformance"@,
        "OverrideWindow"@,
        "PermGen"@,
        "PostExitCommand"@,
        "PreLaunchCommand"@,
        "Profiler"@,
        "QuitAfterGameStop"@,
        "RecordGameTime"@,
        "ShowConsole"@,
        "ShowConsoleOnError"@,
        "ShowGameTime"@,
        "UseAccountForInstance"@,
        "UseDiscreteGpu"@,
        "UseNativeGLFW"@,
        "UseNativeOpenAL"@,
        "UseZink"@,
        "WrapperCommand"@,
        "notes"@,
        "totalTimePlayed"@,
    ]
}

pub open spec fn str_views(v: Seq<&'static str>) -> Seq<Seq<char>> {
    v.map_values(|s: &'static str| s@)
}

/// The keys of [`launch_keys`].
pub fn carry_over_keys() -> (r: Vec<&'static str>)
    ensures
        str_views(r@) == launch_keys(),
{
    let mut out: Vec<&'static str> = Vec::new();
    out.push("AutoCloseConsole");
    out.push("AutomaticJava");
    out.push("CloseAfterLaunch");
    out.push("CustomGLFWPath");
    out.push("CustomOpenALPath");
    out.push("EnableFeralGamemode");
    out.push("EnableMangoHud");
    out.push("Env");
    out.push("IgnoreJavaCompatibility");
    out.push("InstanceAccountId");
    out.push("JavaArchitecture");
    out.push("JavaPath");
    out.push("JavaRealArchitecture");
    out.push("JavaSignature");
    out.push("JavaVendor");
    out.push("JavaVersion");
    out.push("JoinServerOnLaunch");
    out.push("JoinServerOnLaunchAddress");
    out.push("JoinWorldOnLaunch");
    out.push("JvmArgs");
    out.push("LaunchMaximized");
    out.push("LogPrePostOutput");
    out.push("LowMemWarning");
    out.push("MaxMemAlloc");
    out.push("MinMemAlloc");
    out.push("MinecraftWinHeight");
    out.push("MinecraftWinWidth");
    out.push("ModDownloadLoaders");
    out.push("OnlineFixes");
    out.push("OverrideCommands");
    out.push("OverrideConsole");
    out.push("OverrideEnv");
    out.push("OverrideGameTime");
    out.push("OverrideJavaArgs");
    out.push("OverrideJavaLocation");
    out.push("OverrideMemory");
    out.push("OverrideMiscellaneous");
    out.push("OverrideModDownloadLoaders");
    out.push("OverrideNativeWorkarounds");
    out.push("OverridePerformance");
    out.push("OverrideWindow");
    out.push("PermGen");
    out.push("PostExitCommand");
    out.push("PreLaunchCommand");
    out.push("Profiler");
    out.push("QuitAfterGameStop");
    out.push("RecordGameTime");
    out.push("ShowConsole");
    out.push("ShowConsoleOnError");
    out.push("ShowGameTime");
    out.push("UseAccountForInstance");
    out.push("UseDiscreteGpu");
    out.push("UseNativeGLFW");
    out.push("UseNativeOpenAL");
    out.push("UseZink");
    out.push("WrapperCommand");
    out.push("notes");
    out.push("totalTimePlayed");
    assert(str_views(out@) =~= launch_keys());
    out
}

/// The lines with those of `keys` that the old file has set to its values.
pub open spec fn overlaid(
    lines: Seq<LineView>,
    old_lines: Seq<LineView>,
    section: Seq<char>,
    keys: Seq<Seq<char>>,
) -> Seq<LineView>
    decreases keys.len(),
{
    if keys.len() == 0 {
        lines
    } else {
        let init = overlaid(lines, old_lines, section, keys.drop_last());
        match value_of(old_lines, section, keys.last()) {
            Some(v) => with_value(init, section, keys.last(), v),
            None => init,
        }
    }
}

/// The new instance's file: pack defaults, overlaid with the old instance's
/// launch settings and view state, renamed, and given a fresh id.
pub open spec fn merged_cfg(
    pack: Seq<LineView>,
    old_lines: Seq<LineView>,
    name: Seq<char>,
    uuid: Seq<char>,
) -> Seq<LineView> {
    let a = overlaid(pack, old_lines, "General"@, launch_keys());
    let b = overlaid(a, old_lines, "UI"@, keys_of(old_lines, "UI"@));
    let c = with_value(b, "General"@, "name"@, name);
    let d = with_value(c, "General"@, "uuid"@, uuid);
    let e = with_value(d, "General"@, "lastLaunchTime"@, "0"@);
    with_value(e, "General"@, "lastTimePlayed"@, "0"@)
}

fn take_over(out: &mut Ini, old_cfg: &Ini, section: &str, key: &str)
    ensures
        final(out)@ == (match value_of(old_cfg@, section@, key@) {
            Some(v) => with_value(old(out)@, section@, key@, v),
            None => old(out)@,
        }),
{
    if let Some(v) = old_cfg.get(section, key) {
        out.set(section, key, v.as_str());
    }
}

/// Build the new instance's `instance.cfg`: pack defaults, overlaid with the old
/// instance's launch settings, renamed, and given a fresh id.
pub fn merge_instance_cfg(pack_cfg: &Ini, old_cfg: &Ini, new_name: &str, uuid: &str) -> (r: Ini)
    ensures
        r@ == merged_cfg(pack_cfg@, old_cfg@, new_name@, uuid@),
{
    let mut out = pack_cfg.duplicate();
    let launch = carry_over_keys();
    let ghost all = str_views(launch@);
    let mut i: usize = 0;
    assert(all.take(0) =~= Seq::empty());
    while i < launch.len()
        invariant
            all == str_views(launch@),
            i <= launch.len(),
            out@ == overlaid(pack_cfg@, old_cfg@, "General"@, all.take(i as int)),
        decreases launch.len() - i,
    {
        proof {
            assert(all.take(i + 1).drop_last() =~= all.take(i as int));
            assert(all.take(i + 1).last() == launch@[i as int]@);
        }
        take_over(&mut out, old_cfg, "General", launch[i]);
        i += 1;
    }
    assert(all.take(i as int) =~= all);
    // Column layouts and other view state are harmless and nice to keep.
    let ui = old_cfg.keys("UI");
    let ghost a = out@;
    let ghost shown = crate::text::texts(ui@);
    let mut k: usize = 0;
    assert(shown.take(0) =~= Seq::empty());
    while k < ui.len()
        invariant
            shown == crate::text::texts(ui@),
            k <= ui.len(),
            out@ == overlaid(a, old_cfg@, "UI"@, shown.take(k as int)),
        decreases ui.len() - k,
    {
        proof {
            assert(shown.take(k + 1).drop_last() =~= shown.take(k as int));
            assert(shown.take(k + 1).last() == ui@[k as int]@);
        }
        take_over(&mut out, old_cfg, "UI", ui[k].as_str());
        k += 1;
    }
    assert(shown.take(k as int) =~= shown);
    out.set("General", "name", new_name);
    out.set("General", "uuid", uuid);
    out.set("General", "lastLaunchTime", "0");
    out.set("General", "lastTimePlayed", "0");
    out
}

proof fn lemma_overlaid(
    lines: Seq<LineView>,
    old_lines: Seq<LineView>,
    section: Seq<char>,
    keys: Seq<Seq<char>>,
    s: Seq<char>,
    k: Seq<char>,
)
    ensures
        value_of(overlaid(lines, old_lines, section, keys), s, k) == (if s == section
            && keys.contains(k) && value_of(old_lines, section, k) is Some {
            value_of(old_lines, section, k)
        } else {
            value_of(lines, s, k)
        }),
    decreases keys.len(),
{
    if keys.len() > 0 {
        let short = keys.drop_last();
        lemma_overlaid(lines, old_lines, section, short, s, k);
        let init = overlaid(lines, old_lines, section, short);
        if let Some(v) = value_of(old_lines, section, keys.last()) {
            crate::ini::law_set_is_read_back(init, section, keys.last(), v);
        }
        assert(keys.last() == keys[keys.len() - 1]);
        if keys.contains(k) && k != keys.last() {
            assert(short[keys.index_of(k)] == k);
        }
        if short.contains(k) {
            assert(keys[short.index_of(k)] == k);
        }
    }
}

/// The keys that say which instance it is, not how it launches.
pub open spec fn is_identity(key: Seq<char>) -> bool {
    key == "name"@ || key == "uuid"@ || key == "lastLaunchTime"@ || key == "lastTimePlayed"@
}

/// No launch key says which instance it is.
proof fn lemma_launch_keys(key: Seq<char>)
    requires
        launch_keys().contains(key),
    ensures
        !is_identity(key),
{
    reveal_strlit("name");
    reveal_strlit("uuid");
    reveal_strlit("lastLaunchTime");
    reveal_strlit("lastTimePlayed");
    reveal_strlit("AutoCloseConsole");
    reveal_strlit("AutomaticJava");
    reveal_strlit("CloseAfterLaunch");
    reveal_strlit("CustomGLFWPath");
    reveal_strlit("CustomOpenALPath");
    reveal_strlit("EnableFeralGamemode");
    reveal_strlit("EnableMangoHud");
    reveal_strlit("Env");
    reveal_strlit("IgnoreJavaCompatibility");
    reveal_strlit("InstanceAccountId");
    reveal_strlit("JavaArchitecture");
    reveal_strlit("JavaPath");
    reveal_strlit("JavaRealArchitecture");
    reveal_strlit("JavaSignature");
    reveal_strlit("JavaVendor");
    reveal_strlit("JavaVersion");
    reveal_strlit("JoinServerOnLaunch");
    reveal_strlit("JoinServerOnLaunchAddress");
    reveal_strlit("JoinWorldOnLaunch");
    reveal_strlit("JvmArgs");
    reveal_strlit("LaunchMaximized");
    reveal_strlit("LogPrePostOutput");
    reveal_strlit("LowMemWarning");
    reveal_strlit("MaxMemAlloc");
    reveal_strlit("MinMemAlloc");
    reveal_strlit("MinecraftWinHeight");
    reveal_strlit("MinecraftWinWidth");
    reveal_strlit("ModDownloadLoaders");
    reveal_strlit("OnlineFixes");
    reveal_strlit("OverrideCommands");
    reveal_strlit("OverrideConsole");
    reveal_strlit("OverrideEnv");
    reveal_strlit("OverrideGameTime");
    reveal_strlit("OverrideJavaArgs");
    reveal_strlit("OverrideJavaLocation");
    reveal_strlit("OverrideMemory");
    reveal_strlit("OverrideMiscellaneous");
    reveal_strlit("OverrideModDownloadLoaders");
    reveal_strlit("OverrideNativeWorkarounds");
    reveal_strlit("OverridePerformance");
    reveal_strlit("OverrideWindow");
    reveal_strlit("PermGen");
    reveal_strlit("PostExitCommand");
    reveal_strlit("PreLaunchCommand");
    reveal_strlit("Profiler");
    reveal_strlit("QuitAfterGameStop");
    reveal_strlit("RecordGameTime");
    reveal_strlit("ShowConsole");
    reveal_strlit("ShowConsoleOnError");
    reveal_strlit("ShowGameTime");
    reveal_strlit("UseAccountForInstance");
    reveal_strlit("UseDiscreteGpu");
    reveal_strlit("UseNativeGLFW");
    reveal_strlit("UseNativeOpenAL");
    reveal_strlit("UseZink");
    reveal_strlit("WrapperCommand");
    reveal_strlit("notes");
    reveal_strlit("totalTimePlayed");
    let i = launch_keys().index_of(key);
    assert(forall|j: int| 0 <= j < launch_keys().len() ==> (#[trigger] launch_keys()[j]).len() > 2
        && launch_keys()[j][0] != 'u' && launch_keys()[j][0] != 'l' && (launch_keys()[j][0] == 'n'
        ==> launch_keys()[j][1] == 'o'));
    assert(launch_keys()[i] == key);
}

proof fn lemma_sections_differ()
    ensures
        "General"@ != "UI"@,
        "name"@ != "uuid"@,
        "name"@ != "lastLaunchTime"@,
        "name"@ != "lastTimePlayed"@,
        "uuid"@ != "lastLaunchTime"@,
        "uuid"@ != "lastTimePlayed"@,
        "lastLaunchTime"@ != "lastTimePlayed"@,
{
    reveal_strlit("General");
    reveal_strlit("UI");
    reveal_strlit("name");
    reveal_strlit("uuid");
    reveal_strlit("lastLaunchTime");
    reveal_strlit("lastTimePlayed");
    assert("General"@.len() == 7 && "UI"@.len() == 2);
    assert("name"@[0] == 'n' && "uuid"@[0] == 'u');
    assert("lastLaunchTime"@[4] == 'L' && "lastTimePlayed"@[4] == 'T');
}

/// Every setting of the merged file: the identity is new, launch settings and
/// view state follow the old instance where it has them, and everything else
/// stays as the pack ships it.
pub proof fn law_merged_settings(
    pack: Seq<LineView>,
    old_lines: Seq<LineView>,
    name: Seq<char>,
    uuid: Seq<char>,
    section: Seq<char>,
    key: Seq<char>,
)
    ensures
        value_of(merged_cfg(pack, old_lines, name, uuid), section, key) == (if section
            == "General"@ && key == "name"@ {
            Some(name)
        } else if section == "General"@ && key == "uuid"@ {
            Some(uuid)
        } else if section == "General"@ && is_identity(key) {
            Some("0"@)
        } else if ((section == "General"@ && launch_keys().contains(key)) || section == "UI"@)
            && value_of(old_lines, section, key) is Some {
            value_of(old_lines, section, key)
        } else {
            value_of(pack, section, key)
        }),
{
    lemma_sections_differ();
    let a = overlaid(pack, old_lines, "General"@, launch_keys());
    let b = overlaid(a, old_lines, "UI"@, keys_of(old_lines, "UI"@));
    let c = with_value(b, "General"@, "name"@, name);
    let d = with_value(c, "General"@, "uuid"@, uuid);
    let e = with_value(d, "General"@, "lastLaunchTime"@, "0"@);
    lemma_overlaid(pack, old_lines, "General"@, launch_keys(), section, key);
    lemma_overlaid(a, old_lines, "UI"@, keys_of(old_lines, "UI"@), section, key);
    crate::ini::law_keys_are_those_with_a_value(old_lines, "UI"@, key);
    if launch_keys().contains(key) {
        lemma_launch_keys(key);
    }
    crate::ini::law_set_is_read_back(b, "General"@, "name"@, name);
    crate::ini::law_set_is_read_back(c, "General"@, "uuid"@, uuid);
    crate::ini::law_set_is_read_back(d, "General"@, "lastLaunchTime"@, "0"@);
    crate::ini::law_set_is_read_back(e, "General"@, "lastTimePlayed"@, "0"@);
}

/// The new instance launches as the old one did: every launch setting that the
/// old instance has is in force in the new one.
pub proof fn law_launch_settings_are_carried(
    pack: Seq<LineView>,
    old_lines: Seq<LineView>,
    name: Seq<char>,
    uuid: Seq<char>,
    key: Seq<char>,
)
    requires
        launch_keys().contains(key),
        value_of(old_lines, "General"@, key) is Some,
    ensures
        value_of(merged_cfg(pack, old_lines, name, uuid), "General"@, key) == value_of(
            old_lines,
            "General"@,
            key,
        ),
{
    lemma_launch_keys(key);
    law_merged_settings(pack, old_lines, name, uuid, "General"@, key);
}

// ---------------------------------------------------------------------------
// Ids
// ---------------------------------------------------------------------------

/// One step of the generator that spreads the seed.
pub open spec fn id_step(state: u128) -> u128 {
    state.wrapping_mul(6364136223846793005).wrapping_add(1442695040888963407)
}

pub open spec fn id_state(seed: u128, n: nat) -> u128
    decreases n,
{
    if n == 0 {
        seed
    } else {
        id_step(id_state(seed, (n - 1) as nat))
    }
}

pub open spec fn hex_digit(d: nat) -> char {
    if d < 10 {
        (48 + d) as char
    } else {
        (87 + d) as char
    }
}

pub open spec fn id_seed(nanos: u128, pid: u32) -> u128 {
    nanos ^ ((pid as u128) << 64u128) ^ 0x9E37_79B9_7F4A_7C15u128
}

/// The id: one hex digit for each of the first 32 steps.
pub open spec fn id_text(seed: u128) -> Seq<char> {
    Seq::new(32, |i: int| hex_digit((id_state(seed, (i + 1) as nat) as nat / 0x1000_0000_0000_0000) % 16))
}

/// A 32-char hex id in the shape Prism writes. Not a real UUIDv4, Prism only
/// needs it to be unique, but it is seeded from the clock and process id.
pub fn new_uuid(nanos: u128, pid: u32) -> (r: String)
    ensures
        r@ == id_text(id_seed(nanos, pid)),
        r@.len() == 32,
{
    let seed: u128 = nanos ^ ((pid as u128) << 64u128) ^ 0x9E37_79B9_7F4A_7C15u128;
    let mut state: u128 = seed;
    let mut out = String::new();
    let mut i: usize = 0;
    while i < 32
        invariant
            i <= 32,
            state == id_state(seed, i as nat),
            out@.len() == i,
            forall|j: int| 0 <= j < i ==> #[trigger] out@[j] == id_text(seed)[j],
        decreases 32 - i,
    {
        state = state.wrapping_mul(6364136223846793005).wrapping_add(1442695040888963407);
        assert(state == id_state(seed, (i + 1) as nat));
        let nibble: u8 = ((state / 0x1000_0000_0000_0000) % 16) as u8;
        let c: u8 = if nibble < 10 {
            48 + nibble
        } else {
            87 + nibble
        };
        out.push(c as char);
        i += 1;
    }
    assert(out@ =~= id_text(seed));
    out
}

// ---------------------------------------------------------------------------
// Instances
// ---------------------------------------------------------------------------

/// An instance of the launcher: its directory and the name it goes by.
#[derive(Debug, Clone)]
pub struct Instance {
    pub dir: String,
    pub name: String,
}

/// An instance as texts.
pub struct InstanceView {
    pub dir: Seq<char>,
    pub name: Seq<char>,
}

impl View for Instance {
    type V = InstanceView;

    open spec fn view(&self) -> InstanceView {
        InstanceView { dir: self.dir@, name: self.name@ }
    }
}

pub open spec fn instance_views(s: Seq<Instance>) -> Seq<InstanceView> {
    s.map_values(|i: Instance| i@)
}

impl Instance {
    pub(crate) fn duplicate(&self) -> (r: Self)
        ensures
            r@ == self@,
    {
        Instance { dir: self.dir.clone(), name: self.name.clone() }
    }

    pub fn minecraft(&self) -> (r: String)
        ensures
            r@ == path_in(self.dir@, ".minecraft"@),
    {
        join_path(self.dir.as_str(), ".minecraft")
    }
}

/// A directory that holds an `instance.cfg`: its path, its own name, and the text
/// of the file where it can be read.
#[derive(Debug, Clone)]
pub struct FoundDir {
    pub dir: String,
    pub dir_name: String,
    pub cfg: Option<String>,
}

/// What an instance goes by: the name in its file, else that of its directory.
pub open spec fn instance_name(found: FoundDir) -> Seq<char> {
    match found.cfg {
        Some(text) => match value_of(crate::ini::ini_of(text@), "General"@, "name"@) {
            Some(name) => name,
            None => found.dir_name@,
        },
        None => found.dir_name@,
    }
}

pub open spec fn named(found: Seq<FoundDir>) -> Seq<InstanceView> {
    found.map_values(
        |f: FoundDir| (InstanceView { dir: f.dir@, name: instance_name(f) }),
    )
}

/// Instances are listed by name, whatever the case of its letters.
pub open spec fn name_keys(s: Seq<InstanceView>) -> Seq<(u64, Seq<char>)> {
    s.map_values(|i: InstanceView| (0u64, lowercase(i.name)))
}

fn name_of_dir(found: &FoundDir) -> (r: String)
    ensures
        r@ == instance_name(*found),
{
    if let Some(text) = &found.cfg {
        let ini = Ini::parse(text.as_str());
        if let Some(name) = ini.get("General", "name") {
            return name;
        }
    }
    found.dir_name.clone()
}

/// The instances in these directories, by name.
pub fn list_instances(found: Vec<FoundDir>) -> (r: Vec<Instance>)
    ensures
        instance_views(r@) == sorted(named(found@), name_keys(named(found@))),
{
    let mut out: Vec<Instance> = Vec::new();
    let mut keys: Vec<SortKey> = Vec::new();
    let ghost all = named(found@);
    let mut i: usize = 0;
    while i < found.len()
        invariant
            all == named(found@),
            i <= found.len(),
            out.len() == i,
            keys.len() == i,
            forall|j: int| 0 <= j < i ==> #[trigger] out@[j]@ == all[j],
            forall|j: int| 0 <= j < i ==> #[trigger] keys@[j]@ == (0u64, lowercase(all[j].name)),
        decreases found.len() - i,
    {
        let name = name_of_dir(&found[i]);
        keys.push(SortKey { number: 0, text: name.as_str().to_lowercase() });
        out.push(Instance { dir: found[i].dir.clone(), name });
        i += 1;
    }
    proof {
        assert(instance_views(out@) =~= all);
        assert(crate::order::key_views(keys@) =~= name_keys(all));
        crate::order::lemma_sorted_map(
            out@,
            name_keys(all),
            |i: Instance| i@,
        );
    }
    sort_by_keys(out, keys)
}

// ---------------------------------------------------------------------------
// Where instances live
// ---------------------------------------------------------------------------

pub open spec fn places_in(dir: Option<Seq<char>>, rels: Seq<Seq<char>>) -> Seq<Seq<char>> {
    match dir {
        Some(d) => rels.map_values(|rel: Seq<char>| path_in(d, rel)),
        None => Seq::empty(),
    }
}

/// The places where launchers keep instances, given the user's data, home and
/// configuration directories.
pub open spec fn known_places(
    data: Option<Seq<char>>,
    home: Option<Seq<char>>,
    config: Option<Seq<char>>,
) -> Seq<Seq<char>> {
    places_in(
        data,
        seq!["PrismLauncher/instances"@, "multimc/instances"@, "MultiMC/instances"@],
    ) + places_in(
        home,
        seq![
            ".var/app/org.prismlauncher.PrismLauncher/data/PrismLauncher/instances"@,
            ".local/share/PrismLauncher/instances"@,
            "PrismLauncher/instances"@,
        ],
    ) + places_in(config, seq!["PrismLauncher/instances"@])
}

/// The items without those that came before.
pub open spec fn distinct(s: Seq<Seq<char>>) -> Seq<Seq<char>>
    decreases s.len(),
{
    if s.len() == 0 {
        Seq::empty()
    } else {
        let init = distinct(s.drop_last());
        if init.contains(s.last()) {
            init
        } else {
            init.push(s.last())
        }
    }
}

fn add_place(out: &mut Vec<String>, place: String, Ghost(so_far): Ghost<Seq<Seq<char>>>)
    requires
        crate::text::texts(old(out)@) == distinct(so_far),
    ensures
        crate::text::texts(final(out)@) == distinct(so_far.push(place@)),
{
    let ghost o0 = crate::text::texts(out@);
    assert(so_far.push(place@).drop_last() =~= so_far);
    let mut i: usize = 0;
    while i < out.len()
        invariant
            i <= out.len(),
            o0 == crate::text::texts(out@),
            o0 == distinct(so_far),
            so_far.push(place@).drop_last() == so_far,
            forall|j: int| 0 <= j < i ==> #[trigger] o0[j] != place@,
        decreases out.len() - i,
    {
        if same(out[i].as_str(), place.as_str()) {
            assert(o0[i as int] == place@);
            assert(o0.contains(place@));
            return;
        }
        i += 1;
    }
    out.push(place);
    assert(crate::text::texts(out@) =~= o0.push(place@));
}

pub open spec fn optional_view(s: Option<&str>) -> Option<Seq<char>> {
    match s {
        Some(t) => Some(t@),
        None => None,
    }
}

/// Every plausible Prism/MultiMC instances directory, each once.
pub fn candidate_roots(data: Option<&str>, home: Option<&str>, config: Option<&str>) -> (r: Vec<
    String,
>)
    ensures
        crate::text::texts(r@) == distinct(
            known_places(optional_view(data), optional_view(home), optional_view(config)),
        ),
{
    let mut out: Vec<String> = Vec::new();
    let ghost mut seen: Seq<Seq<char>> = Seq::empty();
    assert(crate::text::texts(out@) =~= distinct(seen));
    if let Some(dir) = data {
        add_place(&mut out, join_path(dir, "PrismLauncher/instances"), Ghost(seen));
        proof {
            seen = seen.push(path_in(dir@, "PrismLauncher/instances"@));
        }
        add_place(&mut out, join_path(dir, "multimc/instances"), Ghost(seen));
        proof {
            seen = seen.push(path_in(dir@, "multimc/instances"@));
        }
        add_place(&mut out, join_path(dir, "MultiMC/instances"), Ghost(seen));
        proof {
            seen = seen.push(path_in(dir@, "MultiMC/instances"@));
        }
    }
    if let Some(dir) = home {
        add_place(
            &mut out,
            join_path(dir, ".var/app/org.prismlauncher.PrismLauncher/data/PrismLauncher/instances"),
            Ghost(seen),
        );
        proof {
            seen =
            seen.push(
                path_in(
                    dir@,
                    ".var/app/org.prismlauncher.PrismLauncher/data/PrismLauncher/instances"@,
                ),
            );
        }
        add_place(&mut out, join_path(dir, ".local/share/PrismLauncher/instances"), Ghost(seen));
        proof {
            seen = seen.push(path_in(dir@, ".local/share/PrismLauncher/instances"@));
        }
        add_place(&mut out, join_path(dir, "PrismLauncher/instances"), Ghost(seen));
        proof {
            seen = seen.push(path_in(dir@, "PrismLauncher/instances"@));
        }
    }
    if let Some(dir) = config {
        add_place(&mut out, join_path(dir, "PrismLauncher/instances"), Ghost(seen));
        proof {
            seen = seen.push(path_in(dir@, "PrismLauncher/instances"@));
        }
    }
    assert(seen =~= known_places(optional_view(data), optional_view(home), optional_view(config)));
    out
}

/// The list of places holds each place once, and misses none.
pub proof fn law_places_are_listed_once(places: Seq<Seq<char>>)
    ensures
        distinct(places).no_duplicates(),
        forall|p: Seq<char>| distinct(places).contains(p) <==> places.contains(p),
    decreases places.len(),
{
    if places.len() > 0 {
        let short = places.drop_last();
        law_places_are_listed_once(short);
        let init = distinct(short);
        let out = distinct(places);
        assert forall|p: Seq<char>| out.contains(p) <==> places.contains(p) by {
            assert(places.last() == places[places.len() - 1]);
            if out.contains(p) {
                let i = out.index_of(p);
                if i < init.len() {
                    assert(init[i] == p);
                    assert(short.contains(p));
                    assert(places[short.index_of(p)] == p);
                }
            }
            if places.contains(p) {
                if p == places.last() {
                    if !init.contains(p) {
                        assert(out[init.len() as int] == p);
                    }
                } else {
                    assert(short[places.index_of(p)] == p);
                    assert(short.contains(p));
                    assert(init.contains(p));
                    assert(out[init.index_of(p)] == p);
                }
            }
        }
    }
}

// ---------------------------------------------------------------------------
// Names for new instances
// ---------------------------------------------------------------------------

/// Why no directory name could be found.
#[derive(Debug, Clone, Copy, PartialEq, Eq, Structural)]
pub enum NameError {
    Empty,
    NoneFree,
}

impl NameError {
    /// What to tell the user.
    pub fn message(self, wanted: &str) -> (r: String)
        ensures
            r@ == (match self {
                NameError::Empty => "instance name cannot be empty"@,
                NameError::NoneFree => "could not find a free directory name for "@ + wanted@,
            }),
    {
        match self {
            NameError::Empty => "instance name cannot be empty".to_owned(),
            NameError::NoneFree => {
                let mut out = "could not find a free directory name for ".to_owned();
                out.append(wanted);
                out
            },
        }
    }
}

/// Characters that no file system takes in a name.
pub open spec fn is_reserved(c: char) -> bool {
    c == '/' || c == '\\' || c == ':' || c == '*' || c == '?' || c == '"' || c == '<' || c == '>'
        || c == '|'
}

pub open spec fn sanitized(wanted: Seq<char>) -> Seq<char> {
    wanted.map_values(
        |c: char|
            if is_reserved(c) {
                '-'
            } else {
                c
            },
    )
}

/// The names to try, in order: the wanted one, then with `-2`, `-3` and so on.
pub open spec fn name_to_try(wanted: Seq<char>, n: nat) -> Seq<char> {
    if n == 1 {
        sanitized(wanted)
    } else {
        sanitized(wanted).push('-') + decimal(n)
    }
}

fn sanitized_name(wanted: &str) -> (r: String)
    ensures
        r@ == sanitized(wanted@),
{
    let v = chars_of(wanted);
    let mut out: Vec<char> = Vec::new();
    let mut i: usize = 0;
    while i < v.len()
        invariant
            v@ == wanted@,
            i <= v.len(),
            out.len() == i,
            forall|j: int| 0 <= j < i ==> #[trigger] out@[j] == sanitized(wanted@)[j],
        decreases v.len() - i,
    {
        let c = v[i];
        if c == '/' || c == '\\' || c == ':' || c == '*' || c == '?' || c == '"' || c == '<' || c
            == '>' || c == '|' {
            out.push('-');
        } else {
            out.push(c);
        }
        i += 1;
    }
    assert(out@ =~= sanitized(wanted@));
    text_from(&out)
}

/// Whether `exists` may have said `found` of a name.
pub open spec fn answered<F: Fn(&str) -> bool>(exists_at: F, name: Seq<char>, found: bool) -> bool {
    exists|s: &str| s@ == name && #[trigger] call_ensures(exists_at, (s,), found)
}

/// Pick a directory name that does not exist yet, appending `-2`, `-3`, … if needed.
/// `exists_at` says whether a name is taken.
pub fn unique_dir_name<F: Fn(&str) -> bool>(wanted: &str, exists_at: F) -> (r: Result<
    String,
    NameError,
>)
    requires
        forall|s: &str| #[trigger] call_requires(exists_at, (s,)),
    ensures
        r == Err::<String, NameError>(NameError::Empty) <==> trim(wanted@).len() == 0,
        r matches Ok(name) ==> exists|n: nat|
            {
                &&& 1 <= n < 1000
                &&& name@ == #[trigger] name_to_try(wanted@, n)
                &&& answered(exists_at, name@, false)
                &&& forall|k: nat|
                    1 <= k < n ==> answered(exists_at, #[trigger] name_to_try(wanted@, k), true)
            },
        r == Err::<String, NameError>(NameError::NoneFree) ==> forall|k: nat|
            1 <= k < 1000 ==> answered(exists_at, #[trigger] name_to_try(wanted@, k), true),
{
    if chars_of(trimmed(wanted).as_str()).len() == 0 {
        return Err(NameError::Empty);
    }
    let base = sanitized_name(wanted);
    let mut n: u64 = 1;
    while n < 1000
        invariant
            1 <= n <= 1000,
            base@ == sanitized(wanted@),
            trim(wanted@).len() != 0,
            forall|s: &str| #[trigger] call_requires(exists_at, (s,)),
            forall|k: nat|
                1 <= k < n ==> answered(exists_at, #[trigger] name_to_try(wanted@, k), true),
        decreases 1000 - n,
    {
        let mut name = base.clone();
        if n > 1 {
            name.push('-');
            name.append(decimal_of(n).as_str());
        }
        assert(name@ == name_to_try(wanted@, n as nat));
        let taken = exists_at(name.as_str());
        assert(answered(exists_at, name@, taken));
        if !taken {
            return Ok(name);
        }
        n += 1;
    }
    Err(NameError::NoneFree)
}

/// A name to try holds nothing that a file system would not take, so it names a
/// directory right below the root.
pub proof fn law_names_hold_nothing_reserved(wanted: Seq<char>, n: nat)
    ensures
        forall|i: int|
            0 <= i < name_to_try(wanted, n).len() ==> !is_reserved(
                #[trigger] name_to_try(wanted, n)[i],
            ),
{
    crate::text::lemma_decimal_reads_back(n);
}

// ---------------------------------------------------------------------------
// Laws on the settings of a new instance
// ---------------------------------------------------------------------------

/// The position of every launch key.
proof fn lemma_each_launch_key()
    ensures
        launch_keys().len() == 58,
        launch_keys()[0] == "AutoCloseConsole"@,
        launch_keys()[1] == "AutomaticJava"@,
        launch_keys()[2] == "CloseAfterLaunch"@,
        launch_keys()[3] == "CustomGLFWPath"@,
        launch_keys()[4] == "CustomOpenALPath"@,
        launch_keys()[5] == "EnableFeralGamemode"@,
        launch_keys()[6] == "EnableMangoHud"@,
        launch_keys()[7] == "Env"@,
        launch_keys()[8] == "IgnoreJavaCompatibility"@,
        launch_keys()[9] == "InstanceAccountId"@,
        launch_keys()[10] == "JavaArchitecture"@,
        launch_keys()[11] == "JavaPath"@,
        launch_keys()[12] == "JavaRealArchitecture"@,
        launch_keys()[13] == "JavaSignature"@,
        launch_keys()[14] == "JavaVendor"@,
        launch_keys()[15] == "JavaVersion"@,
        launch_keys()[16] == "JoinServerOnLaunch"@,
        launch_keys()[17] == "JoinServerOnLaunchAddress"@,
        launch_keys()[18] == "JoinWorldOnLaunch"@,
        launch_keys()[19] == "JvmArgs"@,
        launch_keys()[20] == "LaunchMaximized"@,
        launch_keys()[21] == "LogPrePostOutput"@,
        launch_keys()[22] == "LowMemWarning"@,
        launch_keys()[23] == "MaxMemAlloc"@,
        launch_keys()[24] == "MinMemAlloc"@,
        launch_keys()[25] == "MinecraftWinHeight"@,
        launch_keys()[26] == "MinecraftWinWidth"@,
        launch_keys()[27] == "ModDownloadLoaders"@,
        launch_keys()[28] == "OnlineFixes"@,
        launch_keys()[29] == "OverrideCommands"@,
        launch_keys()[30] == "OverrideConsole"@,
        launch_keys()[31] == "OverrideEnv"@,
        launch_keys()[32] == "OverrideGameTime"@,
        launch_keys()[33] == "OverrideJavaArgs"@,
        launch_keys()[34] == "OverrideJavaLocation"@,
        launch_keys()[35] == "OverrideMemory"@,
        launch_keys()[36] == "OverrideMiscellaneous"@,
        launch_keys()[37] == "OverrideModDownloadLoaders"@,
        launch_keys()[38] == "OverrideNativeWorkarounds"@,
        launch_keys()[39] == "OverridePerformance"@,
        launch_keys()[40] == "OverrideWindow"@,
        launch_keys()[41] == "PermGen"@,
        launch_keys()[42] == "PostExitCommand"@,
        launch_keys()[43] == "PreLaunchCommand"@,
        launch_keys()[44] == "Profiler"@,
        launch_keys()[45] == "QuitAfterGameStop"@,
        launch_keys()[46] == "RecordGameTime"@,
        launch_keys()[47] == "ShowConsole"@,
        launch_keys()[48] == "ShowConsoleOnError"@,
        launch_keys()[49] == "ShowGameTime"@,
        launch_keys()[50] == "UseAccountForInstance"@,
        launch_keys()[51] == "UseDiscreteGpu"@,
        launch_keys()[52] == "UseNativeGLFW"@,
        launch_keys()[53] == "UseNativeOpenAL"@,
        launch_keys()[54] == "UseZink"@,
        launch_keys()[55] == "WrapperCommand"@,
        launch_keys()[56] == "notes"@,
        launch_keys()[57] == "totalTimePlayed"@,
{
}

/// The new instance launches as the old one did. Each of these settings has the old
/// instance's value wherever the old instance has one, and the pack's where it has
/// none.
pub proof fn law_each_launch_setting_follows_the_old_instance(
    pack: Seq<LineView>,
    old_lines: Seq<LineView>,
    name: Seq<char>,
    uuid: Seq<char>,
    key: Seq<char>,
)
    requires
        key == "AutoCloseConsole"@ || key == "AutomaticJava"@ || key == "CloseAfterLaunch"@ ||
            key == "CustomGLFWPath"@ || key == "CustomOpenALPath"@ ||
            key == "EnableFeralGamemode"@ || key == "EnableMangoHud"@ || key == "Env"@ ||
            key == "IgnoreJavaCompatibility"@ || key == "InstanceAccountId"@ ||
            key == "JavaArchitecture"@ || key == "JavaPath"@ || key == "JavaRealArchitecture"@ ||
            key == "JavaSignature"@ || key == "JavaVendor"@ || key == "JavaVersion"@ ||
            key == "JoinServerOnLaunch"@ || key == "JoinServerOnLaunchAddress"@ ||
            key == "JoinWorldOnLaunch"@ || key == "JvmArgs"@ || key == "LaunchMaximized"@ ||
            key == "LogPrePostOutput"@ || key == "LowMemWarning"@ || key == "MaxMemAlloc"@ ||
            key == "MinMemAlloc"@ || key == "MinecraftWinHeight"@ ||
            key == "MinecraftWinWidth"@ || key == "ModDownloadLoaders"@ ||
            key == "OnlineFixes"@ || key == "OverrideCommands"@ || key == "OverrideConsole"@ ||
            key == "OverrideEnv"@ || key == "OverrideGameTime"@ || key == "OverrideJavaArgs"@ ||
            key == "OverrideJavaLocation"@ || key == "OverrideMemory"@ ||
            key == "OverrideMiscellaneous"@ || key == "OverrideModDownloadLoaders"@ ||
            key == "OverrideNativeWorkarounds"@ || key == "OverridePerformance"@ ||
            key == "OverrideWindow"@ || key == "PermGen"@ || key == "PostExitCommand"@ ||
            key == "PreLaunchCommand"@ || key == "Profiler"@ || key == "QuitAfterGameStop"@ ||
            key == "RecordGameTime"@ || key == "ShowConsole"@ || key == "ShowConsoleOnError"@ ||
            key == "ShowGameTime"@ || key == "UseAccountForInstance"@ ||
            key == "UseDiscreteGpu"@ || key == "UseNativeGLFW"@ || key == "UseNativeOpenAL"@ ||
            key == "UseZink"@ || key == "WrapperCommand"@ || key == "notes"@ ||
            key == "totalTimePlayed"@,
    ensures
        ({
            let out = value_of(merged_cfg(pack, old_lines, name, uuid), "General"@, key);
            &&& value_of(old_lines, "General"@, key) is Some ==> out == value_of(
                old_lines,
                "General"@,
                key,
            )
            &&& value_of(old_lines, "General"@, key) is None ==> out == value_of(
                pack,
                "General"@,
                key,
            )
        }),
{
    lemma_each_launch_key();
    let i = lemma_launch_key_at(key);
    assert(launch_keys().contains(key));
    lemma_launch_keys(key);
    law_merged_settings(pack, old_lines, name, uuid, "General"@, key);
}

proof fn lemma_launch_key_at(key: Seq<char>) -> (i: int)
    requires
        key == "AutoCloseConsole"@ || key == "AutomaticJava"@ || key == "CloseAfterLaunch"@ ||
            key == "CustomGLFWPath"@ || key == "CustomOpenALPath"@ ||
            key == "EnableFeralGamemode"@ || key == "EnableMangoHud"@ || key == "Env"@ ||
            key == "IgnoreJavaCompatibility"@ || key == "InstanceAccountId"@ ||
            key == "JavaArchitecture"@ || key == "JavaPath"@ || key == "JavaRealArchitecture"@ ||
            key == "JavaSignature"@ || key == "JavaVendor"@ || key == "JavaVersion"@ ||
            key == "JoinServerOnLaunch"@ || key == "JoinServerOnLaunchAddress"@ ||
            key == "JoinWorldOnLaunch"@ || key == "JvmArgs"@ || key == "LaunchMaximized"@ ||
            key == "LogPrePostOutput"@ || key == "LowMemWarning"@ || key == "MaxMemAlloc"@ ||
            key == "MinMemAlloc"@ || key == "MinecraftWinHeight"@ ||
            key == "MinecraftWinWidth"@ || key == "ModDownloadLoaders"@ ||
            key == "OnlineFixes"@ || key == "OverrideCommands"@ || key == "OverrideConsole"@ ||
            key == "OverrideEnv"@ || key == "OverrideGameTime"@ || key == "OverrideJavaArgs"@ ||
            key == "OverrideJavaLocation"@ || key == "OverrideMemory"@ ||
            key == "OverrideMiscellaneous"@ || key == "OverrideModDownloadLoaders"@ ||
            key == "OverrideNativeWorkarounds"@ || key == "OverridePerformance"@ ||
            key == "OverrideWindow"@ || key == "PermGen"@ || key == "PostExitCommand"@ ||
            key == "PreLaunchCommand"@ || key == "Profiler"@ || key == "QuitAfterGameStop"@ ||
            key == "RecordGameTime"@ || key == "ShowConsole"@ || key == "ShowConsoleOnError"@ ||
            key == "ShowGameTime"@ || key == "UseAccountForInstance"@ ||
            key == "UseDiscreteGpu"@ || key == "UseNativeGLFW"@ || key == "UseNativeOpenAL"@ ||
            key == "UseZink"@ || key == "WrapperCommand"@ || key == "notes"@ ||
            key == "totalTimePlayed"@,
    ensures
        0 <= i < launch_keys().len(),
        launch_keys()[i] == key,
{
    lemma_each_launch_key();
    if key == "AutoCloseConsole"@ {
        0
    } else if key == "AutomaticJava"@ {
        1
    } else if key == "CloseAfterLaunch"@ {
        2
    } else if key == "CustomGLFWPath"@ {
        3
    } else if key == "CustomOpenALPath"@ {
        4
    } else if key == "EnableFeralGamemode"@ {
        5
    } else if key == "EnableMangoHud"@ {
        6
    } else if key == "Env"@ {
        7
    } else if key == "IgnoreJavaCompatibility"@ {
        8
    } else if key == "InstanceAccountId"@ {
        9
    } else if key == "JavaArchitecture"@ {
        10
    } else if key == "JavaPath"@ {
        11
    } else if key == "JavaRealArchitecture"@ {
        12
    } else if key == "JavaSignature"@ {
        13
    } else if key == "JavaVendor"@ {
        14
    } else if key == "JavaVersion"@ {
        15
    } else if key == "JoinServerOnLaunch"@ {
        16
    } else if key == "JoinServerOnLaunchAddress"@ {
        17
    } else if key == "JoinWorldOnLaunch"@ {
        18
    } else if key == "JvmArgs"@ {
        19
    } else if key == "LaunchMaximized"@ {
        20
    } else if key == "LogPrePostOutput"@ {
        21
    } else if key == "LowMemWarning"@ {
        22
    } else if key == "MaxMemAlloc"@ {
        23
    } else if key == "MinMemAlloc"@ {
        24
    } else if key == "MinecraftWinHeight"@ {
        25
    } else if key == "MinecraftWinWidth"@ {
        26
    } else if key == "ModDownloadLoaders"@ {
        27
    } else if key == "OnlineFixes"@ {
        28
    } else if key == "OverrideCommands"@ {
        29
    } else if key == "OverrideConsole"@ {
        30
    } else if key == "OverrideEnv"@ {
        31
    } else if key == "OverrideGameTime"@ {
        32
    } else if key == "OverrideJavaArgs"@ {
        33
    } else if key == "OverrideJavaLocation"@ {
        34
    } else if key == "OverrideMemory"@ {
        35
    } else if key == "OverrideMiscellaneous"@ {
        36
    } else if key == "OverrideModDownloadLoaders"@ {
        37
    } else if key == "OverrideNativeWorkarounds"@ {
        38
    } else if key == "OverridePerformance"@ {
        39
    } else if key == "OverrideWindow"@ {
        40
    } else if key == "PermGen"@ {
        41
    } else if key == "PostExitCommand"@ {
        42
    } else if key == "PreLaunchCommand"@ {
        43
    } else if key == "Profiler"@ {
        44
    } else if key == "QuitAfterGameStop"@ {
        45
    } else if key == "RecordGameTime"@ {
        46
    } else if key == "ShowConsole"@ {
        47
    } else if key == "ShowConsoleOnError"@ {
        48
    } else if key == "ShowGameTime"@ {
        49
    } else if key == "UseAccountForInstance"@ {
        50
    } else if key == "UseDiscreteGpu"@ {
        51
    } else if key == "UseNativeGLFW"@ {
        52
    } else if key == "UseNativeOpenAL"@ {
        53
    } else if key == "UseZink"@ {
        54
    } else if key == "WrapperCommand"@ {
        55
    } else if key == "notes"@ {
        56
    } else {
        57
    }
}

/// No other setting is taken over: whatever the old instance says, a setting that is
/// none of these is what the pack ships, but for the name, the id and the two times,
/// which are those of a new instance.
pub proof fn law_no_other_setting_is_taken_over(
    pack: Seq<LineView>,
    old_lines: Seq<LineView>,
    name: Seq<char>,
    uuid: Seq<char>,
    key: Seq<char>,
)
    requires
        key != "AutoCloseConsole"@ && key != "AutomaticJava"@ && key != "CloseAfterLaunch"@ &&
            key != "CustomGLFWPath"@ && key != "CustomOpenALPath"@ &&
            key != "EnableFeralGamemode"@ && key != "EnableMangoHud"@ && key != "Env"@ &&
            key != "IgnoreJavaCompatibility"@ && key != "InstanceAccountId"@ &&
            key != "JavaArchitecture"@ && key != "JavaPath"@ && key != "JavaRealArchitecture"@ &&
            key != "JavaSignature"@ && key != "JavaVendor"@ && key != "JavaVersion"@ &&
            key != "JoinServerOnLaunch"@ && key != "JoinServerOnLaunchAddress"@ &&
            key != "JoinWorldOnLaunch"@ && key != "JvmArgs"@ && key != "LaunchMaximized"@ &&
            key != "LogPrePostOutput"@ && key != "LowMemWarning"@ && key != "MaxMemAlloc"@ &&
            key != "MinMemAlloc"@ && key != "MinecraftWinHeight"@ &&
            key != "MinecraftWinWidth"@ && key != "ModDownloadLoaders"@ &&
            key != "OnlineFixes"@ && key != "OverrideCommands"@ && key != "OverrideConsole"@ &&
            key != "OverrideEnv"@ && key != "OverrideGameTime"@ && key != "OverrideJavaArgs"@ &&
            key != "OverrideJavaLocation"@ && key != "OverrideMemory"@ &&
            key != "OverrideMiscellaneous"@ && key != "OverrideModDownloadLoaders"@ &&
            key != "OverrideNativeWorkarounds"@ && key != "OverridePerformance"@ &&
            key != "OverrideWindow"@ && key != "PermGen"@ && key != "PostExitCommand"@ &&
            key != "PreLaunchCommand"@ && key != "Profiler"@ && key != "QuitAfterGameStop"@ &&
            key != "RecordGameTime"@ && key != "ShowConsole"@ && key != "ShowConsoleOnError"@ &&
            key != "ShowGameTime"@ && key != "UseAccountForInstance"@ &&
            key != "UseDiscreteGpu"@ && key != "UseNativeGLFW"@ && key != "UseNativeOpenAL"@ &&
            key != "UseZink"@ && key != "WrapperCommand"@ && key != "notes"@ &&
            key != "totalTimePlayed"@,
    ensures
        ({
            let out = value_of(merged_cfg(pack, old_lines, name, uuid), "General"@, key);
            &&& key == "name"@ ==> out == Some(name)
            &&& key == "uuid"@ ==> out == Some(uuid)
            &&& key == "lastLaunchTime"@ ==> out == Some("0"@)
            &&& key == "lastTimePlayed"@ ==> out == Some("0"@)
            &&& key != "name"@ && key != "uuid"@ && key != "lastLaunchTime"@ && key
                != "lastTimePlayed"@ ==> out == value_of(pack, "General"@, key)
        }),
{
    lemma_each_launch_key();
    if launch_keys().contains(key) {
        let i = launch_keys().index_of(key);
        assert(launch_keys()[i] == key);
    }
    lemma_sections_differ();
    law_merged_settings(pack, old_lines, name, uuid, "General"@, key);
}

/// Outside the general section only the view state follows the old instance; every
/// other section stays as the pack ships it.
pub proof fn law_other_sections_stay(
    pack: Seq<LineView>,
    old_lines: Seq<LineView>,
    name: Seq<char>,
    uuid: Seq<char>,
    section: Seq<char>,
    key: Seq<char>,
)
    requires
        section != "General"@,
    ensures
        ({
            let out = value_of(merged_cfg(pack, old_lines, name, uuid), section, key);
            &&& section == "UI"@ && value_of(old_lines, section, key) is Some ==> out == value_of(
                old_lines,
                section,
                key,
            )
            &&& section != "UI"@ || value_of(old_lines, section, key) is None ==> out == value_of(
                pack,
                section,
                key,
            )
        }),
{
    law_merged_settings(pack, old_lines, name, uuid, section, key);
}

/// The places where launchers keep instances are these, below the user's data, home
/// and configuration directories, and no others.
pub proof fn law_instances_are_looked_for_in_these_places(
    data: Seq<char>,
    home: Seq<char>,
    config: Seq<char>,
    place: Seq<char>,
)
    ensures
        distinct(known_places(Some(data), None, None)).contains(place) <==> place == path_in(
            data,
            "PrismLauncher/instances"@,
        ) || place == path_in(data, "multimc/instances"@) || place == path_in(
            data,
            "MultiMC/instances"@,
        ),
        distinct(known_places(None, Some(home), None)).contains(place) <==> place == path_in(
            home,
            ".var/app/org.prismlauncher.PrismLauncher/data/PrismLauncher/instances"@,
        ) || place == path_in(home, ".local/share/PrismLauncher/instances"@) || place == path_in(
            home,
            "PrismLauncher/instances"@,
        ),
        distinct(known_places(None, None, Some(config))).contains(place) <==> place == path_in(
            config,
            "PrismLauncher/instances"@,
        ),
        distinct(known_places(Some(data), Some(home), Some(config))).contains(place) <==> distinct(
            known_places(Some(data), None, None),
        ).contains(place) || distinct(known_places(None, Some(home), None)).contains(place)
            || distinct(known_places(None, None, Some(config))).contains(place),
{
    let a = known_places(Some(data), None, None);
    let b = known_places(None, Some(home), None);
    let c = known_places(None, None, Some(config));
    let all = known_places(Some(data), Some(home), Some(config));
    law_places_are_listed_once(a);
    law_places_are_listed_once(b);
    law_places_are_listed_once(c);
    law_places_are_listed_once(all);
    assert(a.len() == 3 && a[0] == path_in(data, "PrismLauncher/instances"@) && a[1] == path_in(
        data,
        "multimc/instances"@,
    ) && a[2] == path_in(data, "MultiMC/instances"@));
    assert(b.len() == 3 && b[0] == path_in(
        home,
        ".var/app/org.prismlauncher.PrismLauncher/data/PrismLauncher/instances"@,
    ) && b[1] == path_in(home, ".local/share/PrismLauncher/instances"@) && b[2] == path_in(
        home,
        "PrismLauncher/instances"@,
    ));
    assert(c.len() == 1 && c[0] == path_in(config, "PrismLauncher/instances"@));
    assert(all =~= a + b + c);
    if all.contains(place) {
        let i = all.index_of(place);
        if i < 3 {
            assert(a[i] == place);
        } else if i < 6 {
            assert(b[i - 3] == place);
        } else {
            assert(c[i - 6] == place);
        }
    }
    if a.contains(place) {
        assert(all[a.index_of(place)] == place);
    }
    if b.contains(place) {
        assert(all[3 + b.index_of(place)] == place);
    }
    if c.contains(place) {
        assert(all[6 + c.index_of(place)] == place);
    }
}

/// Every instance that was found is listed, under the name in its file or that of its
/// directory, and none in front of one whose name comes earlier in the alphabet.
pub proof fn law_instances_are_listed_by_name(found: Seq<FoundDir>, i: int, j: int, k: int)
    requires
        0 <= i < j < found.len(),
        0 <= k < found.len(),
    ensures
        ({
            let out = sorted(named(found), name_keys(named(found)));
            let text = found[k].cfg;
            let given = value_of(crate::ini::ini_of(text->0@), "General"@, "name"@);
            &&& out.len() == found.len()
            &&& !crate::text::before(lowercase(out[j].name), lowercase(out[i].name))
            &&& text is Some && given is Some ==> out.contains(
                InstanceView { dir: found[k].dir@, name: given->0 },
            )
            &&& text is None || given is None ==> out.contains(
                InstanceView { dir: found[k].dir@, name: found[k].dir_name@ },
            )
        }),
{
    let all = named(found);
    let keys = name_keys(all);
    let out = sorted(all, keys);
    let order = crate::order::order_of(keys);
    crate::order::law_sorting_keeps_every_item(keys);
    crate::order::law_sorting_is_stable(keys);
    crate::order::lemma_sorted_contains(all, keys);
    assert(order.contains(order[i]) && order.contains(order[j]));
    let a = order[i];
    let b = order[j];
    assert(out[i] == all[a] && out[j] == all[b]);
    assert(keys[a] == (0u64, lowercase(all[a].name)) && keys[b] == (0u64, lowercase(all[b].name)));
    crate::textmap::law_order_is_total(lowercase(all[a].name), lowercase(all[b].name));
    assert(all[k] == InstanceView { dir: found[k].dir@, name: instance_name(found[k]) });
    assert(all.contains(all[k]));
}

/// A name is changed only where it holds one of nine characters, each of which gives
/// way to a dash; where it is taken, a number from two on is tried behind it.
pub proof fn law_names_are_changed_as_little_as_needed(wanted: Seq<char>, n: nat)
    ensures
        name_to_try(wanted, 1).len() == wanted.len(),
        forall|i: int|
            0 <= i < wanted.len() ==> #[trigger] name_to_try(wanted, 1)[i] == (if wanted[i] == '/'
                || wanted[i] == '\\' || wanted[i] == ':' || wanted[i] == '*' || wanted[i] == '?'
                || wanted[i] == '"' || wanted[i] == '<' || wanted[i] == '>' || wanted[i] == '|' {
                '-'
            } else {
                wanted[i]
            }),
        n >= 2 ==> name_to_try(wanted, n) == name_to_try(wanted, 1) + "-"@ + decimal(n),
{
    reveal_strlit("-");
    assert(sanitized(wanted).push('-') + decimal(n) =~= sanitized(wanted) + "-"@ + decimal(n));
}

/// An id is thirty-two hexadecimal digits in lower case.
pub proof fn law_ids_are_hexadecimal(seed: u128)
    ensures
        id_text(seed).len() == 32,
        forall|i: int|
            0 <= i < 32 ==> ('0' <= #[trigger] id_text(seed)[i] <= '9' || 'a' <= id_text(seed)[i]
                <= 'f'),
{
}

/// How an id is made: a generator starts from the clock, the process and a constant, and
/// each of its states gives one digit, four bits of it from the sixtieth on.
pub proof fn law_how_an_id_is_made(nanos: u128, pid: u32, states: Seq<u128>, i: int)
    requires
        states.len() == 33,
        states[0] == nanos ^ ((pid as u128) << 64u128) ^ 0x9E37_79B9_7F4A_7C15u128,
        forall|k: int|
            0 <= k < 32 ==> #[trigger] states[k + 1] == states[k].wrapping_mul(
                6364136223846793005,
            ).wrapping_add(1442695040888963407),
        0 <= i < 32,
    ensures
        ({
            let d = (states[i + 1] as nat / 0x1000_0000_0000_0000) % 16;
            let c = id_text(id_seed(nanos, pid))[i];
            &&& d < 10 ==> c == (('0' as nat) + d) as char
            &&& d >= 10 ==> c == (('a' as nat) + (d - 10)) as char
        }),
{
    lemma_id_states(id_seed(nanos, pid), states, i + 1);
}

proof fn lemma_id_states(seed: u128, states: Seq<u128>, n: int)
    requires
        states.len() == 33,
        states[0] == seed,
        forall|k: int|
            0 <= k < 32 ==> #[trigger] states[k + 1] == states[k].wrapping_mul(
                6364136223846793005,
            ).wrapping_add(1442695040888963407),
        0 <= n <= 32,
    ensures
        states[n] == id_state(seed, n as nat),
    decreases n,
{
    if n > 0 {
        lemma_id_states(seed, states, n - 1);
        assert(states[(n - 1) + 1] == states[n]);
    }
}

/// What the new file says of a launch setting, asked of the files themselves: the old
/// instance's value where it has one, and the pack's where it has none.
pub proof fn law_what_the_new_settings_say(
    pack_cfg: Ini,
    old_cfg: Ini,
    name: &str,
    uuid: &str,
    r: Ini,
    key: &str,
    was: Option<String>,
    shipped: Option<String>,
    now: Option<String>,
)
    requires
        call_ensures(merge_instance_cfg, (&pack_cfg, &old_cfg, name, uuid), r),
        call_ensures(Ini::get, (&old_cfg, "General", key), was),
        call_ensures(Ini::get, (&pack_cfg, "General", key), shipped),
        call_ensures(Ini::get, (&r, "General", key), now),
        key@ == "AutoCloseConsole"@ || key@ == "AutomaticJava"@ || key@ == "CloseAfterLaunch"@ ||
            key@ == "CustomGLFWPath"@ || key@ == "CustomOpenALPath"@ ||
            key@ == "EnableFeralGamemode"@ || key@ == "EnableMangoHud"@ || key@ == "Env"@ ||
            key@ == "IgnoreJavaCompatibility"@ || key@ == "InstanceAccountId"@ ||
            key@ == "JavaArchitecture"@ || key@ == "JavaPath"@ ||
            key@ == "JavaRealArchitecture"@ || key@ == "JavaSignature"@ ||
            key@ == "JavaVendor"@ || key@ == "JavaVersion"@ || key@ == "JoinServerOnLaunch"@ ||
            key@ == "JoinServerOnLaunchAddress"@ || key@ == "JoinWorldOnLaunch"@ ||
            key@ == "JvmArgs"@ || key@ == "LaunchMaximized"@ || key@ == "LogPrePostOutput"@ ||
            key@ == "LowMemWarning"@ || key@ == "MaxMemAlloc"@ || key@ == "MinMemAlloc"@ ||
            key@ == "MinecraftWinHeight"@ || key@ == "MinecraftWinWidth"@ ||
            key@ == "ModDownloadLoaders"@ || key@ == "OnlineFixes"@ ||
            key@ == "OverrideCommands"@ || key@ == "OverrideConsole"@ ||
            key@ == "OverrideEnv"@ || key@ == "OverrideGameTime"@ ||
            key@ == "OverrideJavaArgs"@ || key@ == "OverrideJavaLocation"@ ||
            key@ == "OverrideMemory"@ || key@ == "OverrideMiscellaneous"@ ||
            key@ == "OverrideModDownloadLoaders"@ || key@ == "OverrideNativeWorkarounds"@ ||
            key@ == "OverridePerformance"@ || key@ == "OverrideWindow"@ || key@ == "PermGen"@ ||
            key@ == "PostExitCommand"@ || key@ == "PreLaunchCommand"@ || key@ == "Profiler"@ ||
            key@ == "QuitAfterGameStop"@ || key@ == "RecordGameTime"@ ||
            key@ == "ShowConsole"@ || key@ == "ShowConsoleOnError"@ || key@ == "ShowGameTime"@ ||
            key@ == "UseAccountForInstance"@ || key@ == "UseDiscreteGpu"@ ||
            key@ == "UseNativeGLFW"@ || key@ == "UseNativeOpenAL"@ || key@ == "UseZink"@ ||
            key@ == "WrapperCommand"@ || key@ == "notes"@ || key@ == "totalTimePlayed"@,
    ensures
        was matches Some(v) ==> (now matches Some(n) && n@ == v@),
        was is None && shipped is None ==> now is None,
        was is None ==> (shipped matches Some(v) ==> (now matches Some(n) && n@ == v@)),
{
    law_each_launch_setting_follows_the_old_instance(
        pack_cfg@,
        old_cfg@,
        name@,
        uuid@,
        key@,
    );
}

/// The name, the id and the two times are those of a new instance.
pub proof fn law_the_new_instance_is_its_own(
    pack_cfg: Ini,
    old_cfg: Ini,
    name: &str,
    uuid: &str,
    r: Ini,
    a: Option<String>,
    b: Option<String>,
    c: Option<String>,
    d: Option<String>,
)
    requires
        call_ensures(merge_instance_cfg, (&pack_cfg, &old_cfg, name, uuid), r),
        call_ensures(Ini::get, (&r, "General", "name"), a),
        call_ensures(Ini::get, (&r, "General", "uuid"), b),
        call_ensures(Ini::get, (&r, "General", "lastLaunchTime"), c),
        call_ensures(Ini::get, (&r, "General", "lastTimePlayed"), d),
    ensures
        a matches Some(t) && t@ == name@,
        b matches Some(t) && t@ == uuid@,
        c matches Some(t) && t@ == "0"@,
        d matches Some(t) && t@ == "0"@,
{
    lemma_sections_differ();
    law_merged_settings(pack_cfg@, old_cfg@, name@, uuid@, "General"@, "name"@);
    law_merged_settings(pack_cfg@, old_cfg@, name@, uuid@, "General"@, "uuid"@);
    law_merged_settings(pack_cfg@, old_cfg@, name@, uuid@, "General"@, "lastLaunchTime"@);
    law_merged_settings(pack_cfg@, old_cfg@, name@, uuid@, "General"@, "lastTimePlayed"@);
}

/// What is said where no name can be found for an instance.
pub proof fn law_what_a_bad_name_says(e: NameError, wanted: &str, r: String)
    requires
        call_ensures(NameError::message, (e, wanted), r),
    ensures
        e is Empty ==> r@ == "instance name cannot be empty"@,
        e is NoneFree ==> r@ == "could not find a free directory name for "@ + wanted@,
{
}

} // verus!
