//! Application settings kept in `.noda/settings.json`: their defaults, and the decisions
//! taken when they are loaded and saved (a missing device name is generated; a renamed
//! device is checked against the names the server already knows). Reading, writing and
//! the server requests are the caller's.
use vstd::prelude::*;
use crate::text::{chars_of, string_of, contains, contains_seq};
use crate::models::{RemoteEntry, RemoteEntryView, str_eq};
use crate::engine::SyncConfig;
use crate::vault::{file_name_of, path_file_name};

verus! {

/// The default theme: `dark`.
pub fn default_theme() -> (r: String)
    ensures
        r@ == seq!['d', 'a', 'r', 'k'],
{
    string_of(&['d', 'a', 'r', 'k'])
}

/// The default accent colour: `blue`.
pub fn default_accent_color() -> (r: String)
    ensures
        r@ == seq!['b', 'l', 'u', 'e'],
{
    string_of(&['b', 'l', 'u', 'e'])
}

/// The default editor font size: 14.
pub fn default_font_size() -> (r: u32)
    ensures
        r == 14,
{
    14
}

/// The default typography: `sans`.
pub fn default_typography() -> (r: String)
    ensures
        r@ == seq!['s', 'a', 'n', 's'],
{
    string_of(&['s', 'a', 'n', 's'])
}

/// Whether the word count shows by default: yes.
pub fn default_show_word_count() -> (r: bool)
    ensures
        r,
{
    true
}

/// The default auto-save delay: 1500 ms.
pub fn default_auto_save_delay_ms() -> (r: u32)
    ensures
        r == 1500,
{
    1500
}

/// How long history is kept by default: 30 days.
pub fn default_retention_days() -> (r: u32)
    ensures
        r == 30,
{
    30
}

/// How many snapshots a note keeps by default: 50.
pub fn default_max_snapshots_per_note() -> (r: u32)
    ensures
        r == 50,
{
    50
}

/// After how many days the trash is emptied by default: 30.
pub fn default_empty_trash_after_days() -> (r: u32)
    ensures
        r == 30,
{
    30
}

/// The default interval between snapshots: 5 minutes.
pub fn default_snapshot_interval_mins() -> (r: u32)
    ensures
        r == 5,
{
    5
}

/// Theme and accent colour.
#[derive(Debug)]
pub struct AppearanceSettings {
    pub theme: String,
    pub accent_color: String,
}

impl Default for AppearanceSettings {
    fn default() -> (r: AppearanceSettings)
        ensures
            r.theme@ == seq!['d', 'a', 'r', 'k'],
            r.accent_color@ == seq!['b', 'l', 'u', 'e'],
    {
        AppearanceSettings { theme: default_theme(), accent_color: default_accent_color() }
    }
}

/// Editor preferences.
#[derive(Debug)]
pub struct EditorSettings {
    pub font_size: u32,
    pub typography: String,
    pub show_word_count: bool,
    pub auto_save_delay_ms: u32,
    pub default_daily_template: Option<String>,
}

impl Default for EditorSettings {
    fn default() -> (r: EditorSettings)
        ensures
            r.font_size == 14,
            r.typography@ == seq!['s', 'a', 'n', 's'],
            r.show_word_count,
            r.auto_save_delay_ms == 1500,
            r.default_daily_template is None,
    {
        EditorSettings {
            font_size: default_font_size(),
            typography: default_typography(),
            show_word_count: default_show_word_count(),
            auto_save_delay_ms: default_auto_save_delay_ms(),
            default_daily_template: None,
        }
    }
}

/// History and trash retention.
#[derive(Debug)]
pub struct HistorySettings {
    pub retention_days: u32,
    pub max_snapshots_per_note: u32,
    pub empty_trash_after_days: u32,
    pub snapshot_interval_mins: u32,
}

impl Default for HistorySettings {
    fn default() -> (r: HistorySettings)
        ensures
            r.retention_days == 30,
            r.max_snapshots_per_note == 50,
            r.empty_trash_after_days == 30,
            r.snapshot_interval_mins == 5,
    {
        HistorySettings {
            retention_days: default_retention_days(),
            max_snapshots_per_note: default_max_snapshots_per_note(),
            empty_trash_after_days: default_empty_trash_after_days(),
            snapshot_interval_mins: default_snapshot_interval_mins(),
        }
    }
}

impl Default for SyncConfig {
    fn default() -> (r: SyncConfig)
        ensures
            r.webdav_url@.len() == 0,
            r.webdav_username@.len() == 0,
            r.webdav_password is None,
            r.interval_secs == 0,
            r.device_name@.len() == 0,
    {
        SyncConfig {
            webdav_url: String::new(),
            webdav_username: String::new(),
            webdav_password: None,
            interval_secs: 0,
            device_name: String::new(),
        }
    }
}

/// All application settings.
#[derive(Debug)]
pub struct AppConfig {
    pub appearance: AppearanceSettings,
    pub editor: EditorSettings,
    pub sync: SyncConfig,
    pub history: HistorySettings,
}

impl Default for AppConfig {
    fn default() -> (r: AppConfig)
        ensures
            r.appearance.theme@ == seq!['d', 'a', 'r', 'k'],
            r.appearance.accent_color@ == seq!['b', 'l', 'u', 'e'],
            r.editor.font_size == 14,
            r.editor.typography@ == seq!['s', 'a', 'n', 's'],
            r.editor.show_word_count,
            r.editor.auto_save_delay_ms == 1500,
            r.editor.default_daily_template is None,
            r.sync.webdav_url@.len() == 0,
            r.sync.webdav_username@.len() == 0,
            r.sync.webdav_password is None,
            r.sync.interval_secs == 0,
            r.sync.device_name@.len() == 0,
            r.history.retention_days == 30,
            r.history.max_snapshots_per_note == 50,
            r.history.empty_trash_after_days == 30,
            r.history.snapshot_interval_mins == 5,
    {
        AppConfig {
            appearance: AppearanceSettings::default(),
            editor: EditorSettings::default(),
            sync: SyncConfig::default(),
            history: HistorySettings::default(),
        }
    }
}

/// A freshly saved device name is checked against the server when sync is configured
/// (a server URL is set) and the name changed to a non-empty one.
pub open spec fn device_check_due(url: Seq<char>, new_name: Seq<char>, old_name: Seq<char>) -> bool {
    url.len() > 0 && new_name != old_name && new_name.len() > 0
}

/// `true` when saving `new` over `old` renames this device on a configured server, so
/// the new name is to be checked and announced.
pub fn device_check_needed(new: &AppConfig, old: &AppConfig) -> (r: bool)
    ensures
        r == device_check_due(new.sync.webdav_url@, new.sync.device_name@, old.sync.device_name@),
{
    let url = chars_of(new.sync.webdav_url.as_str());
    let name = chars_of(new.sync.device_name.as_str());
    url.len() > 0 && !str_eq(new.sync.device_name.as_str(), old.sync.device_name.as_str()) && name.len() > 0
}

/// The file by which a device announces itself: `<name>.sync`.
pub open spec fn announce_file(name: Seq<char>) -> Seq<char> {
    name + seq!['.', 's', 'y', 'n', 'c']
}

/// Some file of the listing is named `<name>.sync`.
pub open spec fn name_taken(entries: Seq<RemoteEntry>, name: Seq<char>) -> bool {
    exists|i: int| 0 <= i < entries.len() && !(#[trigger] entries[i]).is_collection
        && path_file_name(entries[i].href@) == Some(announce_file(name))
}

/// `true` when the listing of `.noda/sync` already holds another device's
/// announcement under `name`.
pub fn device_name_taken(entries: &Vec<RemoteEntry>, name: &str) -> (r: bool)
    ensures
        r == name_taken(entries@, name@),
{
    let mut expected = chars_of(name);
    expected.push('.');
    expected.push('s');
    expected.push('y');
    expected.push('n');
    expected.push('c');
    assert(expected@ =~= announce_file(name@));
    let want = string_of(&expected);
    let mut i: usize = 0;
    while i < entries.len()
        invariant
            i <= entries@.len(),
            want@ == announce_file(name@),
            forall|j: int| 0 <= j < i ==> !((#[trigger] entries@[j]).is_collection == false
                && path_file_name(entries@[j].href@) == Some(announce_file(name@))),
        decreases entries.len() - i,
    {
        if !entries[i].is_collection {
            match file_name_of(entries[i].href.as_str()) {
                Some(f) => {
                    if str_eq(f.as_str(), want.as_str()) {
                        return true;
                    }
                },
                None => {},
            }
        }
        i += 1;
    }
    false
}

/// A failed listing that only means the directory is not there yet: its message holds
/// `404` or `Not Found`.
pub open spec fn listing_absent(message: Seq<char>) -> bool {
    contains_seq(message, seq!['4', '0', '4']) || contains_seq(message, seq!['N', 'o', 't', ' ', 'F', 'o', 'u', 'n', 'd'])
}

/// `true` when a failed listing of `.noda/sync` only means that nothing is there yet
/// (no name is taken); otherwise the failure is the save's error.
pub fn listing_failure_means_absent(message: &str) -> (r: bool)
    ensures
        r == listing_absent(message@),
{
    let m = chars_of(message);
    let a = ['4', '0', '4'];
    let b = ['N', 'o', 't', ' ', 'F', 'o', 'u', 'n', 'd'];
    assert(a@ =~= seq!['4', '0', '4']);
    assert(b@ =~= seq!['N', 'o', 't', ' ', 'F', 'o', 'u', 'n', 'd']);
    contains(m.as_slice(), &a) || contains(m.as_slice(), &b)
}

/// Completes freshly loaded settings: a missing device name is generated. Tells
/// whether it was (the settings are then to be saved at once).
pub fn complete_loaded(config: &mut AppConfig) -> (generated: bool)
    ensures
        generated == (old(config).sync.device_name@.len() == 0),
        generated ==> crate::engine::is_generated_device_name(final(config).sync.device_name@),
        !generated ==> final(config).sync.device_name@ == old(config).sync.device_name@,
        final(config).sync.webdav_url@ == old(config).sync.webdav_url@,
        final(config).sync.interval_secs == old(config).sync.interval_secs,
        final(config).appearance == old(config).appearance,
        final(config).editor == old(config).editor,
        final(config).history == old(config).history,
{
    config.sync.ensure_device_name()
}

} // verus!
