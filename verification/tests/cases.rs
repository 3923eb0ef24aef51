use dirstats::backup::{in_backup_path, is_backup_volume, is_dated};
use dirstats::cloud::{from_sizes, CloudStatus};
use dirstats::format::size;
use dirstats::locations::unescape_mount;
use dirstats::scan::firmlink_duplicates;
use dirstats::session::{gui_available_in, Platform};
use dirstats::settings::Settings;

fn env(vars: &[(&str, &str)]) -> Vec<(String, String)> {
    vars.iter().map(|(k, v)| (k.to_string(), v.to_string())).collect()
}

#[test]
fn backup_paths() {
    assert!(in_backup_path("/Volumes/TM/Backups.backupdb/Mac/Latest/Macintosh HD/Users"));
    assert!(in_backup_path("/Volumes/.timemachine/ABC/2026-09-01-120000.backup/2026-09-01-120000.backup"));
    assert!(!in_backup_path("/Users/me/Backups"));
    assert!(!in_backup_path("/Volumes/.timemachinex/a"));
}

#[test]
fn dated_names() {
    assert!(is_dated("2026-09-01-120000.backup", ".backup"));
    assert!(is_dated("2026-09-01-120000.previous", ".previous"));
    assert!(!is_dated("2026-09-01.backup", ".backup"));
    assert!(!is_dated("notes.backup", ".backup"));
}

#[test]
fn ordinary_folders_are_not_backups() {
    // An ordinary folder holds nothing that marks a backup; a
    // `Backups.backupdb` folder is one.
    let empty: Vec<String> = Vec::new();
    assert!(!is_backup_volume("/tmp/ordinary", Some(&empty)));
    assert!(is_backup_volume("/tmp/ordinary/Backups.backupdb", Some(&empty)));
}

#[test]
fn directory_state_comes_from_sizes() {
    assert_eq!(from_sizes(10_000, 0), CloudStatus::Evicted);
    assert_eq!(from_sizes(10_000, 12_288), CloudStatus::Downloaded);
    assert_eq!(from_sizes(0, 0), CloudStatus::Downloaded, "nothing to fetch when empty");
}

#[test]
fn sizes() {
    assert_eq!(size(0), "0 B");
    assert_eq!(size(1023), "1023 B");
    assert_eq!(size(1536), "1.5 KiB");
    assert_eq!(size(150 << 20), "150 MiB");
}

#[test]
fn round_trips_and_ignores_junk() {
    let on = Settings { permanent_delete: true };
    assert_eq!(Settings::parse(&on.serialise()), on);
    assert_eq!(Settings::parse("garbage\npermanent_delete = true \nother=1"), on);
    assert_eq!(Settings::parse("permanent_delete=yes"), Settings::default());
    assert_eq!(Settings::parse(""), Settings::default());
}

#[test]
fn unescapes_octal() {
    assert_eq!(unescape_mount("/media/My\\040Disk"), "/media/My Disk");
}

#[test]
fn firmlink_targets_are_skipped_only_from_above() {
    let table = "/Users\tUsers\n/usr/local\tusr/local\n";
    let data = |s: &str| format!("/System/Volumes/Data/{s}");
    assert_eq!(firmlink_duplicates(table, "/"), vec![data("Users"), data("usr/local")]);
    assert!(firmlink_duplicates(table, "/System/Volumes/Data/Users/me").is_empty(), "no firmlink below a Data folder");
    assert_eq!(firmlink_duplicates(table, "/Users/me"), Vec::<String>::new(), "no firmlink inside a home scan");
    assert_eq!(firmlink_duplicates(table, "/usr"), vec![data("usr/local")]);
    assert!(firmlink_duplicates(table, "/System/Volumes/Data").is_empty(), "the Data volume counts everything");
    assert!(firmlink_duplicates("", "/").is_empty());
}

#[test]
fn local_desktop() {
    assert!(gui_available_in(Platform::Unix, &env(&[("WAYLAND_DISPLAY", "wayland-0")])));
    assert!(gui_available_in(Platform::MacOs, &env(&[])));
    assert!(gui_available_in(Platform::Windows, &env(&[])));
}

#[test]
fn plain_ssh() {
    // Windows keeps the window unless --tui is given.
    let vars = env(&[("SSH_CONNECTION", "10.0.0.2 5000 10.0.0.1 22")]);
    assert_eq!(gui_available_in(Platform::Unix, &vars), false);
    assert_eq!(gui_available_in(Platform::Windows, &vars), true);
}

#[test]
fn unix_console_and_forwarding() {
    assert!(!gui_available_in(Platform::Unix, &env(&[])));
    assert!(!gui_available_in(Platform::Unix, &env(&[("DISPLAY", "")])));
    assert!(gui_available_in(Platform::Unix, &env(&[("SSH_TTY", "/dev/pts/0"), ("DISPLAY", "localhost:10.0")])));
}
