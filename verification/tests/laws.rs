use dirstats::app::App;
use dirstats::format::size;
use dirstats::scan::{Metadata, ScanBuilder, ScanOptions, Stat, Walked};
use dirstats::settings::Settings;
use dirstats::tree::{Kind, SizeMetric};

/// The sizes as floating point formatting writes them.
fn size_by_float(bytes: u64) -> String {
    const UNITS: [&str; 7] = ["B", "KiB", "MiB", "GiB", "TiB", "PiB", "EiB"];
    if bytes < 1024 {
        return format!("{bytes} B");
    }
    let mut value = bytes as f64;
    let mut unit = 0;
    while value >= 1024.0 && unit < UNITS.len() - 1 {
        value /= 1024.0;
        unit += 1;
    }
    if value >= 100.0 { format!("{value:.0} {}", UNITS[unit]) } else { format!("{value:.1} {}", UNITS[unit]) }
}

#[test]
fn sizes_match_floating_point_formatting() {
    let mut samples: Vec<u64> = (0..5000).collect();
    samples.extend((0..200).map(|k| 1024 * k + 512));
    samples.extend((0..200).map(|k| 1024 * 1024 * k + 1024 * 512));
    samples.extend([1023, 1024, 1025, 1535, 1536, 1537, 102_348, 102_349, 102_350, 104_857_599, 104_857_600]);
    samples.extend((0..64).map(|s| 1u64 << s));
    samples.extend((0..64).map(|s| (1u64 << s).wrapping_sub(1)));
    samples.extend([u64::MAX, u64::MAX - 1, 150 << 20, 1_000_000_000_000]);
    let mut x: u64 = 0x9E37_79B9_7F4A_7C15;
    for _ in 0..20_000 {
        x ^= x << 13;
        x ^= x >> 7;
        x ^= x << 17;
        samples.push(x >> (x % 60));
    }
    for bytes in samples {
        assert_eq!(size(bytes), size_by_float(bytes), "{bytes}");
    }
}

#[test]
fn ties_round_to_even() {
    // 1.25 KiB and 1.75 KiB are exact halves at one decimal.
    assert_eq!(size(1280), "1.2 KiB");
    assert_eq!(size(1792), "1.8 KiB");
    assert_eq!(size(1024 * 100 + 512), "100 KiB");
    assert_eq!(size(u64::MAX), "16.0 EiB");
}

#[test]
fn settings_survive_a_round_trip() {
    for s in [Settings { permanent_delete: true }, Settings { permanent_delete: false }] {
        assert_eq!(Settings::parse(&s.serialise()), s);
    }
    assert_eq!(Settings { permanent_delete: true }.serialise(), "permanent_delete=true\n");
}

fn app() -> App {
    let read = |n| Metadata::Read(Stat { apparent_size: n, allocated_size: n, modified: None, link: None });
    let mut builder = ScanBuilder::new("/r".to_string(), &ScanOptions::with_threads(1));
    builder.accept(Walked { parent: None, directory: Some(0), name: "r".into(), kind: Kind::Directory, metadata: read(0) });
    builder.accept(Walked { parent: Some(0), directory: Some(1), name: "d".into(), kind: Kind::Directory, metadata: read(0) });
    builder.accept(Walked { parent: Some(0), directory: None, name: "f".into(), kind: Kind::File, metadata: read(3) });
    builder.accept(Walked { parent: Some(1), directory: None, name: "g".into(), kind: Kind::File, metadata: read(7) });
    let mut app = App::new(ScanOptions::with_threads(1));
    app.set_tree(builder.finish(false, SizeMetric::Allocated).unwrap(), false);
    app
}

#[test]
fn toggling_twice_restores_the_view() {
    let mut app = app();
    let d = app.entries()[0];
    let before = app.tree_rows();
    assert!(app.toggle_expanded(d));
    assert!(!app.toggle_expanded(d));
    assert_eq!(app.tree_rows(), before);
    assert!(!app.is_expanded(d));
}

#[test]
fn closed_rows_are_the_entries() {
    let app = app();
    let rows = app.tree_rows();
    let entries = app.entries();
    assert_eq!(rows.len(), entries.len());
    for (row, entry) in rows.iter().zip(entries.iter()) {
        assert_eq!(*row, (*entry, 0));
    }
}

#[test]
fn back_undoes_enter() {
    let mut app = app();
    let dir = app.dir();
    let selected = app.selected();
    assert!(app.enter());
    assert_ne!(app.dir(), dir);
    assert!(app.back());
    assert_eq!(app.dir(), dir);
    assert_eq!(app.selected(), selected);
    assert!(!app.can_back());
}
