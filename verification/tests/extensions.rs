use dirstats::extensions::{files_fit, ExtensionRanking};
use dirstats::scan::{Metadata, ScanBuilder, ScanOptions, Stat, Walked};
use dirstats::tree::{Kind, NodeId, SizeMetric, Tree};

fn read(n: u64) -> Metadata {
    Metadata::Read(Stat { apparent_size: n, allocated_size: n, modified: None, link: None })
}

fn options() -> ScanOptions {
    let mut options = ScanOptions::with_threads(1);
    options.size_metric = SizeMetric::Apparent;
    options
}

fn flat(files: &[(&str, u64)]) -> Tree {
    let mut builder = ScanBuilder::new("/x".to_string(), &options());
    builder.accept(Walked { parent: None, directory: Some(0), name: "x".into(), kind: Kind::Directory, metadata: read(0) });
    for (name, size) in files {
        builder.accept(Walked { parent: Some(0), directory: None, name: name.to_string(), kind: Kind::File, metadata: read(*size) });
    }
    builder.finish(false, SizeMetric::Apparent).unwrap()
}

fn find(tree: &Tree, name: &str) -> NodeId {
    (0..tree.len() as u32).map(NodeId).find(|&id| tree.node(id).name == name).unwrap()
}

#[test]
fn ranked_extensions_get_distinct_hues() {
    let tree = flat(&[("a.rs", 5000), ("b.rs", 4000), ("c.png", 3000), ("d.txt", 100), ("e", 50)]);
    assert!(files_fit(&tree));
    let ranking = ExtensionRanking::rank(&tree);
    assert_eq!(ranking.len(), 4, "rs, png, txt and no extension");
    assert!(!ranking.is_empty());
    let entries = ranking.entries();
    assert_eq!(entries[0], (Some("rs".to_string()), 9000), "largest extension gets the first rank");
    assert_eq!(entries[1], (Some("png".to_string()), 3000));
    assert_eq!(entries[2], (Some("txt".to_string()), 100));
    assert_eq!(entries[3], (None, 50));
    assert_eq!(ranking.rank_of(&Some("png".to_string())), Some(1));
    assert_eq!(ranking.rank_of(&Some("zip".to_string())), None);
}

#[test]
fn ties_rank_by_extension() {
    let tree = flat(&[("b.zip", 10), ("a.ZIP", 5), ("c.bin", 15), ("d", 15)]);
    let ranking = ExtensionRanking::rank(&tree);
    let names: Vec<Option<String>> = ranking.entries().iter().map(|e| e.0.clone()).collect();
    assert_eq!(names, vec![None, Some("bin".to_string()), Some("zip".to_string())]);
    assert_eq!(ranking.entries()[2].1, 15, "extensions are grouped lower-cased");
}

#[test]
fn mix_aggregates_bytes_per_directory() {
    let mut builder = ScanBuilder::new("/x".to_string(), &options());
    builder.accept(Walked { parent: None, directory: Some(0), name: "x".into(), kind: Kind::Directory, metadata: read(0) });
    builder.accept(Walked { parent: Some(0), directory: Some(1), name: "sub".into(), kind: Kind::Directory, metadata: read(0) });
    builder.accept(Walked { parent: Some(0), directory: None, name: "a.rs".into(), kind: Kind::File, metadata: read(30_000) });
    builder.accept(Walked { parent: Some(1), directory: None, name: "b.rs".into(), kind: Kind::File, metadata: read(20_000) });
    builder.accept(Walked { parent: Some(1), directory: None, name: "c.png".into(), kind: Kind::File, metadata: read(10_000) });
    let tree = builder.finish(false, SizeMetric::Apparent).unwrap();
    let ranking = ExtensionRanking::rank(&tree);
    let mix = ranking.mix(&tree, 8);
    let root = tree.root();
    let rs = ranking.rank_of(&Some("rs".to_string())).unwrap() as u32;
    let png = ranking.rank_of(&Some("png".to_string())).unwrap() as u32;
    assert_eq!(mix.segments(root), &[(rs, 50_000), (png, 10_000)]);
    let sub = find(&tree, "sub");
    assert_eq!(mix.segments(sub), &[(rs, 20_000), (png, 10_000)]);
    let a = find(&tree, "a.rs");
    assert_eq!(mix.segments(a), &[(rs, 30_000)]);
    assert_eq!(ranking.mix(&tree, 1).segments(root), &[(rs, 50_000)]);
    assert!(ranking.mix(&tree, 0).segments(root).is_empty());
}

#[test]
fn empty_files_leave_no_segment() {
    let tree = flat(&[("a.rs", 0), ("b.png", 7)]);
    let ranking = ExtensionRanking::rank(&tree);
    let mix = ranking.mix(&tree, 4);
    let png = ranking.rank_of(&Some("png".to_string())).unwrap() as u32;
    assert_eq!(mix.segments(tree.root()), &[(png, 7)]);
    assert!(mix.segments(find(&tree, "a.rs")).is_empty());
}

#[test]
fn the_legend_names_extensions_with_their_dot() {
    assert_eq!(dirstats::extensions::legend_label(Some("jpg")), ".jpg");
    assert_eq!(dirstats::extensions::legend_label(None), "(none)");
}

#[test]
fn fewer_ranks_keep_a_prefix_of_the_breakdown() {
    let tree = flat(&[("a.rs", 9), ("b.png", 7), ("c.txt", 5), ("d.md", 3)]);
    let ranking = ExtensionRanking::rank(&tree);
    let full = ranking.mix(&tree, 8);
    let all = full.segments(tree.root()).to_vec();
    assert_eq!(all.len(), 4);
    for keep in 0..6usize {
        let cut = ranking.mix(&tree, keep);
        assert_eq!(cut.segments(tree.root()), &all[..keep.min(all.len())]);
    }
}
