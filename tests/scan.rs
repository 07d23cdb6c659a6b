use deckard::fault::FaultLog;
use deckard::filter::ExtensionSet;
use deckard::group::Aggregator;
use deckard::image::Image;
use deckard::scan::{
    file_outcome, Decoded, EntryStep, FileOutcome, LoadOutcome, Materializer, Scan, SearchResults,
    WalkEntry,
};
use image_hasher::{HashAlg, HasherConfig};

fn exts(list: &[&str]) -> ExtensionSet {
    ExtensionSet::new(list.iter().map(|s| s.to_string()).collect())
}

/// A picture whose left half is dark and right half light, or the reverse.
fn picture(flipped: bool) -> image::DynamicImage {
    let mut img = image::RgbImage::new(32, 32);
    for (x, _, px) in img.enumerate_pixels_mut() {
        let light = (x >= 16) != flipped;
        *px = if light { image::Rgb([250, 250, 250]) } else { image::Rgb([5, 5, 5]) };
    }
    image::DynamicImage::ImageRgb8(img)
}

fn hashed(img: image::DynamicImage) -> Decoded {
    let hasher = HasherConfig::new().hash_alg(HashAlg::Gradient).to_hasher();
    Decoded::Hashed(hasher.hash_image(&img).as_bytes().to_vec())
}

fn file(path: &str) -> WalkEntry {
    let depth = path.matches('/').count() - 1;
    WalkEntry::File { path: path.to_owned(), depth }
}

/// Runs the discover phase over `entries`, decoding each candidate with
/// `decode`, then reads every group member with `load`.
fn run(
    scan: &mut Scan,
    entries: Vec<WalkEntry>,
    decode: &dyn Fn(&str) -> Decoded,
) {
    for entry in entries {
        match scan.on_entry(false, entry) {
            EntryStep::Stop => break,
            EntryStep::Skip => {}
            EntryStep::Decode(p) => {
                let d = decode(&p);
                let outcome = file_outcome(p, d);
                scan.on_file(outcome);
            }
        }
    }
}

fn materialize(mut pass: Materializer, load: &dyn Fn(&str) -> LoadOutcome) -> SearchResults {
    while let Some(p) = pass.next_path(false) {
        let o = load(&p);
        pass.on_load(false, o);
    }
    pass.finish()
}

fn group_paths(results: &SearchResults) -> Vec<Vec<String>> {
    let mut groups: Vec<Vec<String>> = results
        .duplicates
        .iter()
        .map(|g| {
            let mut v: Vec<String> = g.iter().map(|i| i.path.clone()).collect();
            v.sort();
            v
        })
        .collect();
    groups.sort();
    groups
}

fn ok_load(_: &str) -> LoadOutcome {
    LoadOutcome::Loaded { bytes: vec![1, 2, 3], dimm: Some((4, 5)) }
}

#[test]
fn two_identical_and_one_unique() {
    let mut scan = Scan::new(exts(&["png"]), None);
    let decode = |p: &str| hashed(picture(p.ends_with("c.png")));
    run(&mut scan, vec![WalkEntry::Directory, file("/r/a.png"), file("/r/b.png"), file("/r/c.png")], &decode);
    let results = materialize(scan.into_materializer(false), &ok_load);
    assert_eq!(group_paths(&results), vec![vec!["/r/a.png".to_owned(), "/r/b.png".to_owned()]]);
    assert!(results.errors.is_empty());
    assert_eq!(results.duplicates.len(), 1);
    for img in &results.duplicates[0] {
        assert_eq!(img.buffer, vec![1, 2, 3]);
        assert_eq!(img.file_size, 3);
        assert_eq!(img.dimm, Some((4, 5)));
    }
}

#[test]
fn cancelled_before_discovery_gives_nothing() {
    let mut scan = Scan::new(exts(&["png"]), None);
    assert!(matches!(scan.on_entry(true, WalkEntry::Failed("denied".to_owned())), EntryStep::Stop));
    assert!(matches!(scan.on_entry(false, file("/r/a.png")), EntryStep::Stop));
    let decode = |_: &str| hashed(picture(false));
    run(&mut scan, vec![file("/r/a.png"), file("/r/b.png")], &decode);
    let mut pass = scan.into_materializer(false);
    assert!(pass.finished());
    assert!(pass.was_cancelled());
    assert_eq!(pass.next_path(false), None);
    let results = pass.finish();
    assert!(results.duplicates.is_empty());
    assert!(results.errors.is_empty());
}

#[test]
fn cancel_right_after_launch_gives_nothing() {
    let mut scan = Scan::new(exts(&["png"]), None);
    let decode = |_: &str| hashed(picture(false));
    run(&mut scan, vec![file("/r/a.png"), file("/r/b.png"), WalkEntry::Failed("x".to_owned())], &decode);
    // Cancellation seen when the discover phase ends.
    let pass = scan.into_materializer(true);
    assert!(pass.was_cancelled());
    let results = materialize(pass, &ok_load);
    assert!(results.duplicates.is_empty());
    assert!(results.errors.is_empty());
}

#[test]
fn cancel_during_materialize_gives_nothing() {
    let mut scan = Scan::new(exts(&["png"]), None);
    let decode = |_: &str| hashed(picture(false));
    run(&mut scan, vec![file("/r/a.png"), file("/r/b.png")], &decode);
    let mut pass = scan.into_materializer(false);
    let p = pass.next_path(false).unwrap();
    assert!(p == "/r/a.png" || p == "/r/b.png");
    pass.on_load(true, LoadOutcome::Loaded { bytes: vec![], dimm: None });
    assert_eq!(pass.next_path(false), None);
    let results = pass.finish();
    assert!(results.duplicates.is_empty());
    assert!(results.errors.is_empty());
}

#[test]
fn other_extensions_never_show() {
    let mut scan = Scan::new(exts(&["png"]), None);
    assert!(matches!(scan.on_entry(false, file("/r/a.gif")), EntryStep::Skip));
    assert!(matches!(scan.on_entry(false, file("/r/noext")), EntryStep::Skip));
    // An outcome for a path outside the set is dropped.
    scan.on_file(FileOutcome::Fault { path: "/r/x.gif".to_owned(), msg: "boom".to_owned() });
    scan.on_file(FileOutcome::Hashed { path: "/r/x.gif".to_owned(), hash: vec![1] });
    scan.on_file(FileOutcome::Hashed { path: "/r/y.gif".to_owned(), hash: vec![1] });
    let results = materialize(scan.into_materializer(false), &ok_load);
    assert!(results.duplicates.is_empty());
    assert!(results.errors.is_empty());
}

#[test]
fn corrupt_file_is_a_fault_and_others_still_group() {
    let mut scan = Scan::new(exts(&["png"]), None);
    let decode = |p: &str| {
        if p.ends_with("broken.png") {
            match image::load_from_memory(&[]) {
                Ok(img) => hashed(img),
                Err(e) => Decoded::Failed(e.to_string()),
            }
        } else if p.ends_with("crash.png") {
            Decoded::Panicked
        } else {
            hashed(picture(false))
        }
    };
    run(
        &mut scan,
        vec![
            file("/r/broken.png"),
            file("/r/a.png"),
            WalkEntry::Failed("permission denied".to_owned()),
            file("/r/crash.png"),
            file("/r/sub/b.png"),
        ],
        &decode,
    );
    let results = materialize(scan.into_materializer(false), &ok_load);
    assert_eq!(group_paths(&results), vec![vec!["/r/a.png".to_owned(), "/r/sub/b.png".to_owned()]]);
    let mut errors = results.errors.clone();
    errors.sort();
    assert_eq!(errors.len(), 3);
    assert!(errors[0].starts_with("Error opening image /r/broken.png: "));
    assert_eq!(errors[1], "Error walking directory: permission denied");
    assert_eq!(errors[2], "Panic opening image /r/crash.png");
}

#[test]
fn depth_one_sees_no_duplicate_of_deeper_file() {
    let mut scan = Scan::new(exts(&["png"]), Some(1));
    assert!(matches!(scan.on_entry(false, file("/r/d/y.png")), EntryStep::Skip));
    let decode = |_: &str| hashed(picture(false));
    run(&mut scan, vec![WalkEntry::Directory, file("/r/x.png"), file("/r/d/y.png")], &decode);
    let results = materialize(scan.into_materializer(false), &ok_load);
    assert!(results.duplicates.is_empty());
    assert!(results.errors.is_empty());
}

#[test]
fn reopen_faults_drop_members_and_small_groups() {
    let mut scan = Scan::new(exts(&["png"]), None);
    for p in ["/r/a.png", "/r/b.png", "/r/c.png"] {
        scan.on_file(FileOutcome::Hashed { path: p.to_owned(), hash: vec![7] });
    }
    for p in ["/r/d.png", "/r/e.png"] {
        scan.on_file(FileOutcome::Hashed { path: p.to_owned(), hash: vec![9] });
    }
    let load = |p: &str| match p {
        "/r/a.png" => LoadOutcome::OpenFailed("gone".to_owned()),
        "/r/d.png" => LoadOutcome::ReadFailed("bad sector".to_owned()),
        _ => LoadOutcome::Loaded { bytes: vec![0], dimm: None },
    };
    let results = materialize(scan.into_materializer(false), &load);
    assert_eq!(group_paths(&results), vec![vec!["/r/b.png".to_owned(), "/r/c.png".to_owned()]]);
    let mut errors = results.errors.clone();
    errors.sort();
    assert_eq!(errors, vec!["Error opening /r/a.png: gone", "Error reading /r/d.png: bad sector"]);
}

#[test]
fn file_outcome_keeps_the_hash() {
    match file_outcome("/r/a.png".to_owned(), Decoded::Hashed(vec![3, 1, 4])) {
        FileOutcome::Hashed { path, hash } => {
            assert_eq!(path, "/r/a.png");
            assert_eq!(hash, vec![3, 1, 4]);
        }
        FileOutcome::Fault { .. } => panic!("expected a hash"),
    }
}

#[test]
fn file_outcome_reports_failures() {
    match file_outcome("/r/x.png".to_owned(), Decoded::Failed("bad".to_owned())) {
        FileOutcome::Fault { path, msg } => {
            assert_eq!(path, "/r/x.png");
            assert_eq!(msg, "Error opening image /r/x.png: bad");
        }
        FileOutcome::Hashed { .. } => panic!("expected a fault"),
    }
    match file_outcome("/r/y.png".to_owned(), Decoded::Panicked) {
        FileOutcome::Fault { msg, .. } => assert_eq!(msg, "Panic opening image /r/y.png"),
        FileOutcome::Hashed { .. } => panic!("expected a fault"),
    }
}

#[test]
fn collect_after_cancel_is_empty() {
    let full = SearchResults {
        duplicates: vec![vec![Image::new("a".to_owned(), vec![], None), Image::new("b".to_owned(), vec![], None)]],
        errors: vec!["x".to_owned()],
    };
    let r = full.collect(true);
    assert!(r.duplicates.is_empty() && r.errors.is_empty());
    let full = SearchResults { duplicates: vec![], errors: vec!["x".to_owned()] };
    assert_eq!(full.collect(false).errors, vec!["x"]);
}

#[test]
fn aggregator_groups_by_hash() {
    let mut agg = Aggregator::new();
    agg.insert(vec![1], "a".to_owned());
    agg.insert(vec![2], "b".to_owned());
    agg.insert(vec![1], "c".to_owned());
    agg.insert(vec![1], "a".to_owned());
    agg.insert(vec![3], "d".to_owned());
    agg.insert(vec![3], "e".to_owned());
    let mut groups: Vec<(Vec<u8>, Vec<String>)> =
        agg.into_groups().into_iter().map(|g| {
            let mut paths = g.paths;
            paths.sort();
            (g.hash, paths)
        }).collect();
    groups.sort();
    assert_eq!(
        groups,
        vec![
            (vec![1], vec!["a".to_owned(), "c".to_owned()]),
            (vec![3], vec!["d".to_owned(), "e".to_owned()]),
        ]
    );
}

#[test]
fn insertion_order_does_not_change_groups() {
    let pairs: Vec<(Vec<u8>, &str)> = vec![
        (vec![1], "a"),
        (vec![2], "b"),
        (vec![1], "c"),
        (vec![2], "d"),
        (vec![5], "e"),
    ];
    let groups_of = |order: &[usize]| {
        let mut agg = Aggregator::new();
        for &i in order {
            agg.insert(pairs[i].0.clone(), pairs[i].1.to_owned());
        }
        let mut g: Vec<Vec<String>> = agg
            .into_groups()
            .into_iter()
            .map(|g| {
                let mut p = g.paths;
                p.sort();
                p
            })
            .collect();
        g.sort();
        g
    };
    let first = groups_of(&[0, 1, 2, 3, 4]);
    assert_eq!(first, groups_of(&[4, 3, 2, 1, 0]));
    assert_eq!(first, groups_of(&[2, 0, 4, 1, 3, 2]));
    assert_eq!(first.len(), 2);
}

#[test]
fn fault_log_keeps_each_text_once() {
    let mut log = FaultLog::new();
    log.record("x".to_owned());
    log.record("y".to_owned());
    log.record("x".to_owned());
    let mut v = log.into_vec();
    v.sort();
    assert_eq!(v, vec!["x", "y"]);
}

#[test]
fn empty_results_are_empty() {
    let r = SearchResults::empty();
    assert!(r.duplicates.is_empty() && r.errors.is_empty());
    let _ = Image::new(String::new(), vec![], None);
}

#[test]
fn a_path_keeps_its_first_hash() {
    let mut scan = Scan::new(exts(&["png"]), None);
    scan.on_file(FileOutcome::Hashed { path: "/r/a.png".to_owned(), hash: vec![1] });
    scan.on_file(FileOutcome::Hashed { path: "/r/a.png".to_owned(), hash: vec![2] });
    scan.on_file(FileOutcome::Hashed { path: "/r/b.png".to_owned(), hash: vec![1] });
    scan.on_file(FileOutcome::Hashed { path: "/r/c.png".to_owned(), hash: vec![2] });
    let results = materialize(scan.into_materializer(false), &ok_load);
    assert_eq!(group_paths(&results), vec![vec!["/r/a.png".to_owned(), "/r/b.png".to_owned()]]);
}
