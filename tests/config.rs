use deckard::config::{parse_exts, parse_max_depth, supported_extensions, UserOpts};
use deckard::scan::HashAlgorithm;

fn sorted(mut v: Vec<String>) -> Vec<String> {
    v.sort();
    v.dedup();
    v
}

#[test]
fn depth_empty_means_no_limit() {
    assert_eq!(parse_max_depth("").ok().unwrap(), None);
}

#[test]
fn depth_reads_a_number() {
    assert_eq!(parse_max_depth("12").ok().unwrap(), Some(12));
    assert_eq!(parse_max_depth("+3").ok().unwrap(), Some(3));
    assert_eq!(parse_max_depth("007").ok().unwrap(), Some(7));
}

#[test]
fn depth_of_zero_is_refused() {
    let e = parse_max_depth("0").err().unwrap();
    assert_eq!(e.err, "Invalid depth limit");
    assert_eq!(e.detail, "A depth limit of 0 doesn't search at all");
}

#[test]
fn depth_that_is_not_a_number_is_refused() {
    for text in ["x", "1x", " 1", "-1", "+", "1.5"] {
        let e = parse_max_depth(text).err().unwrap();
        assert_eq!(e.err, "Error parsing depth limit");
        assert_eq!(e.detail, "invalid digit found in string");
    }
}

#[test]
fn depth_too_large_is_refused() {
    let big = format!("{}0", usize::MAX);
    let e = parse_max_depth(&big).err().unwrap();
    assert_eq!(e.detail, "number too large to fit in target type");
    assert_eq!(parse_max_depth(&usize::MAX.to_string()).ok().unwrap(), Some(usize::MAX));
    // Overflow is seen before the stray character that follows the digits.
    let e = parse_max_depth(&format!("{}x", big)).err().unwrap();
    assert_eq!(e.detail, "number too large to fit in target type");
}

#[test]
fn exts_are_trimmed_and_undotted() {
    let set = parse_exts(" png, .jpg ,,..gif, png").ok().unwrap();
    assert_eq!(sorted(set.exts), vec!["gif", "jpg", "png"]);
}

#[test]
fn exts_empty_text_gives_empty_set() {
    let set = parse_exts(" , ,").ok().unwrap();
    assert!(set.exts.is_empty());
}

#[test]
fn exts_unsupported_is_refused() {
    let e = parse_exts("png,txt").err().unwrap();
    assert_eq!(e.err, "Extension Error");
    assert_eq!(e.detail, "Extension txt is not supported");
}

#[test]
fn exts_are_case_sensitive() {
    let e = parse_exts("PNG").err().unwrap();
    assert_eq!(e.detail, "Extension PNG is not supported");
}

#[test]
fn default_exts_parse_to_all_supported() {
    let opts = UserOpts::new("/pictures".to_owned());
    let set = parse_exts(&opts.exts).ok().unwrap();
    assert_eq!(sorted(set.exts), sorted(supported_extensions().exts));
    assert_eq!(supported_extensions().exts.len(), 16);
}

#[test]
fn user_opts_defaults() {
    let opts = UserOpts::new("/pictures".to_owned());
    assert_eq!(opts.root, "/pictures");
    assert_eq!(opts.hash, HashAlgorithm::Gradient);
    assert!(!opts.follow_sym);
    assert!(opts.max_depth.is_empty());
}

#[test]
fn user_opts_take_leaves_defaults() {
    let mut opts = UserOpts::new("/pictures".to_owned());
    opts.max_depth = "4".to_owned();
    let taken = opts.take();
    assert_eq!(taken.root, "/pictures");
    assert_eq!(taken.max_depth, "4");
    assert_eq!(opts.root, "");
    assert!(opts.max_depth.is_empty());
}

#[test]
fn request_needs_existing_root() {
    let opts = UserOpts::new("/nowhere".to_owned());
    let e = opts.make_request(false).err().unwrap();
    assert_eq!(e.err, "Path Error");
    assert_eq!(e.detail, "/nowhere doesn't exist");
    assert_eq!(e.message(), "Path Error: /nowhere doesn't exist");
}

#[test]
fn request_checks_depth_then_exts() {
    let mut opts = UserOpts::new("/pictures".to_owned());
    opts.max_depth = "0".to_owned();
    opts.exts = "txt".to_owned();
    assert_eq!(opts.make_request(true).err().unwrap().err, "Invalid depth limit");
    opts.max_depth = "2".to_owned();
    assert_eq!(opts.make_request(true).err().unwrap().err, "Extension Error");
    opts.exts = "png".to_owned();
    let req = opts.make_request(true).ok().unwrap();
    assert_eq!(req.root, "/pictures");
    assert_eq!(req.max_depth, Some(2));
    assert_eq!(req.exts.exts, vec!["png"]);
}
