use icon_theme::entry::is_svg_name;
use icon_theme::error::ThemeError;
use icon_theme::scan::{check_scan_root, preview_order, PreviewRead, ScanState, PREVIEW_LIMIT};

#[test]
fn preview_order_is_largest_first_and_stable() {
    let sizes: Vec<u64> = vec![3, 9, 9, 1, 5, 7, 2];
    assert_eq!(preview_order(&sizes), vec![1, 2, 5, 4, 0]);
}

#[test]
fn preview_order_keeps_walk_order_on_equal_sizes() {
    let sizes: Vec<u64> = vec![4, 4, 4, 4, 4, 4, 4];
    assert_eq!(preview_order(&sizes), vec![0, 1, 2, 3, 4]);
}

#[test]
fn preview_order_of_few_entries_takes_all() {
    assert_eq!(preview_order(&vec![1, 3, 2]), vec![1, 2, 0]);
    assert_eq!(preview_order(&Vec::new()), Vec::<usize>::new());
    assert_eq!(PREVIEW_LIMIT, 5);
}

#[test]
fn aliases_of_one_file_count_once() {
    let mut st = ScanState::new();
    assert!(st.record_svg("/real/a.svg".to_string(), "/d/a.svg".to_string(), 10));
    assert!(st.has_seen(&"/real/a.svg".to_string()));
    assert!(!st.record_svg("/real/a.svg".to_string(), "/d/link.svg".to_string(), 10));
    assert!(st.record_svg("/real/b.svg".to_string(), "/d/b.svg".to_string(), 20));
    assert_eq!(st.total_svg_count(), 2);
}

#[test]
fn scan_result_previews_largest_readable_files() {
    let mut st = ScanState::new();
    let sizes: [u64; 7] = [10, 70, 30, 70, 50, 20, 60];
    for (i, z) in sizes.iter().enumerate() {
        let p = format!("/d/{}.svg", i);
        assert!(st.record_svg(p.clone(), p, *z));
    }
    st.record_other();
    st.record_other();
    let cands = st.preview_candidates();
    let paths: Vec<&str> = cands.iter().map(|c| c.0.as_str()).collect();
    assert_eq!(paths, vec!["/d/1.svg", "/d/3.svg", "/d/6.svg", "/d/4.svg", "/d/2.svg"]);
    let texts = vec![
        PreviewRead::Text("one".to_string()),
        PreviewRead::NotUtf8,
        PreviewRead::Text("six".to_string()),
        PreviewRead::Text("four".to_string()),
        PreviewRead::Text("two".to_string()),
    ];
    let r = st.finish("/d".to_string(), &cands, texts).unwrap();
    assert_eq!(r.source_dir, "/d");
    assert_eq!(r.total_svg_count, 7);
    assert_eq!(r.non_svg_count, 2);
    let shown: Vec<(&str, u64, &str)> = r
        .preview_svgs
        .iter()
        .map(|f| (f.path.as_str(), f.size, f.content.as_str()))
        .collect();
    assert_eq!(
        shown,
        vec![
            ("/d/1.svg", 70, "one"),
            ("/d/6.svg", 60, "six"),
            ("/d/4.svg", 50, "four"),
            ("/d/2.svg", 30, "two"),
        ]
    );
}

#[test]
fn empty_scan() {
    let st = ScanState::new();
    let cands = st.preview_candidates();
    assert!(cands.is_empty());
    let r = st.finish("empty".to_string(), &cands, Vec::new()).unwrap();
    assert_eq!(r.total_svg_count, 0);
    assert_eq!(r.non_svg_count, 0);
    assert!(r.preview_svgs.is_empty());
}

#[test]
fn scan_root_must_be_a_directory() {
    assert!(matches!(
        check_scan_root("x".to_string(), false),
        Err(ThemeError::NotADirectory { path }) if path == "x"
    ));
    assert!(matches!(check_scan_root("d".to_string(), true), Ok(p) if p == "d"));
}

#[test]
fn svg_extension_matching() {
    assert!(is_svg_name("icon.svg"));
    assert!(is_svg_name("ICON.SvG"));
    assert!(is_svg_name("a.b.svg"));
    assert!(!is_svg_name(".svg"));
    assert!(!is_svg_name("svg"));
    assert!(!is_svg_name("icon.svgz"));
    assert!(!is_svg_name("icon.png"));
    assert!(!is_svg_name("iconsvg"));
}

#[test]
fn read_failure_other_than_utf8_fails_the_scan() {
    let mut st = ScanState::new();
    assert!(st.record_svg("/r/a.svg".to_string(), "/d/a.svg".to_string(), 5));
    assert!(st.record_svg("/r/b.svg".to_string(), "/d/b.svg".to_string(), 9));
    assert!(st.record_svg("/r/c.svg".to_string(), "/d/c.svg".to_string(), 1));
    let cands = st.preview_candidates();
    let reads = vec![
        PreviewRead::NotUtf8,
        PreviewRead::Failed("permission denied".to_string()),
        PreviewRead::Failed("gone".to_string()),
    ];
    let r = st.finish("/d".to_string(), &cands, reads);
    assert!(matches!(
        r,
        Err(ThemeError::Io { path, message }) if path == "/d/a.svg" && message == "permission denied"
    ));
}

#[test]
fn symlink_alias_counts_once_in_preview() {
    let mut st = ScanState::new();
    assert!(st.record_svg("/d/a.svg".to_string(), "/d/a.svg".to_string(), 12));
    assert!(!st.record_svg("/d/a.svg".to_string(), "/d/b.svg".to_string(), 12));
    let cands = st.preview_candidates();
    let r = st
        .finish("/d".to_string(), &cands, vec![PreviewRead::Text("<svg/>".to_string())])
        .unwrap();
    assert_eq!(r.total_svg_count, 1);
    assert_eq!(r.non_svg_count, 0);
    assert_eq!(r.preview_svgs.len(), 1);
}
