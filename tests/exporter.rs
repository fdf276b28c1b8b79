use icon_theme::color::apply_color_mappings;
use icon_theme::error::ThemeError;
use icon_theme::export::{check_export_target, export_action, EntryKind, ExportAction, ExportTally};

#[test]
fn one_svg_and_one_png_are_rewritten_and_copied() {
    let mut tally = ExportTally::new();
    let entries = [
        (EntryKind::Directory, "src"),
        (EntryKind::File, "logo.svg"),
        (EntryKind::File, "photo.png"),
    ];
    let mut actions = Vec::new();
    for (kind, name) in entries.iter() {
        let a = export_action(*kind, name);
        tally.record(a);
        actions.push(a);
    }
    assert_eq!(
        actions,
        vec![ExportAction::CreateDir, ExportAction::RewriteSvg, ExportAction::CopyFile]
    );
    let r = tally.finish("/home/u/.local/share/icons/t".to_string());
    assert_eq!(r.svgs_processed, 1);
    assert_eq!(r.files_copied, 1);
    assert_eq!(r.output_dir, "/home/u/.local/share/icons/t");
}

#[test]
fn rewritten_svg_text() {
    let ms = vec![("#AABBCC".to_string(), "#112233".to_string())];
    assert_eq!(apply_color_mappings("<rect fill=\"#aabbcc\"/>", &ms), "<rect fill=\"#112233\"/>");
}

#[test]
fn existing_theme_is_refused() {
    let first = check_export_target("t".to_string(), "/i/t".to_string(), false);
    assert!(matches!(first, Ok(d) if d == "/i/t"));
    let second = check_export_target("t".to_string(), "/i/t".to_string(), true);
    assert!(matches!(
        second,
        Err(ThemeError::AlreadyExists { theme_name, output_dir })
            if theme_name == "t" && output_dir == "/i/t"
    ));
}

#[test]
fn symlinks_are_recreated_not_followed() {
    assert_eq!(export_action(EntryKind::Symlink, "dangling.svg"), ExportAction::RecreateSymlink);
    assert_eq!(export_action(EntryKind::Symlink, "dangling.png"), ExportAction::RecreateSymlink);
}

#[test]
fn links_and_directories_are_not_counted() {
    let mut tally = ExportTally::new();
    tally.record(ExportAction::RecreateSymlink);
    tally.record(ExportAction::CreateDir);
    assert_eq!(tally.svgs_processed, 0);
    assert_eq!(tally.files_copied, 0);
}

#[test]
fn broken_symlink_adds_to_neither_count() {
    let mut tally = ExportTally::new();
    tally.record(export_action(EntryKind::File, "a.svg"));
    tally.record(export_action(EntryKind::File, "b.txt"));
    let action = export_action(EntryKind::Symlink, "missing-target.svg");
    assert_eq!(action, ExportAction::RecreateSymlink);
    tally.record(action);
    assert_eq!(tally.svgs_processed, 1);
    assert_eq!(tally.files_copied, 1);
}
