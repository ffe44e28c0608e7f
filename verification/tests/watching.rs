//! What is said of a project's files.

use jmds::event::{Event, FileEvent};
use jmds::watch::{classify, gather, Batch, Change, EventKind, Ignore, Ours, Watch};

fn paths(list: &[&str]) -> Vec<String> {
    list.iter().map(|path| path.to_string()).collect()
}

fn change(path: &str, change: Change) -> (String, Change) {
    (path.to_string(), change)
}

fn file_path(event: &FileEvent) -> String {
    match event {
        FileEvent::Created { path }
        | FileEvent::Changed { path }
        | FileEvent::Removed { path }
        | FileEvent::EditorWrote { path } => path.clone(),
    }
}

#[test]
fn what_the_filesystem_says_is_narrowed_to_three_things() {
    let a = paths(&["a.txt"]);
    assert_eq!(classify(EventKind::Create, &a), vec![change("a.txt", Change::Created)]);
    assert_eq!(classify(EventKind::Modify, &a), vec![change("a.txt", Change::Changed)]);
    assert_eq!(classify(EventKind::Remove, &a), vec![change("a.txt", Change::Removed)]);
    assert!(classify(EventKind::Access, &a).is_empty(), "读不是改动");
    assert_eq!(classify(EventKind::Other, &a), vec![change("a.txt", Change::Changed)]);
}

#[test]
fn a_rename_is_a_removal_and_a_creation() {
    assert_eq!(
        classify(EventKind::RenameBoth, &paths(&["old.rs", "new.rs"])),
        vec![change("old.rs", Change::Removed), change("new.rs", Change::Created)]
    );
    assert_eq!(
        classify(EventKind::RenameFrom, &paths(&["old.rs"])),
        vec![change("old.rs", Change::Removed)]
    );
    assert_eq!(
        classify(EventKind::RenameTo, &paths(&["new.rs"])),
        vec![change("new.rs", Change::Created)]
    );
    assert_eq!(
        classify(EventKind::RenameBoth, &paths(&["one.rs"])),
        vec![change("one.rs", Change::Changed)]
    );
}

#[test]
fn a_save_is_one_change_not_five() {
    let mut batch = Batch::default();
    batch.absorb("src/main.rs", Change::Changed);
    batch.absorb("src/main.rs", Change::Changed);
    batch.absorb("src/main.rs", Change::Changed);
    assert_eq!(batch.drain(), vec![FileEvent::Changed { path: "src/main.rs".into() }]);
    assert!(batch.is_empty(), "抽干了就是抽干了");
}

#[test]
fn a_file_created_and_then_written_is_still_a_creation() {
    let mut batch = Batch::default();
    batch.absorb("delta.txt", Change::Created);
    batch.absorb("delta.txt", Change::Changed);
    assert_eq!(batch.drain(), vec![FileEvent::Created { path: "delta.txt".into() }]);
}

#[test]
fn a_temporary_file_created_written_and_deleted_is_still_nothing() {
    let mut batch = Batch::default();
    batch.absorb(".a.txt.swp", Change::Created);
    batch.absorb(".a.txt.swp", Change::Changed);
    batch.absorb(".a.txt.swp", Change::Removed);
    assert_eq!(batch.drain(), Vec::new());
}

#[test]
fn a_file_deleted_and_rewritten_within_the_window_is_a_change() {
    let mut batch = Batch::default();
    batch.absorb("a.txt", Change::Removed);
    batch.absorb("a.txt", Change::Created);
    assert_eq!(
        batch.drain(),
        vec![FileEvent::Changed { path: "a.txt".into() }],
        "原子保存覆盖旧文件，不是新文件"
    );
}

#[test]
fn a_temporary_file_that_comes_and_goes_is_not_reported() {
    let mut batch = Batch::default();
    batch.absorb(".a.txt.swp", Change::Created);
    batch.absorb(".a.txt.swp", Change::Removed);
    assert_eq!(batch.drain(), Vec::new());
}

#[test]
fn the_order_is_the_order_things_were_first_seen() {
    let mut batch = Batch::default();
    batch.absorb("b.txt", Change::Changed);
    batch.absorb("a.txt", Change::Changed);
    batch.absorb("b.txt", Change::Changed);
    let drained: Vec<String> = batch.drain().iter().map(file_path).collect();
    assert_eq!(drained, ["b.txt", "a.txt"]);
}

#[test]
fn a_build_directory_and_a_swap_file_are_not_worth_watching() {
    let ignore = Ignore::default();
    let root = "/work";
    assert!(ignore.ignores(root, "/work/target/debug/jmds"));
    assert!(ignore.ignores(root, "/work/.git/index"));
    assert!(ignore.ignores(root, "/work/crates/x/node_modules/y.js"));
    assert!(ignore.ignores(root, "/work/src/main.rs.swp"));
    assert!(ignore.ignores(root, "/work/src/main.rs~"));
    assert!(ignore.ignores(root, "/elsewhere/outside.rs"), "不是这个项目的东西");
    assert!(!ignore.ignores(root, "/work/src/main.rs"));
    assert!(!ignore.ignores(root, "/work/targets.rs"), "只是名字里有 target");
}

#[test]
fn an_announcement_covers_every_notification_in_its_window() {
    let mut ours = Ours::default();
    ours.announced("/work/a.txt");
    assert!(ours.takes("/work/a.txt"), "自己写的那条不回放");
    assert!(ours.takes("/work/a.txt"), "同一次写入的第二条也不回放");
    assert!(!ours.takes("/work/b.txt"));

    ours.forget();
    assert!(!ours.takes("/work/a.txt"), "下一个窗口里的改动是别人的");
}

#[test]
fn a_config_pattern_that_does_not_compile_does_not_stop_the_others() {
    let ignore = Ignore::from_patterns(&["**/*.log", "[这个不是 glob"]);
    let root = "/work";
    assert!(ignore.ignores(root, "/work/a.log"));
    assert!(!ignore.ignores(root, "/work/a.rs"));
}

#[test]
fn a_write_under_the_root_comes_back_as_one_change() {
    let mut watch = Watch::new("/work", Ignore::default());
    watch.notice(EventKind::Create, &paths(&["/work/a.txt"]));
    watch.notice(EventKind::Modify, &paths(&["/work/a.txt"]));
    assert_eq!(watch.close_window(), vec![FileEvent::Created { path: "/work/a.txt".into() }]);
    assert!(watch.close_window().is_empty());
}

#[test]
fn a_write_we_announced_does_not_come_back() {
    let mut watch = Watch::new("/work", Ignore::default());
    watch.hear(&Event::File(FileEvent::EditorWrote { path: "/work/mine.txt".into() }));
    watch.notice(EventKind::Modify, &paths(&["/work/mine.txt"]));
    watch.notice(EventKind::Modify, &paths(&["/work/yours.txt"]));
    assert_eq!(watch.close_window(), vec![FileEvent::Changed { path: "/work/yours.txt".into() }]);
    watch.notice(EventKind::Modify, &paths(&["/work/mine.txt"]));
    assert_eq!(watch.close_window(), vec![FileEvent::Changed { path: "/work/mine.txt".into() }]);
}

#[test]
fn a_build_directory_stays_quiet() {
    let mut watch = Watch::new("/work", Ignore::default());
    watch.notice(EventKind::Create, &paths(&["/work/target/debug/out"]));
    watch.notice(EventKind::Create, &paths(&["/work/kept.rs"]));
    assert_eq!(
        watch.close_window(),
        vec![FileEvent::Created { path: "/work/kept.rs".into() }],
        "该看的改动要到，构建产物不该出现"
    );
}

#[test]
fn a_pattern_is_matched_on_the_path_as_it_is_written() {
    let ignore = Ignore::from_patterns(&["a/b", "x//y"]);
    assert!(ignore.ignores("/work", "/work/a/b"));
    assert!(ignore.ignores("/work/.", "//work/.//a/b/."));
    assert!(!ignore.ignores("/work", "/work/a//b"));
    assert!(!ignore.ignores("/work", "/work/a/./b"));
    assert!(ignore.ignores("/work", "/work/x//y/"));
    assert!(ignore.ignores("/work", "/work/."), "the root itself");
    assert!(ignore.ignores("", "a/b/"));
    assert!(!ignore.ignores("", "./a/b"));
    assert!(ignore.ignores("", ""));
    assert!(!ignore.ignores("", "/"));
}

#[test]
fn a_set_that_was_not_built_ignores_nothing_below_the_root() {
    let nothing = Ignore::from_built(None);
    assert!(!nothing.ignores("/work", "/work/a.log"));
    assert!(nothing.ignores("/work", "/elsewhere/a.log"));
    let built = gather(&["**/*.log", "[这个不是 glob"]).build().ok();
    assert_eq!(built.as_ref().map(|set| set.len()), Some(1));
    assert!(Ignore::from_built(built).ignores("/work", "/work/a.log"));
}

#[test]
fn an_announcement_lasts_its_whole_window() {
    let mut ours = Ours::default();
    for i in 0..600 {
        ours.announced(&format!("/w/{i}"));
    }
    assert!((0..600).all(|i| ours.takes(&format!("/w/{i}"))));
    ours.forget();
    assert!(!ours.takes("/w/599"));
}
