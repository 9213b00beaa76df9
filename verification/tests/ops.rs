use dux::ops::{
    deletion_plan, deletion_summary, file_manager_invocation, opened_summary, operation_failure,
    permanent_deletion, root_paths, DeletionRefused, Desktop, FileManagerInvocation, FileOperation,
};
use dux::paths::EntryPath;

fn paths(texts: &[&str]) -> Vec<EntryPath> {
    texts.iter().map(|text| EntryPath::from_text(text)).collect()
}

fn shown(paths: &[EntryPath]) -> Vec<String> {
    paths.iter().map(|path| path.display()).collect()
}

#[test]
fn root_paths_collapses_nested_targets() {
    let paths = root_paths(paths(&["/tmp/a/b", "/tmp/a", "/tmp/c"]));

    assert_eq!(shown(&paths), vec!["/tmp/a", "/tmp/c"]);
}

#[test]
fn roots_cover_all_and_stand_apart() {
    let given = ["/x/y/z", "b", "/x/y", "a/./c", "a/c/d", "a//c", "/x/yy", "b/", "."];
    let roots = root_paths(paths(&given));
    for path in paths(&given) {
        assert!(roots.iter().any(|root| path.starts_with(root)));
    }
    for (i, a) in roots.iter().enumerate() {
        assert!(given.contains(&a.display().as_str()));
        for (j, b) in roots.iter().enumerate() {
            assert!(i == j || !a.starts_with(b));
        }
    }
    assert_eq!(shown(&roots), vec![".", "b", "a/./c", "/x/y", "/x/yy"]);
}

#[test]
fn file_manager_invocation_reveals_paths() {
    let path = EntryPath::from_text("/tmp/example/file.txt");

    assert_eq!(
        file_manager_invocation(Desktop::MacOs, &path, false),
        FileManagerInvocation {
            program: "open",
            args: vec!["-R".to_string(), "/tmp/example/file.txt".to_string()]
        }
    );
    assert_eq!(
        file_manager_invocation(Desktop::Windows, &path, false),
        FileManagerInvocation {
            program: "explorer",
            args: vec!["/select,/tmp/example/file.txt".to_string()]
        }
    );
    assert_eq!(
        file_manager_invocation(Desktop::Freedesktop, &path, false),
        FileManagerInvocation {
            program: "xdg-open",
            args: vec!["/tmp/example".to_string()]
        }
    );
}

#[test]
fn directories_are_opened_themselves_and_bare_names_in_the_current_one() {
    let open = |text: &str, is_dir: bool| {
        file_manager_invocation(Desktop::Freedesktop, &EntryPath::from_text(text), is_dir).args
    };
    assert_eq!(open("/tmp/example", true), vec!["/tmp/example"]);
    assert_eq!(open("file.txt", false), vec!["."]);
    assert_eq!(open("/", false), vec!["."]);
    assert_eq!(open("a/b", false), vec!["a"]);
}

#[test]
fn deletions_need_a_confirmation() {
    let refused = deletion_plan(paths(&["/tmp/a"]), false);
    assert_eq!(refused.unwrap_err(), DeletionRefused);
    assert_eq!(DeletionRefused.message(), "refusing to delete without --yes");

    let plan = deletion_plan(paths(&["/tmp/a/b", "/tmp/a"]), true).unwrap();
    assert_eq!(shown(&plan), vec!["/tmp/a"]);
}

#[test]
fn operations_are_told_about() {
    let path = EntryPath::from_text("/tmp/x");
    assert_eq!(
        operation_failure(FileOperation::Trash, &path),
        "failed to move /tmp/x to trash"
    );
    assert_eq!(operation_failure(FileOperation::Inspect, &path), "failed to inspect /tmp/x");
    assert_eq!(
        operation_failure(FileOperation::DeleteDirectory, &path),
        "failed to delete directory /tmp/x"
    );
    assert_eq!(
        operation_failure(FileOperation::DeleteFile, &path),
        "failed to delete file /tmp/x"
    );
    assert_eq!(
        operation_failure(FileOperation::Open, &path),
        "failed to open /tmp/x in file manager"
    );
    assert_eq!(permanent_deletion(true), FileOperation::DeleteDirectory);
    assert_eq!(permanent_deletion(false), FileOperation::DeleteFile);
    assert_eq!(deletion_summary(true, 3), "Deleted permanently 3 item(s)");
    assert_eq!(deletion_summary(false, 12), "Moved to trash 12 item(s)");
    assert_eq!(opened_summary(2), "Opened 2 item(s) in file manager");
}
