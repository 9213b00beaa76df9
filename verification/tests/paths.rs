use std::path::{Component, Path};

use dux::path_map::PathMap;
use dux::paths::{display_name, display_path, normalize_root, EntryPath};

const SAMPLES: [&str; 34] = [
    "", "/", "//", ".", "..", "./", "./.", "a", "a/", "/a", "//a", "a/b", "a//b", "a/./b", "a/.",
    "./a", ".//a", "/./a", "/..", "a/..", "a/../b", ".a", "a/.b", "..a/b", "/tmp/a/b", "/tmp/a",
    "/tmp/a/", "/tmp/c", "/tmp/example/file.txt", "/tmp/example//file.txt", "/tmp//x", "-x/y",
    "/tmp/ab", "a.",
];

fn std_parts(text: &str) -> Vec<Vec<u8>> {
    Path::new(text)
        .components()
        .map(|component| match component {
            Component::RootDir => b"/".to_vec(),
            Component::CurDir => b".".to_vec(),
            Component::ParentDir => b"..".to_vec(),
            Component::Normal(name) => name.as_encoded_bytes().to_vec(),
            Component::Prefix(_) => unreachable!(),
        })
        .collect()
}

#[test]
fn parts_agree_with_the_components_of_std() {
    for text in SAMPLES {
        assert_eq!(EntryPath::from_text(text).parts(), std_parts(text), "{text}");
    }
}

#[test]
fn comparisons_agree_with_std() {
    for a in SAMPLES {
        for b in SAMPLES {
            let x = EntryPath::from_text(a);
            let y = EntryPath::from_text(b);
            assert_eq!(x.same_path(&y), Path::new(a) == Path::new(b), "{a} {b}");
            assert_eq!(x.starts_with(&y), Path::new(a).starts_with(b), "{a} {b}");
        }
    }
}

#[test]
fn parents_agree_with_std() {
    for text in SAMPLES {
        let expected = Path::new(text).parent().map(|p| p.display().to_string());
        let found = EntryPath::from_text(text).parent().map(|p| p.display());
        assert_eq!(found, expected, "{text}");
    }
}

#[test]
fn names_agree_with_std() {
    for text in SAMPLES {
        let path = Path::new(text);
        let expected = path
            .file_name()
            .map(|name| name.to_string_lossy().into_owned())
            .filter(|name| !name.is_empty())
            .unwrap_or_else(|| path.display().to_string());
        assert_eq!(display_name(&EntryPath::from_text(text)), expected, "{text}");
    }
}

#[test]
fn relative_paths_agree_with_std() {
    for base in SAMPLES {
        for text in SAMPLES {
            let path = Path::new(text);
            let expected = path
                .strip_prefix(base)
                .ok()
                .filter(|relative| !relative.as_os_str().is_empty())
                .unwrap_or(path)
                .display()
                .to_string();
            let found = display_path(&EntryPath::from_text(base), &EntryPath::from_text(text));
            assert_eq!(found, expected, "{base} {text}");
        }
    }
}

#[test]
fn roots_are_taken_from_the_current_directory() {
    for dir in SAMPLES {
        for text in SAMPLES {
            let expected = Path::new(dir).join(text).display().to_string();
            let found = normalize_root(
                &EntryPath::from_text(text),
                Some(EntryPath::from_text(dir)),
            );
            assert_eq!(found.display(), expected, "{dir} {text}");
        }
    }
    let unknown = normalize_root(&EntryPath::from_text("a"), None);
    assert_eq!(unknown.display(), "./a");
}

#[test]
fn bytes_that_are_not_utf8_are_replaced_when_shown() {
    let path = EntryPath::from_bytes(vec![0x2f, 0x61, 0xff]);
    assert_eq!(path.display(), "/a\u{fffd}");
    assert_eq!(path.as_bytes().len(), 3);
    assert_eq!(display_name(&path), "a\u{fffd}");
}

#[test]
fn maps_are_ordered_as_std_orders_paths() {
    let mut map: PathMap<&Path> = PathMap::new();
    for text in SAMPLES {
        map.insert(EntryPath::from_text(text), Path::new(text));
    }
    let mut expected: Vec<&Path> = SAMPLES.iter().map(Path::new).collect();
    expected.sort();
    expected.dedup();
    let found: Vec<&Path> = map.values().into_iter().copied().collect();
    assert_eq!(found, expected);
}
