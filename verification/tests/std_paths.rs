use std::path::{Component, Path, PathBuf};

use dirserve::paths::{components, file_name, is_absolute, is_within, join, same_path, strip_prefix};

const SAMPLES: [&str; 36] = [
    "",
    "/",
    "//",
    ".",
    "..",
    "./",
    "/.",
    "/..",
    "a",
    "/a",
    "a/",
    "a/b",
    "/srv",
    "/srv/",
    "/srv/.",
    "/srv//",
    "/srv/sub",
    "/srv/sub/",
    "/srv//sub/./a",
    "/srv/sub/../a",
    "/srv/sub/a.txt",
    "/srvx",
    "/srv/...",
    "./a/b",
    ".//a/./b/",
    "a/./b",
    "../a",
    "/etc/passwd",
    "/srv/sub/index.html",
    "srv/sub",
    "/srv/./sub/./a/./",
    "/srv///sub/../a//.",
    "./.",
    ".//",
    "/a/b/..",
    "a//b//",
];

fn text(bytes: Vec<u8>) -> String {
    String::from_utf8(bytes).unwrap()
}

fn std_components(path: &Path) -> Vec<String> {
    path.components()
        .map(|c| match c {
            Component::RootDir => "/".to_string(),
            Component::CurDir => ".".to_string(),
            Component::ParentDir => "..".to_string(),
            Component::Normal(name) => name.to_str().unwrap().to_string(),
            Component::Prefix(_) => unreachable!(),
        })
        .collect()
}

#[test]
fn components_are_those_of_the_standard_library() {
    for sample in SAMPLES {
        let ours: Vec<String> = components(sample.as_bytes()).into_iter().map(text).collect();
        assert_eq!(ours, std_components(Path::new(sample)), "{:?}", sample);
    }
}

#[test]
fn is_absolute_is_that_of_the_standard_library() {
    for sample in SAMPLES {
        assert_eq!(is_absolute(sample.as_bytes()), Path::new(sample).is_absolute(), "{:?}", sample);
    }
}

#[test]
fn join_is_that_of_the_standard_library() {
    for base in SAMPLES {
        for rest in SAMPLES {
            let ours = text(join(base.as_bytes(), rest.as_bytes()));
            let theirs: PathBuf = Path::new(base).join(rest);
            assert_eq!(ours, theirs.to_str().unwrap(), "{:?} {:?}", base, rest);
        }
    }
}

#[test]
fn same_path_is_equality_in_the_standard_library() {
    for a in SAMPLES {
        for b in SAMPLES {
            assert_eq!(
                same_path(a.as_bytes(), b.as_bytes()),
                Path::new(a) == Path::new(b),
                "{:?} {:?}",
                a,
                b
            );
        }
    }
}

#[test]
fn is_within_is_starts_with_in_the_standard_library() {
    for path in SAMPLES {
        for base in SAMPLES {
            assert_eq!(
                is_within(path.as_bytes(), base.as_bytes()),
                Path::new(path).starts_with(base),
                "{:?} {:?}",
                path,
                base
            );
        }
    }
}

#[test]
fn file_name_is_that_of_the_standard_library() {
    for sample in SAMPLES {
        let ours = file_name(sample.as_bytes()).map(text);
        let theirs = Path::new(sample).file_name().map(|n| n.to_str().unwrap().to_string());
        assert_eq!(ours, theirs, "{:?}", sample);
    }
}

#[test]
fn strip_prefix_is_that_of_the_standard_library() {
    for path in SAMPLES {
        for base in SAMPLES {
            let ours = strip_prefix(path.as_bytes(), base.as_bytes()).map(text);
            let theirs =
                Path::new(path).strip_prefix(base).ok().map(|p| p.to_str().unwrap().to_string());
            assert_eq!(ours, theirs, "{:?} {:?}", path, base);
        }
    }
}

#[test]
fn the_children_of_a_directory_are_ordered_as_the_standard_library_orders_their_paths() {
    let names = [
        "b", "a", "C", "a.txt", "ab", "a-b", "a b", "A", "_x", "~", "10", "9", "Zed", "a.b.c",
        "index.html", ".hidden", "..double", "é", "z", "aa", "a_",
    ];
    for directory in ["/srv", "/srv/", "/srv/sub", "/"] {
        let mut paths: Vec<PathBuf> = names.iter().map(|n| Path::new(directory).join(n)).collect();
        let children: Vec<dirserve::children::Child> = paths
            .iter()
            .map(|p| p.to_str().unwrap().as_bytes().to_vec())
            .map(|p| {
                dirserve::children::Child::new(
                    p.clone(),
                    dirserve::target::ResolvedTarget::existing(p, false),
                )
            })
            .collect();
        paths.sort();
        let ours: Vec<String> =
            dirserve::children::files_in(children).into_iter().map(|c| text(c.path)).collect();
        let theirs: Vec<String> = paths.iter().map(|p| p.to_str().unwrap().to_string()).collect();
        assert_eq!(ours, theirs, "{:?}", directory);
    }
}
