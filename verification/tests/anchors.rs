use dirserve::anchors::hrefs;
use dirserve::children::Child;
use dirserve::listing::dir;
use dirserve::target::ResolvedTarget;

fn child(path: &[u8], is_directory: bool) -> Child {
    Child::new(path.to_vec(), ResolvedTarget::existing(path.to_vec(), is_directory))
}

fn links(html: &[u8]) -> Vec<String> {
    hrefs(html).into_iter().map(|h| String::from_utf8(h).unwrap()).collect()
}

#[test]
fn hrefs_of_a_page_without_links() {
    assert_eq!(links(b""), Vec::<String>::new());
    assert_eq!(links(b"<html><body>no links <a>here</a></body></html>"), Vec::<String>::new());
}

#[test]
fn hrefs_reads_targets_from_left_to_right() {
    assert_eq!(
        links(b"<a href=\"/one\">1</a> and <a href=\"two\">2</a><a href=\"\">3</a>"),
        vec!["/one", "two", ""]
    );
}

#[test]
fn hrefs_passes_over_a_target_without_end() {
    assert_eq!(links(b"<a href=\"/one\">1</a><a href=\"never closed"), vec!["/one"]);
    assert_eq!(links(b"<a href=\""), Vec::<String>::new());
}

#[test]
fn hrefs_does_not_look_for_links_inside_a_target() {
    assert_eq!(links(b"<a href=\"<a href=\">x"), vec!["<a href="]);
}

#[test]
fn hrefs_of_a_listing_are_its_children() {
    let children = vec![
        child(b"/srv/sub/b", false),
        child(b"/srv/sub/a", true),
        child(b"/srv/sub/C", false),
    ];
    let page = dir(b"/srv", b"/srv/sub", children);
    assert_eq!(links(&page), vec!["..", "/sub/C", "/sub/a", "/sub/b"]);
}

#[test]
fn hrefs_of_the_listing_of_the_base_directory() {
    let children =
        vec![child(b"/srv/x y", false), child(b"/srv/<b>", true)];
    let page = dir(b"/srv", b"/srv", children);
    assert_eq!(links(&page), vec!["/<b>", "/x y"]);
}

#[test]
fn hrefs_of_an_empty_listing() {
    assert_eq!(links(&dir(b"/srv", b"/srv", Vec::new())), Vec::<String>::new());
    assert_eq!(links(&dir(b"/srv", b"/srv/sub", Vec::new())), vec![".."]);
}

#[test]
fn a_double_quote_in_a_name_cuts_the_target_short() {
    let children = vec![child(b"/srv/a\"b", false)];
    let page = dir(b"/srv", b"/srv", children);
    assert_eq!(links(&page), vec!["/a"]);
}

#[test]
fn every_link_of_a_listing_leads_back_to_its_child() {
    let base = b"/srv/www";
    let directory = dirserve::paths::resolve(base, b"/docs//api/");
    let names: [&[u8]; 4] = [b"index.md", b"v2", b"a b.txt", b"..."];
    let children: Vec<Child> = names
        .iter()
        .map(|n| child(&dirserve::paths::join(&directory, n), n.len() == 2))
        .collect();
    let page = dir(base, &directory, children.clone());
    let found = hrefs(&page);
    assert_eq!(found.len(), children.len() + 1);
    assert_eq!(found[0], b"..".to_vec());
    for child in &children {
        let leading: Vec<&Vec<u8>> = found[1..]
            .iter()
            .filter(|h| dirserve::paths::same_path(&dirserve::paths::resolve(base, h), &child.path))
            .collect();
        assert_eq!(leading.len(), 1);
    }
    assert_eq!(
        links(&page),
        vec!["..", "/docs//api/...", "/docs//api/a b.txt", "/docs//api/index.md", "/docs//api/v2"]
    );
}
