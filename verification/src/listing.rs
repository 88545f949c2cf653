//! The HTML page that shows what a directory holds.

use vstd::prelude::*;
use vstd::string::*;
use crate::anchors::ANCHOR_OPEN;
use crate::bytes::append;
use crate::children::{Child, ChildView, in_order, files_in};
use crate::paths::{
    SEPARATOR, base_name, equivalent, file_name, joined, lemma_child_of_directory, plain_name,
    relative_to, same_path, strip_prefix, within,
};
use crate::target::{ResolvedTargetView, admits, admitted};

verus! {

/// The style block of every listing.
pub const STYLE: &'static str = r#"<style>
    body {
        font-family: monospace;
        font-size: 1.2rem;
        line-height: 1.2;
        margin: 1rem;
    }
    .path-header {
        padding: 5px 10px;
        color: #fff;
        background-color: #44f;
        border-radius: 5px;
    }
    a:hover {
        background-color: #ffa;
    }
    a:visited {
        color: blue;
    }
    </style>"#;

/// What a listing begins with, up to the style block.
pub const PAGE_OPEN: &'static str = "<html><head>";

/// What stands between the style block and the path of the directory.
pub const HEADER_OPEN: &'static str = "</head><body><div class=\"path-header\">Path: ";

/// What stands between the path of the directory and the first item.
pub const LIST_OPEN: &'static str = "</div><ol>";

/// What every item begins with.
pub const ITEM_TAG: &'static str = "<li>";

/// What stands between the target of a link and its text.
pub const ANCHOR_MIDDLE: &'static str = "\">";

/// What an item for a child ends with.
pub const ITEM_CLOSE: &'static str = "</li>";

/// The target, and the text, of the link that leads to the parent directory.
pub const PARENT: &'static str = "..";

/// What the item that leads to the parent directory ends with.
pub const PARENT_CLOSE: &'static str = "</a></li>";

/// What a listing ends with.
pub const PAGE_CLOSE: &'static str = "</ol></body><html>";

/// One line of a listing.
#[derive(Debug, Clone, PartialEq, Eq)]
pub struct DirectoryEntry {
    /// The child's path as seen from the base directory.
    pub relative_href: Vec<u8>,
    /// The name that the child's path ends in.
    pub display_name: Vec<u8>,
    /// Whether the child is itself a directory.
    pub is_directory: bool,
}

/// What a [`DirectoryEntry`] holds.
pub struct DirectoryEntryView {
    pub relative_href: Seq<u8>,
    pub display_name: Seq<u8>,
    pub is_directory: bool,
}

impl View for DirectoryEntry {
    type V = DirectoryEntryView;

    open spec fn view(&self) -> DirectoryEntryView {
        DirectoryEntryView {
            relative_href: self.relative_href@,
            display_name: self.display_name@,
            is_directory: self.is_directory,
        }
    }
}

impl DeepView for DirectoryEntry {
    type V = DirectoryEntryView;

    open spec fn deep_view(&self) -> DirectoryEntryView {
        self@
    }
}

/// The line that a listing under `base` shows for `child`: none unless the
/// child's path lies within `base` and ends in a name, and the child may be
/// shown: it exists, and where it really lies is within `base` too.
pub open spec fn entry_of(base: Seq<u8>, child: ChildView) -> Option<DirectoryEntryView> {
    match (relative_to(child.path, base), base_name(child.path)) {
        (Some(href), Some(name)) => if admitted(base, child.found) {
            Some(
                DirectoryEntryView {
                    relative_href: href,
                    display_name: name,
                    is_directory: child.found.is_directory,
                },
            )
        } else {
            None
        },
        _ => None,
    }
}

/// The lines that a listing under `base` shows for `children`, in their
/// order, passing over the children that have none.
pub open spec fn entries_of(base: Seq<u8>, children: Seq<ChildView>) -> Seq<DirectoryEntryView>
    decreases children.len(),
{
    if children.len() == 0 {
        Seq::empty()
    } else {
        let before = entries_of(base, children.drop_last());
        match entry_of(base, children.last()) {
            Some(entry) => before.push(entry),
            None => before,
        }
    }
}

/// The target of the link of `entry`: `/` and the child's relative path.
pub open spec fn href_of(entry: DirectoryEntryView) -> Seq<u8> {
    seq![SEPARATOR] + entry.relative_href
}

/// The text of the link of `entry`: the child's name, with `/` behind it if
/// the child is a directory.
pub open spec fn label_of(entry: DirectoryEntryView) -> Seq<u8> {
    if entry.is_directory {
        entry.display_name + seq![SEPARATOR]
    } else {
        entry.display_name
    }
}

/// The HTML of an item that holds a link: the item's tag, the link with its
/// target and its text, and what closes the item.
pub open spec fn anchor_item(target: Seq<u8>, label: Seq<u8>, close: Seq<u8>) -> Seq<u8> {
    ITEM_TAG.spec_bytes() + ANCHOR_OPEN.spec_bytes() + target + ANCHOR_MIDDLE.spec_bytes() + label
        + close
}

/// The HTML of the item of a listing for one child.
pub open spec fn item_html(entry: DirectoryEntryView) -> Seq<u8> {
    anchor_item(href_of(entry), label_of(entry), ITEM_CLOSE.spec_bytes())
}

/// The HTML of the items of a listing, one behind the other.
pub open spec fn items_html(entries: Seq<DirectoryEntryView>) -> Seq<u8>
    decreases entries.len(),
{
    if entries.len() == 0 {
        Seq::empty()
    } else {
        items_html(entries.drop_last()) + item_html(entries.last())
    }
}

/// The HTML of a listing up to its first item.
pub open spec fn head_html(path: Seq<u8>) -> Seq<u8> {
    PAGE_OPEN.spec_bytes() + STYLE.spec_bytes() + HEADER_OPEN.spec_bytes() + path
        + LIST_OPEN.spec_bytes()
}

/// The HTML of the item that leads to the parent directory, if the listing
/// has one.
pub open spec fn parent_html(with_parent: bool) -> Seq<u8> {
    if with_parent {
        anchor_item(PARENT.spec_bytes(), PARENT.spec_bytes(), PARENT_CLOSE.spec_bytes())
    } else {
        Seq::empty()
    }
}

/// The HTML of a listing: the head with the directory's path, the parent
/// item if wanted, one item for each entry, and the closing tags.
pub open spec fn listing_html(
    path: Seq<u8>,
    with_parent: bool,
    entries: Seq<DirectoryEntryView>,
) -> Seq<u8> {
    head_html(path) + parent_html(with_parent) + items_html(entries) + PAGE_CLOSE.spec_bytes()
}

/// The listing of the directory `path` under `base`, given its children as
/// the file system reported them: the children are put in order, the parent
/// item is there unless `path` is the base directory itself.
pub open spec fn directory_html(base: Seq<u8>, path: Seq<u8>, children: Seq<ChildView>) -> Seq<
    u8,
> {
    listing_html(path, !equivalent(base, path), entries_of(base, in_order(children)))
}

/// The style block of every listing.
pub fn css() -> (style: &'static str)
    ensures
        style@ == STYLE@,
{
    STYLE
}

/// Derives the line that a listing under `base` shows for `child`.
pub fn entry_for(base: &[u8], child: &Child) -> (entry: Option<DirectoryEntry>)
    ensures
        match entry {
            Some(e) => entry_of(base@, child@) == Some(e@),
            None => entry_of(base@, child@) is None,
        },
{
    match (strip_prefix(child.path.as_slice(), base), file_name(child.path.as_slice())) {
        (Some(href), Some(name)) => {
            if admits(base, &child.found) {
                Some(
                    DirectoryEntry {
                        relative_href: href,
                        display_name: name,
                        is_directory: child.found.is_directory,
                    },
                )
            } else {
                None
            }
        },
        _ => None,
    }
}

/// Derives the lines that a listing under `base` shows for `children`.
pub fn entries_for(base: &[u8], children: &Vec<Child>) -> (entries: Vec<DirectoryEntry>)
    ensures
        entries.deep_view() == entries_of(base@, children.deep_view()),
{
    let mut entries: Vec<DirectoryEntry> = Vec::new();
    let mut i: usize = 0;
    while i < children.len()
        invariant
            i <= children.len(),
            entries.deep_view() == entries_of(base@, children.deep_view().take(i as int)),
        decreases children.len() - i,
    {
        assert(children.deep_view().take(i + 1).drop_last() == children.deep_view().take(
            i as int,
        ));
        match entry_for(base, &children[i]) {
            Some(entry) => {
                entries.push(entry);
            },
            None => {},
        }
        i += 1;
    }
    assert(children.deep_view().take(i as int) == children.deep_view());
    entries
}

/// Writes the item for `entry` behind what `page` holds.
fn push_item(page: &mut Vec<u8>, entry: &DirectoryEntry)
    ensures
        final(page)@ == old(page)@ + item_html(entry@),
{
    append(page, ITEM_TAG.as_bytes());
    append(page, ANCHOR_OPEN.as_bytes());
    page.push(SEPARATOR);
    append(page, entry.relative_href.as_slice());
    append(page, ANCHOR_MIDDLE.as_bytes());
    append(page, entry.display_name.as_slice());
    if entry.is_directory {
        page.push(SEPARATOR);
    }
    append(page, ITEM_CLOSE.as_bytes());
}

/// Writes the item that leads to the parent directory behind what `page`
/// holds.
fn push_parent(page: &mut Vec<u8>)
    ensures
        final(page)@ == old(page)@ + parent_html(true),
{
    append(page, ITEM_TAG.as_bytes());
    append(page, ANCHOR_OPEN.as_bytes());
    append(page, PARENT.as_bytes());
    append(page, ANCHOR_MIDDLE.as_bytes());
    append(page, PARENT.as_bytes());
    append(page, PARENT_CLOSE.as_bytes());
}

/// Renders a listing: the page for the directory `path` with the given
/// entries in the given order, led by the parent item if `with_parent`.
pub fn render(path: &[u8], with_parent: bool, entries: &Vec<DirectoryEntry>) -> (page: Vec<u8>)
    ensures
        page@ == listing_html(path@, with_parent, entries.deep_view()),
{
    let mut page: Vec<u8> = Vec::new();
    append(&mut page, PAGE_OPEN.as_bytes());
    append(&mut page, css().as_bytes());
    append(&mut page, HEADER_OPEN.as_bytes());
    append(&mut page, path);
    append(&mut page, LIST_OPEN.as_bytes());
    if with_parent {
        push_parent(&mut page);
    }
    let ghost lead = head_html(path@) + parent_html(with_parent);
    let mut i: usize = 0;
    while i < entries.len()
        invariant
            i <= entries.len(),
            page@ == lead + items_html(entries.deep_view().take(i as int)),
        decreases entries.len() - i,
    {
        assert(entries.deep_view().take(i + 1).drop_last() == entries.deep_view().take(i as int));
        push_item(&mut page, &entries[i]);
        i += 1;
    }
    assert(entries.deep_view().take(i as int) == entries.deep_view());
    append(&mut page, PAGE_CLOSE.as_bytes());
    page
}

/// Renders the listing of the directory `path` under `base`, given the
/// children of `path` as the file system reported them, in any order.
pub fn dir(base: &[u8], path: &[u8], children: Vec<Child>) -> (page: Vec<u8>)
    ensures
        page@ == directory_html(base@, path@, children.deep_view()),
{
    let sorted = files_in(children);
    let entries = entries_for(base, &sorted);
    render(path, !same_path(base, path), &entries)
}

/// Every child of a directory within the base directory that may be shown
/// has a line in the listing: the line shows the child's name and leads to
/// the child's path as seen from the base directory.
pub proof fn lemma_child_has_entry(
    base: Seq<u8>,
    directory: Seq<u8>,
    name: Seq<u8>,
    found: ResolvedTargetView,
)
    requires
        plain_name(name),
        within(directory, base),
        admitted(base, found),
    ensures
        entry_of(base, ChildView { path: joined(directory, name), found }) matches Some(entry)
            && entry.display_name == name && entry.is_directory == found.is_directory
            && relative_to(joined(directory, name), base) == Some(entry.relative_href),
{
    lemma_child_of_directory(base, directory, name);
}

} // verus!
