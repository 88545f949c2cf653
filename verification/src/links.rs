//! What reading the links out of a listing gives back.

use vstd::prelude::*;
use vstd::string::*;
use crate::anchors::{
    ANCHOR_NAME, ANCHOR_OPEN, QUOTE, TAG_OPEN, anchor_free, holds_at, hrefs_from, hrefs_in,
    lemma_holds_both, lemma_holds_byte, lemma_pass_over, lemma_read_link, opens_at, quote_free,
};
use crate::children::{ChildView, in_order, lemma_in_order};
use crate::listing::{
    ANCHOR_MIDDLE, DirectoryEntryView, HEADER_OPEN, ITEM_CLOSE, ITEM_TAG, LIST_OPEN, PAGE_CLOSE,
    PAGE_OPEN, PARENT, PARENT_CLOSE, STYLE, anchor_item, directory_html, entries_of, entry_of,
    head_html, href_of, item_html, items_html, label_of, listing_html, parent_html,
};
use crate::paths::{SEPARATOR, equivalent, relative_to};

verus! {

/// Whether every `<` in `piece` has a byte behind it, and that byte is not
/// `a`: no link begins in such a piece, whatever follows it.
spec fn inert(piece: Seq<u8>) -> bool {
    forall|q: int|
        0 <= q < piece.len() && #[trigger] piece[q] == TAG_OPEN ==> q + 1 < piece.len() && piece[q
            + 1] != ANCHOR_NAME
}

proof fn lemma_opening()
    ensures
        ANCHOR_OPEN.spec_bytes().len() == 9,
        ANCHOR_OPEN.spec_bytes()[0] == TAG_OPEN,
        ANCHOR_OPEN.spec_bytes()[1] == ANCHOR_NAME,
        forall|k: int| 1 <= k < 9 ==> #[trigger] ANCHOR_OPEN.spec_bytes()[k] != TAG_OPEN,
        forall|k: int| 0 <= k < 9 ==> #[trigger] ANCHOR_OPEN.spec_bytes()[k] != SEPARATOR,
{
    reveal_strlit("<a href=\"");
    broadcast use is_ascii_spec_bytes;

    assert(is_ascii(ANCHOR_OPEN));
}

proof fn lemma_item_pieces()
    ensures
        inert(ITEM_TAG.spec_bytes()),
        ANCHOR_MIDDLE.spec_bytes().len() == 2,
        ANCHOR_MIDDLE.spec_bytes()[0] == QUOTE,
        ANCHOR_MIDDLE.spec_bytes()[1] != TAG_OPEN,
        inert(ITEM_CLOSE.spec_bytes()),
        ITEM_CLOSE.spec_bytes().len() > 0,
        ITEM_CLOSE.spec_bytes()[0] == TAG_OPEN,
        inert(PARENT_CLOSE.spec_bytes()),
        PARENT_CLOSE.spec_bytes().len() > 0,
        PARENT_CLOSE.spec_bytes()[0] == TAG_OPEN,
        PARENT.spec_bytes().len() == 2,
        quote_free(PARENT.spec_bytes()),
{
    reveal_strlit("<li>");
    reveal_strlit("\">");
    reveal_strlit("</li>");
    reveal_strlit("..");
    reveal_strlit("</a></li>");
    broadcast use is_ascii_spec_bytes;

    assert(is_ascii(ITEM_TAG));
    assert(is_ascii(ANCHOR_MIDDLE));
    assert(is_ascii(ITEM_CLOSE));
    assert(is_ascii(PARENT));
    assert(is_ascii(PARENT_CLOSE));
}

proof fn lemma_page_pieces()
    ensures
        inert(PAGE_OPEN.spec_bytes()),
        inert(HEADER_OPEN.spec_bytes()),
        inert(LIST_OPEN.spec_bytes()),
        LIST_OPEN.spec_bytes().len() > 0,
        LIST_OPEN.spec_bytes()[0] == TAG_OPEN,
        inert(PAGE_CLOSE.spec_bytes()),
{
    reveal_strlit("<html><head>");
    reveal_strlit("</head><body><div class=\"path-header\">Path: ");
    reveal_strlit("</div><ol>");
    reveal_strlit("</ol></body><html>");
    broadcast use is_ascii_spec_bytes;

    assert(is_ascii(PAGE_OPEN));
    assert(is_ascii(HEADER_OPEN));
    assert(is_ascii(LIST_OPEN));
    assert(is_ascii(PAGE_CLOSE));
}

proof fn lemma_style()
    ensures
        inert(STYLE.spec_bytes()),
{
    reveal_strlit(
        r#"<style>
    body {
        font-family: monospace;
        font-size: 1.2rem;
        line-height: 1.2;
        margin: 1rem;
    }
    .path-header {
        padding: 5px 10px;
        color: #fff;
        background-color: #44f;
        border-radius: 5px;
    }
    a:hover {
        background-color: #ffa;
    }
    a:visited {
        color: blue;
    }
    </style>"#,
    );
    broadcast use is_ascii_spec_bytes;

    assert(is_ascii(STYLE));
}

/// No link begins in an inert piece of a page.
proof fn lemma_inert_stretch(html: Seq<u8>, at: int, piece: Seq<u8>)
    requires
        holds_at(html, piece, at),
        inert(piece),
    ensures
        forall|p: int| at <= p < at + piece.len() ==> !#[trigger] opens_at(html, p),
{
    lemma_opening();
    assert forall|p: int| at <= p < at + piece.len() implies !#[trigger] opens_at(html, p) by {
        if opens_at(html, p) {
            lemma_holds_byte(html, ANCHOR_OPEN.spec_bytes(), p, 0);
            lemma_holds_byte(html, ANCHOR_OPEN.spec_bytes(), p, 1);
            lemma_holds_byte(html, piece, at, p - at);
            assert(piece[p - at] == TAG_OPEN);
            lemma_holds_byte(html, piece, at, p - at + 1);
        }
    }
}

/// No link begins in a stretch of a page that is free of links and has a
/// `<` behind it.
proof fn lemma_free_stretch(html: Seq<u8>, at: int, text: Seq<u8>)
    requires
        holds_at(html, text, at),
        anchor_free(text),
        at + text.len() < html.len(),
        html[at + text.len()] == TAG_OPEN,
    ensures
        forall|p: int| at <= p < at + text.len() ==> !#[trigger] opens_at(html, p),
{
    lemma_opening();
    let opening = ANCHOR_OPEN.spec_bytes();
    assert forall|p: int| at <= p < at + text.len() implies !#[trigger] opens_at(html, p) by {
        if opens_at(html, p) {
            if p + 9 <= at + text.len() {
                let stretch = html.subrange(at, at + text.len());
                assert(stretch.subrange(p - at, p - at + 9) =~= html.subrange(p, p + 9));
                assert(opens_at(text, p - at));
            } else {
                let k = at + text.len() - p;
                lemma_holds_byte(html, opening, p, k);
                assert(opening[k] != TAG_OPEN);
            }
        }
    }
}

/// Reading an item that holds a link gives the link's target and goes on
/// behind the item.
proof fn lemma_anchor_item(html: Seq<u8>, at: int, target: Seq<u8>, label: Seq<u8>, close: Seq<u8>)
    requires
        holds_at(html, anchor_item(target, label, close), at),
        quote_free(target),
        anchor_free(label),
        inert(close),
        close.len() > 0,
        close[0] == TAG_OPEN,
    ensures
        hrefs_from(html, at) == seq![target] + hrefs_from(
            html,
            at + anchor_item(target, label, close).len(),
        ),
{
    lemma_opening();
    lemma_item_pieces();
    let tag = ITEM_TAG.spec_bytes();
    let opening = ANCHOR_OPEN.spec_bytes();
    let middle = ANCHOR_MIDDLE.spec_bytes();
    let at_opening = at + tag.len();
    let at_target = at_opening + opening.len();
    let at_middle = at_target + target.len();
    let at_label = at_middle + middle.len();
    let at_close = at_label + label.len();
    let end = at_close + close.len();
    lemma_holds_both(html, tag + opening + target + middle + label, close, at);
    lemma_holds_both(html, tag + opening + target + middle, label, at);
    lemma_holds_both(html, tag + opening + target, middle, at);
    lemma_holds_both(html, tag + opening, target, at);
    lemma_holds_both(html, tag, opening, at);
    // up to the link
    lemma_inert_stretch(html, at, tag);
    lemma_pass_over(html, at, at_opening);
    // the link
    lemma_holds_byte(html, middle, at_middle, 0);
    lemma_read_link(html, at_opening, target);
    // behind the link
    lemma_holds_byte(html, middle, at_middle, 1);
    lemma_holds_byte(html, close, at_close, 0);
    lemma_free_stretch(html, at_label, label);
    lemma_inert_stretch(html, at_close, close);
    assert forall|p: int| at_middle + 1 <= p < end implies !#[trigger] opens_at(html, p) by {
        if p == at_middle + 1 && opens_at(html, p) {
            lemma_holds_byte(html, opening, p, 0);
        }
    }
    lemma_pass_over(html, at_middle + 1, end);
}

/// Whether the link of `entry` can be read back: its target holds no double
/// quote, and no link begins in its name.
pub open spec fn readable(entry: DirectoryEntryView) -> bool {
    quote_free(entry.relative_href) && anchor_free(entry.display_name)
}

/// The targets of the links of `entries`, in their order.
pub open spec fn hrefs_of(entries: Seq<DirectoryEntryView>) -> Seq<Seq<u8>> {
    Seq::new(entries.len(), |i: int| href_of(entries[i]))
}

/// The targets of the links that stand before those of the entries: the
/// parent directory, if the listing leads there.
pub open spec fn parent_hrefs(with_parent: bool) -> Seq<Seq<u8>> {
    if with_parent {
        seq![PARENT.spec_bytes()]
    } else {
        Seq::empty()
    }
}

proof fn lemma_label(entry: DirectoryEntryView)
    requires
        anchor_free(entry.display_name),
    ensures
        anchor_free(label_of(entry)),
{
    lemma_opening();
    let label = label_of(entry);
    let name = entry.display_name;
    assert forall|p: int| !#[trigger] opens_at(label, p) by {
        if opens_at(label, p) {
            if p + 9 <= name.len() {
                assert(name.subrange(p, p + 9) =~= label.subrange(p, p + 9));
                assert(opens_at(name, p));
            } else {
                lemma_holds_byte(label, ANCHOR_OPEN.spec_bytes(), p, name.len() - p);
            }
        }
    }
}

proof fn lemma_item(html: Seq<u8>, at: int, entry: DirectoryEntryView)
    requires
        holds_at(html, item_html(entry), at),
        readable(entry),
    ensures
        hrefs_from(html, at) == seq![href_of(entry)] + hrefs_from(
            html,
            at + item_html(entry).len(),
        ),
{
    lemma_item_pieces();
    lemma_label(entry);
    lemma_anchor_item(html, at, href_of(entry), label_of(entry), ITEM_CLOSE.spec_bytes());
}

proof fn lemma_items(html: Seq<u8>, at: int, entries: Seq<DirectoryEntryView>)
    requires
        holds_at(html, items_html(entries), at),
        forall|i: int| 0 <= i < entries.len() ==> readable(#[trigger] entries[i]),
    ensures
        hrefs_from(html, at) == hrefs_of(entries) + hrefs_from(
            html,
            at + items_html(entries).len(),
        ),
    decreases entries.len(),
{
    if entries.len() == 0 {
        assert(hrefs_of(entries) + hrefs_from(html, at) =~= hrefs_from(html, at));
    } else {
        let front = entries.drop_last();
        lemma_holds_both(html, items_html(front), item_html(entries.last()), at);
        lemma_items(html, at, front);
        lemma_item(html, at + items_html(front).len(), entries.last());
        assert(hrefs_of(front) + seq![href_of(entries.last())] =~= hrefs_of(entries));
    }
}

/// Reading the links out of a listing gives back what the listing leads to:
/// the parent directory first, if the listing has that item, and the target
/// of each entry, in the order of the entries and each once.
///
/// This holds where no link begins in the directory's path or in a name,
/// and no target holds a double quote; a listing writes all of these as they
/// are.
pub proof fn lemma_listing_links(
    path: Seq<u8>,
    with_parent: bool,
    entries: Seq<DirectoryEntryView>,
)
    requires
        anchor_free(path),
        forall|i: int| 0 <= i < entries.len() ==> readable(#[trigger] entries[i]),
    ensures
        hrefs_in(listing_html(path, with_parent, entries)) == parent_hrefs(with_parent) + hrefs_of(
            entries,
        ),
{
    lemma_page_pieces();
    lemma_style();
    lemma_item_pieces();
    let html = listing_html(path, with_parent, entries);
    let head = head_html(path);
    let parent = parent_html(with_parent);
    let items = items_html(entries);
    let close = PAGE_CLOSE.spec_bytes();
    assert(html.subrange(0, html.len() as int) =~= html);
    assert(holds_at(html, head + parent + items + close, 0));
    lemma_holds_both(html, head + parent + items, close, 0);
    lemma_holds_both(html, head + parent, items, 0);
    lemma_holds_both(html, head, parent, 0);
    // the head
    let page_open = PAGE_OPEN.spec_bytes();
    let style = STYLE.spec_bytes();
    let header_open = HEADER_OPEN.spec_bytes();
    let list_open = LIST_OPEN.spec_bytes();
    lemma_holds_both(html, page_open + style + header_open + path, list_open, 0);
    lemma_holds_both(html, page_open + style + header_open, path, 0);
    lemma_holds_both(html, page_open + style, header_open, 0);
    lemma_holds_both(html, page_open, style, 0);
    let at_style = page_open.len() as int;
    let at_header = at_style + style.len();
    let at_path = at_header + header_open.len();
    let at_list = at_path + path.len();
    let at_parent = at_list + list_open.len();
    lemma_inert_stretch(html, 0, page_open);
    lemma_inert_stretch(html, at_style, style);
    lemma_inert_stretch(html, at_header, header_open);
    lemma_holds_byte(html, list_open, at_list, 0);
    lemma_free_stretch(html, at_path, path);
    lemma_inert_stretch(html, at_list, list_open);
    lemma_pass_over(html, 0, at_parent);
    // the parent item
    let at_items = at_parent + parent.len();
    if with_parent {
        // the text of the link is shorter than what a link begins with
        assert(anchor_free(PARENT.spec_bytes())) by {
            lemma_opening();
        }
        lemma_anchor_item(
            html,
            at_parent,
            PARENT.spec_bytes(),
            PARENT.spec_bytes(),
            PARENT_CLOSE.spec_bytes(),
        );
    } else {
        assert(parent_hrefs(with_parent) + hrefs_from(html, at_items) =~= hrefs_from(
            html,
            at_items,
        ));
    }
    // the items
    let at_end = at_items + items.len();
    lemma_items(html, at_items, entries);
    // the closing tags
    lemma_inert_stretch(html, at_end, close);
    lemma_pass_over(html, at_end, html.len() as int);
    assert(hrefs_from(html, html.len() as int) =~= Seq::<Seq<u8>>::empty());
    assert(parent_hrefs(with_parent) + (hrefs_of(entries) + Seq::<Seq<u8>>::empty())
        =~= parent_hrefs(with_parent) + hrefs_of(entries));
}

/// Whether the listing under `base` has a line for `child`, and the link of
/// that line can be read back.
pub open spec fn listed(base: Seq<u8>, child: ChildView) -> bool {
    entry_of(base, child) matches Some(entry) && readable(entry)
}

/// The targets of the links that a listing under `base` holds for
/// `children`: for each child `/` and its path as seen from `base`.
pub open spec fn child_hrefs(base: Seq<u8>, children: Seq<ChildView>) -> Seq<Seq<u8>> {
    Seq::new(
        children.len(),
        |i: int| seq![SEPARATOR] + relative_to(children[i].path, base).unwrap(),
    )
}

proof fn lemma_entries_of_listed(base: Seq<u8>, children: Seq<ChildView>)
    requires
        forall|i: int| 0 <= i < children.len() ==> listed(base, #[trigger] children[i]),
    ensures
        entries_of(base, children).len() == children.len(),
        forall|i: int|
            0 <= i < children.len() ==> entry_of(base, children[i]) == Some(
                #[trigger] entries_of(base, children)[i],
            ),
    decreases children.len(),
{
    if children.len() > 0 {
        let front = children.drop_last();
        assert forall|i: int| 0 <= i < front.len() implies listed(base, #[trigger] front[i]) by {
            assert(front[i] == children[i]);
        }
        lemma_entries_of_listed(base, front);
        assert(listed(base, children[children.len() - 1]));
        assert forall|i: int| 0 <= i < children.len() implies entry_of(base, children[i]) == Some(
            #[trigger] entries_of(base, children)[i],
        ) by {
            if i < front.len() {
                assert(front[i] == children[i]);
                assert(entries_of(base, children)[i] == entries_of(base, front)[i]);
            }
        }
    }
}

/// Reading the links out of the listing of a directory gives back the
/// directory's children: behind the link to the parent directory, which is
/// there unless the directory is the base directory itself, stands one link
/// for each child, in the order of the listing, and its target is `/` and
/// the child's path as seen from the base directory. The order of the listing
/// holds each child as often as the file system reported it.
///
/// This holds where the listing has a line for every child, no link begins
/// in the directory's path or in a child's name, and no child's path as seen
/// from the base directory holds a double quote.
pub proof fn lemma_directory_links(base: Seq<u8>, path: Seq<u8>, children: Seq<ChildView>)
    requires
        anchor_free(path),
        forall|i: int| 0 <= i < children.len() ==> listed(base, #[trigger] children[i]),
    ensures
        hrefs_in(directory_html(base, path, children)) == parent_hrefs(!equivalent(base, path))
            + child_hrefs(base, in_order(children)),
        in_order(children).len() == children.len(),
        in_order(children).to_multiset() == children.to_multiset(),
{
    let sorted = in_order(children);
    lemma_in_order(children);
    assert forall|j: int| 0 <= j < sorted.len() implies listed(base, #[trigger] sorted[j]) by {
        sorted.to_multiset_ensures();
        children.to_multiset_ensures();
        assert(sorted.contains(sorted[j]));
        assert(sorted.to_multiset().count(sorted[j]) > 0);
        assert(children.to_multiset().count(sorted[j]) > 0);
        assert(children.contains(sorted[j]));
        let i = choose|i: int| 0 <= i < children.len() && children[i] == sorted[j];
        assert(listed(base, children[i]));
    }
    lemma_entries_of_listed(base, sorted);
    let entries = entries_of(base, sorted);
    assert forall|i: int| 0 <= i < entries.len() implies readable(#[trigger] entries[i]) by {
        assert(listed(base, sorted[i]));
    }
    lemma_listing_links(path, !equivalent(base, path), entries);
    assert(hrefs_of(entries) =~= child_hrefs(base, sorted)) by {
        assert forall|i: int| 0 <= i < entries.len() implies hrefs_of(entries)[i] == child_hrefs(
            base,
            sorted,
        )[i] by {
            assert(entry_of(base, sorted[i]) == Some(entries[i]));
        }
    }
}

/// The listing of the base directory itself does not lead to the parent
/// directory; the listing of every other directory does, with its first
/// link, and with no other.
pub proof fn lemma_parent_link(base: Seq<u8>, path: Seq<u8>, children: Seq<ChildView>)
    requires
        anchor_free(path),
        forall|i: int| 0 <= i < children.len() ==> listed(base, #[trigger] children[i]),
    ensures
        equivalent(base, base),
        hrefs_in(directory_html(base, path, children)).contains(PARENT.spec_bytes())
            <==> !equivalent(base, path),
        !equivalent(base, path) ==> hrefs_in(directory_html(base, path, children))[0]
            == PARENT.spec_bytes(),
        forall|i: int|
            0 <= i < children.len() ==> #[trigger] child_hrefs(base, in_order(children))[i]
                != PARENT.spec_bytes(),
{
    lemma_directory_links(base, path, children);
    lemma_item_pieces();
    reveal_strlit("..");
    broadcast use is_ascii_spec_bytes;

    assert(is_ascii(PARENT));
    let parent = PARENT.spec_bytes();
    assert(parent[0] != SEPARATOR);
    let links = hrefs_in(directory_html(base, path, children));
    let of_children = child_hrefs(base, in_order(children));
    assert forall|i: int| 0 <= i < children.len() implies #[trigger] of_children[i] != parent by {
        assert(of_children[i][0] == SEPARATOR);
    }
    if equivalent(base, path) {
        assert(links =~= of_children);
        if links.contains(parent) {
            let i = choose|i: int| 0 <= i < links.len() && links[i] == parent;
            assert(of_children[i] != parent);
        }
    } else {
        assert(links[0] == parent);
    }
}

} // verus!
