//! The in-memory page index: every served path, keyed by the truncated hash
//! of its request path (the value a request handler receives as
//! `path_hash`), built from the listings of the pages and files directories.

use std::collections::HashMap;
use vstd::prelude::*;
use vstd::utf8::encode_utf8;

use crate::hash::{be_bytes, hash_key, key_of, lemma_hash_key_bijective, truncated_hash, truncated_hash_of};
use crate::text::{
    lemma_ascii_len, lemma_encode_utf8_concat,
    concat, has_suffix, sort_names, sorted_seq, string_views, strip_suffix, owned, utf8_bytes,
};

verus! {

broadcast use vstd::std_specs::hash::group_hash_axioms;

/// Where a served path's bytes come from.
#[derive(Debug, Clone)]
pub enum Content {
    /// Read from disk on every request.
    File(String),
    /// Held in memory: the generated index page.
    Generated(Vec<u8>),
    /// A script, run afresh on every request.
    Script(String),
}

/// The mathematical value of a [`Content`].
pub enum ContentView {
    File(Seq<char>),
    Generated(Seq<u8>),
    Script(Seq<char>),
}

impl View for Content {
    type V = ContentView;

    open spec fn view(&self) -> ContentView {
        match self {
            Content::File(p) => ContentView::File(p@),
            Content::Generated(b) => ContentView::Generated(b@),
            Content::Script(p) => ContentView::Script(p@),
        }
    }
}

/// One served path.
#[derive(Debug, Clone)]
pub struct Entry {
    /// The request path, e.g. `/page/index.mu` or `/file/manual.pdf`.
    pub request_path: String,
    pub content: Content,
    /// True for `/file/...` entries; a response of one of these sent as a
    /// resource transfer (380 bytes or more) carries its file name.
    pub is_file: bool,
}

/// The mathematical value of an [`Entry`].
pub struct EntryView {
    pub request_path: Seq<char>,
    pub content: ContentView,
    pub is_file: bool,
}

impl View for Entry {
    type V = EntryView;

    open spec fn view(&self) -> EntryView {
        EntryView { request_path: self.request_path@, content: self.content@, is_file: self.is_file }
    }
}

/// A regular file found in a served directory: its name and its path.
pub struct DirItem {
    pub name: String,
    pub path: String,
}

impl View for DirItem {
    type V = (Seq<char>, Seq<char>);

    open spec fn view(&self) -> (Seq<char>, Seq<char>) {
        (self.name@, self.path@)
    }
}

/// The views of a sequence of directory items.
pub open spec fn item_views(items: Seq<DirItem>) -> Seq<(Seq<char>, Seq<char>)> {
    items.map_values(|d: DirItem| d@)
}

/// The key that a request path is stored under: the big-endian value of the
/// truncated hash of its UTF-8 bytes.
pub open spec fn path_key(request_path: Seq<char>) -> u128 {
    hash_key(truncated_hash_of(encode_utf8(request_path)))
}

/// The name a page is served under: a script `x.rhai` is served as `x`.
pub open spec fn page_display_name(name: Seq<char>) -> Seq<char> {
    if has_suffix(name, ".rhai"@) {
        name.subrange(0, name.len() - 5)
    } else {
        name
    }
}

/// The entry for a file `(name, path)` of the pages directory.
pub open spec fn page_entry(item: (Seq<char>, Seq<char>)) -> EntryView {
    EntryView {
        request_path: "/page/"@ + page_display_name(item.0),
        content: if has_suffix(item.0, ".rhai"@) {
            ContentView::Script(item.1)
        } else {
            ContentView::File(item.1)
        },
        is_file: false,
    }
}

/// The entry for a file `(name, path)` of the files directory.
pub open spec fn file_entry(item: (Seq<char>, Seq<char>)) -> EntryView {
    EntryView { request_path: "/file/"@ + item.0, content: ContentView::File(item.1), is_file: true }
}

/// `m` with the entries for the pages directory listing `items` added in
/// order; a later entry replaces an earlier one under the same key.
pub open spec fn add_page_entries(m: Map<u128, EntryView>, items: Seq<(Seq<char>, Seq<char>)>) -> Map<
    u128,
    EntryView,
>
    decreases items.len(),
{
    if items.len() == 0 {
        m
    } else {
        let e = page_entry(items.last());
        add_page_entries(m, items.drop_last()).insert(path_key(e.request_path), e)
    }
}

/// `m` with the entries for the files directory listing `items` added in
/// order; a later entry replaces an earlier one under the same key.
pub open spec fn add_file_entries(m: Map<u128, EntryView>, items: Seq<(Seq<char>, Seq<char>)>) -> Map<
    u128,
    EntryView,
>
    decreases items.len(),
{
    if items.len() == 0 {
        m
    } else {
        let e = file_entry(items.last());
        add_file_entries(m, items.drop_last()).insert(path_key(e.request_path), e)
    }
}

/// The names that the files of the pages directory are served under, in
/// listing order.
pub open spec fn display_names(pages: Seq<(Seq<char>, Seq<char>)>) -> Seq<Seq<char>> {
    pages.map_values(|i: (Seq<char>, Seq<char>)| page_display_name(i.0))
}

/// One line of the generated index: a Micron link to the page.
pub open spec fn index_link(name: Seq<char>) -> Seq<char> {
    "`["@ + name + "`/page/"@ + name + "]\n"@
}

/// Each line of the index is a Micron link showing the page's name and
/// pointing at `/page/` followed by that name: exactly the request path of
/// the page served under that name, for any name.
pub proof fn lemma_index_link_targets_page(name: Seq<char>, item: (Seq<char>, Seq<char>))
    ensures
        index_link(name) == seq!['`', '['] + name + seq!['`'] + (seq!['/', 'p', 'a', 'g', 'e', '/'] + name)
            + seq![']', '\n'],
        page_display_name(item.0) == name ==> index_link(name) == seq!['`', '['] + name + seq!['`']
            + page_entry(item).request_path + seq![']', '\n'],
{
    reveal_strlit("`[");
    reveal_strlit("`/page/");
    reveal_strlit("]\n");
    reveal_strlit("/page/");
    assert("`["@ =~= seq!['`', '[']);
    assert("`/page/"@ =~= seq!['`'] + seq!['/', 'p', 'a', 'g', 'e', '/']);
    assert("]\n"@ =~= seq![']', '\n']);
    assert("/page/"@ =~= seq!['/', 'p', 'a', 'g', 'e', '/']);
    assert(index_link(name) =~= seq!['`', '['] + name + seq!['`'] + (seq!['/', 'p', 'a', 'g', 'e', '/'] + name)
        + seq![']', '\n']);
}

/// The links are one line per name, in the order of the names.
pub proof fn lemma_index_links_lines(names: Seq<Seq<char>>, n: Seq<char>)
    ensures
        index_links(Seq::empty()) == Seq::<char>::empty(),
        index_links(names.push(n)) == index_links(names) + index_link(n),
{
    assert(names.push(n).drop_last() =~= names);
}

/// The links to `names`, in order.
pub open spec fn index_links(names: Seq<Seq<char>>) -> Seq<char>
    decreases names.len(),
{
    if names.len() == 0 {
        Seq::empty()
    } else {
        index_links(names.drop_last()) + index_link(names.last())
    }
}

/// The text of the generated index page listing `names`.
pub open spec fn index_page_text(names: Seq<Seq<char>>) -> Seq<char> {
    ">Pages\n\n"@ + if names.len() == 0 {
        "No pages have been published yet.\n"@
    } else {
        index_links(names)
    }
}

/// The request path of the index page.
pub open spec fn index_path() -> Seq<char> {
    "/page/index.mu"@
}

/// The index built from the listing `pages` of the pages directory and
/// `files` of the files directory: pages first, then files, in listing
/// order; then, when no entry stands under the index page's key, a
/// generated index page listing the served page names sorted.
pub open spec fn index_of_listing(
    pages: Seq<(Seq<char>, Seq<char>)>,
    files: Seq<(Seq<char>, Seq<char>)>,
) -> Map<u128, EntryView> {
    let m = add_file_entries(add_page_entries(Map::empty(), pages), files);
    if m.contains_key(path_key(index_path())) {
        m
    } else {
        m.insert(
            path_key(index_path()),
            EntryView {
                request_path: index_path(),
                content: ContentView::Generated(encode_utf8(index_page_text(sorted_seq(display_names(pages))))),
                is_file: false,
            },
        )
    }
}

/// Every entry of a listing's index stands under its own request path's key.
pub proof fn lemma_index_of_listing_well_formed(
    pages: Seq<(Seq<char>, Seq<char>)>,
    files: Seq<(Seq<char>, Seq<char>)>,
)
    ensures
        forall|k: u128| #[trigger] index_of_listing(pages, files).contains_key(k) ==> k == path_key(
            index_of_listing(pages, files)[k].request_path,
        ),
{
    lemma_add_page_entries_well_formed(Map::empty(), pages);
    lemma_add_file_entries_well_formed(add_page_entries(Map::empty(), pages), files);
}

proof fn lemma_add_page_entries_well_formed(m: Map<u128, EntryView>, items: Seq<(Seq<char>, Seq<char>)>)
    requires
        forall|k: u128| #[trigger] m.contains_key(k) ==> k == path_key(m[k].request_path),
    ensures
        forall|k: u128| #[trigger] add_page_entries(m, items).contains_key(k) ==> k == path_key(
            add_page_entries(m, items)[k].request_path,
        ),
    decreases items.len(),
{
    if items.len() > 0 {
        lemma_add_page_entries_well_formed(m, items.drop_last());
    }
}

proof fn lemma_add_file_entries_well_formed(m: Map<u128, EntryView>, items: Seq<(Seq<char>, Seq<char>)>)
    requires
        forall|k: u128| #[trigger] m.contains_key(k) ==> k == path_key(m[k].request_path),
    ensures
        forall|k: u128| #[trigger] add_file_entries(m, items).contains_key(k) ==> k == path_key(
            add_file_entries(m, items)[k].request_path,
        ),
    decreases items.len(),
{
    if items.len() > 0 {
        lemma_add_file_entries_well_formed(m, items.drop_last());
    }
}

proof fn lemma_add_page_entries_keys(m: Map<u128, EntryView>, items: Seq<(Seq<char>, Seq<char>)>)
    ensures
        forall|k: u128| m.contains_key(k) ==> #[trigger] add_page_entries(m, items).contains_key(k),
        forall|i: int|
            0 <= i < items.len() ==> add_page_entries(m, items).contains_key(
                path_key(#[trigger] page_entry(items[i]).request_path),
            ),
    decreases items.len(),
{
    if items.len() > 0 {
        lemma_add_page_entries_keys(m, items.drop_last());
        assert forall|k: u128| m.contains_key(k) implies #[trigger] add_page_entries(m, items).contains_key(k) by {
            assert(add_page_entries(m, items.drop_last()).contains_key(k));
        }
        assert forall|i: int| 0 <= i < items.len() implies add_page_entries(m, items).contains_key(
            path_key(#[trigger] page_entry(items[i]).request_path),
        ) by {
            if i < items.len() - 1 {
                assert(items.drop_last()[i] == items[i]);
            }
        }
    }
}

proof fn lemma_add_file_entries_keys(m: Map<u128, EntryView>, items: Seq<(Seq<char>, Seq<char>)>)
    ensures
        forall|k: u128| m.contains_key(k) ==> #[trigger] add_file_entries(m, items).contains_key(k),
        forall|i: int|
            0 <= i < items.len() ==> add_file_entries(m, items).contains_key(
                path_key(#[trigger] file_entry(items[i]).request_path),
            ),
    decreases items.len(),
{
    if items.len() > 0 {
        lemma_add_file_entries_keys(m, items.drop_last());
        assert forall|k: u128| m.contains_key(k) implies #[trigger] add_file_entries(m, items).contains_key(k) by {
            assert(add_file_entries(m, items.drop_last()).contains_key(k));
        }
        assert forall|i: int| 0 <= i < items.len() implies add_file_entries(m, items).contains_key(
            path_key(#[trigger] file_entry(items[i]).request_path),
        ) by {
            if i < items.len() - 1 {
                assert(items.drop_last()[i] == items[i]);
            }
        }
    }
}

/// Every scan serves the index page `/page/index.mu`: the operator's own
/// when the pages directory holds one, else a generated one.
pub proof fn lemma_index_page_always_served(
    pages: Seq<(Seq<char>, Seq<char>)>,
    files: Seq<(Seq<char>, Seq<char>)>,
)
    ensures
        index_of_listing(pages, files).contains_key(path_key(index_path())),
{
}

/// Every listed file is served: each file of the pages directory under its
/// `/page/` path and each file of the files directory under its `/file/`
/// path.
pub proof fn lemma_listed_files_served(
    pages: Seq<(Seq<char>, Seq<char>)>,
    files: Seq<(Seq<char>, Seq<char>)>,
)
    ensures
        forall|i: int|
            0 <= i < pages.len() ==> index_of_listing(pages, files).contains_key(
                path_key(#[trigger] page_entry(pages[i]).request_path),
            ),
        forall|j: int|
            0 <= j < files.len() ==> index_of_listing(pages, files).contains_key(
                path_key(#[trigger] file_entry(files[j]).request_path),
            ),
{
    let m0 = add_page_entries(Map::empty(), pages);
    lemma_add_page_entries_keys(Map::empty(), pages);
    lemma_add_file_entries_keys(m0, files);
    assert forall|i: int| 0 <= i < pages.len() implies index_of_listing(pages, files).contains_key(
        path_key(#[trigger] page_entry(pages[i]).request_path),
    ) by {
        assert(m0.contains_key(path_key(page_entry(pages[i]).request_path)));
    }
}

proof fn lemma_add_file_entries_last(m: Map<u128, EntryView>, items: Seq<(Seq<char>, Seq<char>)>, j: int)
    requires
        0 <= j < items.len(),
        forall|j2: int|
            j < j2 < items.len() ==> path_key(#[trigger] file_entry(items[j2]).request_path) != path_key(
                file_entry(items[j]).request_path,
            ),
    ensures
        add_file_entries(m, items)[path_key(file_entry(items[j]).request_path)] == file_entry(items[j]),
    decreases items.len(),
{
    if j < items.len() - 1 {
        let t = items.drop_last();
        assert(t[j] == items[j]);
        assert forall|j2: int| j < j2 < t.len() implies path_key(#[trigger] file_entry(t[j2]).request_path)
            != path_key(file_entry(t[j]).request_path) by {
            assert(t[j2] == items[j2]);
        }
        lemma_add_file_entries_last(m, t, j);
        assert(path_key(file_entry(items[items.len() - 1]).request_path) != path_key(
            file_entry(items[j]).request_path,
        ));
    }
}

/// A file of the files directory is served as listed unless a later file
/// of that directory takes its key.
pub proof fn lemma_file_served_as_listed(
    pages: Seq<(Seq<char>, Seq<char>)>,
    files: Seq<(Seq<char>, Seq<char>)>,
    j: int,
)
    requires
        0 <= j < files.len(),
        forall|j2: int|
            j < j2 < files.len() ==> path_key(#[trigger] file_entry(files[j2]).request_path) != path_key(
                file_entry(files[j]).request_path,
            ),
    ensures
        index_of_listing(pages, files)[path_key(file_entry(files[j]).request_path)] == file_entry(files[j]),
{
    let m0 = add_page_entries(Map::empty(), pages);
    lemma_add_file_entries_last(m0, files, j);
    lemma_add_file_entries_keys(m0, files);
    assert(add_file_entries(m0, files).contains_key(path_key(file_entry(files[j]).request_path)));
}

proof fn lemma_add_page_entries_last(m: Map<u128, EntryView>, items: Seq<(Seq<char>, Seq<char>)>, i: int)
    requires
        0 <= i < items.len(),
        forall|i2: int|
            i < i2 < items.len() ==> path_key(#[trigger] page_entry(items[i2]).request_path) != path_key(
                page_entry(items[i]).request_path,
            ),
    ensures
        add_page_entries(m, items)[path_key(page_entry(items[i]).request_path)] == page_entry(items[i]),
        add_page_entries(m, items).contains_key(path_key(page_entry(items[i]).request_path)),
    decreases items.len(),
{
    if i < items.len() - 1 {
        let t = items.drop_last();
        assert(t[i] == items[i]);
        assert forall|i2: int| i < i2 < t.len() implies path_key(#[trigger] page_entry(t[i2]).request_path)
            != path_key(page_entry(t[i]).request_path) by {
            assert(t[i2] == items[i2]);
        }
        lemma_add_page_entries_last(m, t, i);
    }
}

proof fn lemma_add_file_entries_keeps(m: Map<u128, EntryView>, items: Seq<(Seq<char>, Seq<char>)>, k: u128)
    requires
        m.contains_key(k),
        forall|j: int| 0 <= j < items.len() ==> path_key(#[trigger] file_entry(items[j]).request_path) != k,
    ensures
        add_file_entries(m, items).contains_key(k),
        add_file_entries(m, items)[k] == m[k],
    decreases items.len(),
{
    if items.len() > 0 {
        let t = items.drop_last();
        assert forall|j: int| 0 <= j < t.len() implies path_key(#[trigger] file_entry(t[j]).request_path) != k by {
            assert(t[j] == items[j]);
        }
        lemma_add_file_entries_keeps(m, t, k);
        assert(path_key(file_entry(items[items.len() - 1]).request_path) != k);
    }
}

/// A file of the pages directory is served as listed unless a later file
/// of that directory, or a file of the files directory, takes its key.
pub proof fn lemma_page_served_as_listed(
    pages: Seq<(Seq<char>, Seq<char>)>,
    files: Seq<(Seq<char>, Seq<char>)>,
    i: int,
)
    requires
        0 <= i < pages.len(),
        forall|i2: int|
            i < i2 < pages.len() ==> path_key(#[trigger] page_entry(pages[i2]).request_path) != path_key(
                page_entry(pages[i]).request_path,
            ),
        forall|j: int|
            0 <= j < files.len() ==> path_key(#[trigger] file_entry(files[j]).request_path) != path_key(
                page_entry(pages[i]).request_path,
            ),
    ensures
        index_of_listing(pages, files)[path_key(page_entry(pages[i]).request_path)] == page_entry(pages[i]),
{
    let m0 = add_page_entries(Map::empty(), pages);
    lemma_add_page_entries_last(Map::empty(), pages, i);
    lemma_add_file_entries_keeps(m0, files, path_key(page_entry(pages[i]).request_path));
}

/// The keys of the entries for the pages directory listing `pages`.
pub open spec fn page_keys(pages: Seq<(Seq<char>, Seq<char>)>) -> Set<u128> {
    Set::new(
        |k: u128|
            exists|i: int| 0 <= i < pages.len() && path_key(#[trigger] page_entry(pages[i]).request_path) == k,
    )
}

/// The keys of the entries for the files directory listing `files`.
pub open spec fn file_keys(files: Seq<(Seq<char>, Seq<char>)>) -> Set<u128> {
    Set::new(
        |k: u128|
            exists|j: int| 0 <= j < files.len() && path_key(#[trigger] file_entry(files[j]).request_path) == k,
    )
}

proof fn lemma_add_page_entries_dom(m: Map<u128, EntryView>, items: Seq<(Seq<char>, Seq<char>)>)
    ensures
        add_page_entries(m, items).dom() == m.dom() + page_keys(items),
    decreases items.len(),
{
    if items.len() == 0 {
        assert(page_keys(items) =~= Set::<u128>::empty());
        assert(m.dom() + page_keys(items) =~= m.dom());
    } else {
        let t = items.drop_last();
        lemma_add_page_entries_dom(m, t);
        let kl = path_key(page_entry(items.last()).request_path);
        assert forall|k: u128| page_keys(items).contains(k) <==> page_keys(t).insert(kl).contains(k) by {
            if page_keys(items).contains(k) {
                let i = choose|i: int| 0 <= i < items.len() && path_key(#[trigger] page_entry(items[i]).request_path) == k;
                if i < items.len() - 1 {
                    assert(t[i] == items[i]);
                }
            }
            if page_keys(t).contains(k) {
                let i = choose|i: int| 0 <= i < t.len() && path_key(#[trigger] page_entry(t[i]).request_path) == k;
                assert(t[i] == items[i]);
            }
            if k == kl {
                assert(items[items.len() - 1] == items.last());
            }
        }
        assert(page_keys(items) =~= page_keys(t).insert(kl));
        assert(add_page_entries(m, items).dom() =~= m.dom() + page_keys(items));
    }
}

proof fn lemma_add_file_entries_dom(m: Map<u128, EntryView>, items: Seq<(Seq<char>, Seq<char>)>)
    ensures
        add_file_entries(m, items).dom() == m.dom() + file_keys(items),
    decreases items.len(),
{
    if items.len() == 0 {
        assert(file_keys(items) =~= Set::<u128>::empty());
        assert(m.dom() + file_keys(items) =~= m.dom());
    } else {
        let t = items.drop_last();
        lemma_add_file_entries_dom(m, t);
        let kl = path_key(file_entry(items.last()).request_path);
        assert forall|k: u128| file_keys(items).contains(k) <==> file_keys(t).insert(kl).contains(k) by {
            if file_keys(items).contains(k) {
                let i = choose|i: int| 0 <= i < items.len() && path_key(#[trigger] file_entry(items[i]).request_path) == k;
                if i < items.len() - 1 {
                    assert(t[i] == items[i]);
                }
            }
            if file_keys(t).contains(k) {
                let i = choose|i: int| 0 <= i < t.len() && path_key(#[trigger] file_entry(t[i]).request_path) == k;
                assert(t[i] == items[i]);
            }
            if k == kl {
                assert(items[items.len() - 1] == items.last());
            }
        }
        assert(file_keys(items) =~= file_keys(t).insert(kl));
        assert(add_file_entries(m, items).dom() =~= m.dom() + file_keys(items));
    }
}

/// The served keys are exactly those of the listed files plus the index
/// page's: the index holds one entry per distinct key, so its size is the
/// number of distinct listed request paths (barring truncated-hash
/// collisions) plus one unless the index page is among them.
pub proof fn lemma_index_contents(pages: Seq<(Seq<char>, Seq<char>)>, files: Seq<(Seq<char>, Seq<char>)>)
    ensures
        index_of_listing(pages, files).dom() == (page_keys(pages) + file_keys(files)).insert(
            path_key(index_path()),
        ),
        index_of_listing(pages, files).len() == (page_keys(pages) + file_keys(files)).insert(
            path_key(index_path()),
        ).len(),
{
    let m0 = add_page_entries(Map::empty(), pages);
    lemma_add_page_entries_dom(Map::empty(), pages);
    lemma_add_file_entries_dom(m0, files);
    assert(index_of_listing(pages, files).dom() =~= (page_keys(pages) + file_keys(files)).insert(
        path_key(index_path()),
    ));
}

/// An entry made from a listing has read or script content, never
/// generated content.
pub open spec fn listed_content(m: Map<u128, EntryView>) -> bool {
    forall|k: u128| #[trigger] m.contains_key(k) ==> !(m[k].content is Generated)
}

proof fn lemma_add_entries_listed(m: Map<u128, EntryView>, pages: Seq<(Seq<char>, Seq<char>)>, files: Seq<(Seq<char>, Seq<char>)>)
    requires
        listed_content(m),
    ensures
        listed_content(add_page_entries(m, pages)),
        listed_content(add_file_entries(m, files)),
    decreases pages.len() + files.len(),
{
    if pages.len() > 0 {
        lemma_add_entries_listed(m, pages.drop_last(), Seq::empty());
    }
    if files.len() > 0 {
        lemma_add_entries_listed(m, Seq::empty(), files.drop_last());
    }
}

/// A page file is served as the index page exactly when it is named
/// `index.mu` or `index.mu.rhai`; no entry of the files directory is.
pub proof fn lemma_index_page_names(item: (Seq<char>, Seq<char>))
    ensures
        page_entry(item).request_path == index_path() <==> (item.0 == "index.mu"@ || item.0
            == "index.mu.rhai"@),
        file_entry(item).request_path != index_path(),
{
    reveal_strlit("/page/");
    reveal_strlit("/file/");
    reveal_strlit("/page/index.mu");
    reveal_strlit("index.mu");
    reveal_strlit("index.mu.rhai");
    reveal_strlit(".rhai");
    let name = item.0;
    let d = page_display_name(name);
    let p = "/page/"@;
    if p + d == index_path() {
        assert(d =~= (p + d).subrange(6, (p + d).len() as int));
        assert(d =~= "index.mu"@);
        if has_suffix(name, ".rhai"@) {
            assert(name =~= d + ".rhai"@);
            assert("index.mu"@ + ".rhai"@ =~= "index.mu.rhai"@);
        } else {
            assert(name == d);
        }
    }
    if name == "index.mu"@ {
        assert(name.subrange(3, 8)[0] != ".rhai"@[0]);
        assert(!has_suffix(name, ".rhai"@));
        assert(p + name =~= index_path());
    }
    if name == "index.mu.rhai"@ {
        assert(name.subrange(8, 13) =~= ".rhai"@);
        assert(d =~= "index.mu"@);
        assert(p + d =~= index_path());
    }
    assert(("/file/"@ + name)[1] != index_path()[1]);
}

/// The index page is generated exactly when no listed file takes its key;
/// so, barring truncated-hash collisions with its path, exactly when the
/// pages directory holds neither `index.mu` nor `index.mu.rhai`. Otherwise
/// the operator's own file or script is served there.
pub proof fn lemma_index_page_generated(pages: Seq<(Seq<char>, Seq<char>)>, files: Seq<(Seq<char>, Seq<char>)>)
    ensures
        index_of_listing(pages, files)[path_key(index_path())].content is Generated <==> !(page_keys(
            pages,
        ) + file_keys(files)).contains(path_key(index_path())),
        (forall|i: int|
            0 <= i < pages.len() && path_key(#[trigger] page_entry(pages[i]).request_path) == path_key(
                index_path(),
            ) ==> page_entry(pages[i]).request_path == index_path()) && (forall|j: int|
            0 <= j < files.len() ==> path_key(#[trigger] file_entry(files[j]).request_path) != path_key(
                index_path(),
            )) ==> (index_of_listing(pages, files)[path_key(index_path())].content is Generated <==> !(
        exists|i: int| 0 <= i < pages.len() && (#[trigger] pages[i].0 == "index.mu"@ || pages[i].0 == "index.mu.rhai"@))),
{
    let ik = path_key(index_path());
    let m0 = add_page_entries(Map::empty(), pages);
    let m = add_file_entries(m0, files);
    lemma_add_page_entries_dom(Map::empty(), pages);
    lemma_add_file_entries_dom(m0, files);
    lemma_add_entries_listed(Map::empty(), pages, Seq::empty());
    lemma_add_entries_listed(m0, Seq::empty(), files);
    assert(m.dom() =~= page_keys(pages) + file_keys(files));
    if m.contains_key(ik) {
        assert(!(m[ik].content is Generated));
    }
    if (forall|i: int|
        0 <= i < pages.len() && path_key(#[trigger] page_entry(pages[i]).request_path) == ik
            ==> page_entry(pages[i]).request_path == index_path()) && (forall|j: int|
        0 <= j < files.len() ==> path_key(#[trigger] file_entry(files[j]).request_path) != ik) {
        if exists|i: int| 0 <= i < pages.len() && (#[trigger] pages[i].0 == "index.mu"@ || pages[i].0 == "index.mu.rhai"@) {
            let i = choose|i: int| 0 <= i < pages.len() && (#[trigger] pages[i].0 == "index.mu"@ || pages[i].0 == "index.mu.rhai"@);
            lemma_index_page_names(pages[i]);
            assert(page_keys(pages).contains(ik));
        }
        if page_keys(pages).contains(ik) {
            let i = choose|i: int| 0 <= i < pages.len() && path_key(#[trigger] page_entry(pages[i]).request_path) == ik;
            lemma_index_page_names(pages[i]);
        }
        if file_keys(files).contains(ik) {
            let j = choose|j: int| 0 <= j < files.len() && path_key(#[trigger] file_entry(files[j]).request_path) == ik;
        }
    }
}

/// The byte length of the links to `names`: 11 bytes of markup around two
/// copies of each name.
pub open spec fn index_links_byte_len(names: Seq<Seq<char>>) -> int
    decreases names.len(),
{
    if names.len() == 0 {
        0
    } else {
        index_links_byte_len(names.drop_last()) + 2 * encode_utf8(names.last()).len() + 11
    }
}

proof fn lemma_index_links_length(names: Seq<Seq<char>>)
    ensures
        encode_utf8(index_links(names)).len() == index_links_byte_len(names),
    decreases names.len(),
{
    if names.len() > 0 {
        lemma_index_links_length(names.drop_last());
        let n = names.last();
        let a = "`["@;
        let b = "`/page/"@;
        let c = "]\n"@;
        reveal_strlit("`[");
        reveal_strlit("`/page/");
        reveal_strlit("]\n");
        lemma_ascii_len(a);
        lemma_ascii_len(b);
        lemma_ascii_len(c);
        lemma_encode_utf8_concat(a, n);
        lemma_encode_utf8_concat(a + n, b);
        lemma_encode_utf8_concat(a + n + b, n);
        lemma_encode_utf8_concat(a + n + b + n, c);
        lemma_encode_utf8_concat(index_links(names.drop_last()), index_link(n));
    } else {
        assert(encode_utf8(Seq::<char>::empty()) =~= Seq::<u8>::empty());
    }
}

/// The generated index page is valid UTF-8 text of `8 + 34` bytes when it
/// lists no page, else of 8 bytes plus the links' bytes.
pub proof fn lemma_index_page_length(names: Seq<Seq<char>>)
    ensures
        encode_utf8(index_page_text(names)).len() == 8 + if names.len() == 0 {
            34
        } else {
            index_links_byte_len(names)
        },
        vstd::utf8::valid_utf8(encode_utf8(index_page_text(names))),
{
    let head = ">Pages\n\n"@;
    let none = "No pages have been published yet.\n"@;
    reveal_strlit(">Pages\n\n");
    reveal_strlit("No pages have been published yet.\n");
    lemma_ascii_len(head);
    lemma_ascii_len(none);
    lemma_index_links_length(names);
    lemma_encode_utf8_concat(head, none);
    lemma_encode_utf8_concat(head, index_links(names));
    vstd::utf8::encode_utf8_valid_utf8(index_page_text(names));
}

/// The generated index page listing `page_names`, as UTF-8 bytes.
pub fn generate_index(page_names: &[String]) -> (r: Vec<u8>)
    ensures
        r@ == encode_utf8(index_page_text(string_views(page_names@))),
{
    let mut out = String::new();
    out.append(">Pages\n\n");
    let n = page_names.len();
    if n == 0 {
        out.append("No pages have been published yet.\n");
    } else {
        let mut i: usize = 0;
        while i < n
            invariant
                n == page_names@.len(),
                i <= n,
                out@ == ">Pages\n\n"@ + index_links(string_views(page_names@).take(i as int)),
            decreases n - i,
        {
            let name = page_names[i].as_str();
            let ghost before = out@;
            out.append("`[");
            out.append(name);
            out.append("`/page/");
            out.append(name);
            out.append("]\n");
            proof {
                let names = string_views(page_names@);
                assert(names.take(i + 1).drop_last() =~= names.take(i as int));
                assert(out@ =~= before + index_link(name@));
            }
            i = i + 1;
        }
        assert(string_views(page_names@).take(n as int) =~= string_views(page_names@));
    }
    utf8_bytes(out.as_str())
}

/// Where the bytes of a content are to be had.
pub enum ContentSource {
    /// Read the file at this path (on every request).
    ReadFile(String),
    /// These bytes, held in memory.
    Bytes(Vec<u8>),
    /// Not readable as bytes: a script, which is run instead.
    NotReadable,
}

/// Where the bytes of `content` are to be had. A script is not read: it is
/// run with the request's data instead.
pub fn content_source(content: &Content) -> (r: ContentSource)
    ensures
        match content@ {
            ContentView::File(p) => r matches ContentSource::ReadFile(q) && q@ == p,
            ContentView::Generated(b) => r matches ContentSource::Bytes(c) && c@ == b,
            ContentView::Script(_) => r is NotReadable,
        },
{
    match content {
        Content::File(path) => ContentSource::ReadFile(path.clone()),
        Content::Generated(bytes) => ContentSource::Bytes(vstd::slice::slice_to_vec(bytes.as_slice())),
        Content::Script(_) => ContentSource::NotReadable,
    }
}

/// All served paths, keyed by the truncated hash of their request paths.
#[derive(Debug)]
pub struct PageIndex {
    entries: HashMap<u128, Entry>,
}

impl View for PageIndex {
    type V = Map<u128, EntryView>;

    closed spec fn view(&self) -> Map<u128, EntryView> {
        self.entries@.map_values(|e: Entry| e@)
    }
}

impl Default for PageIndex {
    /// An index with no entries.
    fn default() -> (r: PageIndex)
        ensures
            r@ == Map::<u128, EntryView>::empty(),
    {
        PageIndex::new()
    }
}

impl PageIndex {
    /// Every entry stands under the key of its own request path.
    pub open spec fn well_formed(&self) -> bool {
        forall|k: u128| #[trigger] self@.contains_key(k) ==> k == path_key(self@[k].request_path)
    }

    /// An index with no entries.
    pub fn new() -> (r: PageIndex)
        ensures
            r@ == Map::<u128, EntryView>::empty(),
            r.well_formed(),
    {
        let r = PageIndex { entries: HashMap::new() };
        assert(r@ =~= Map::<u128, EntryView>::empty());
        r
    }

    /// The index of the listing `pages` of the pages directory and `files`
    /// of the files directory (see [`index_of_listing`]). A file `x.rhai`
    /// of the pages directory is served as the script `/page/x`, any other
    /// file `y` as `/page/y`; a file `z` of the files directory as
    /// `/file/z`.
    pub fn build(pages: &Vec<DirItem>, files: &Vec<DirItem>) -> (r: PageIndex)
        ensures
            r@ == index_of_listing(item_views(pages@), item_views(files@)),
            r.well_formed(),
    {
        let ghost pv = item_views(pages@);
        let ghost fv = item_views(files@);
        let mut entries: HashMap<u128, Entry> = HashMap::new();
        let mut page_names: Vec<String> = Vec::new();
        let np = pages.len();
        let mut i: usize = 0;
        while i < np
            invariant
                np == pages@.len(),
                pv == item_views(pages@),
                i <= np,
                entries@.map_values(|e: Entry| e@) == add_page_entries(Map::empty(), pv.take(i as int)),
                string_views(page_names@) == display_names(pv.take(i as int)),
            decreases np - i,
        {
            let item = &pages[i];
            let ghost iv = pv[i as int];
            proof {
                reveal_strlit(".rhai");
                reveal_strlit("/page/");
            }
            assert(iv == (item.name@, item.path@));
            let (display, content) = match strip_suffix(item.name.as_str(), ".rhai") {
                Some(stripped) => (stripped, Content::Script(item.path.clone())),
                None => (item.name.clone(), Content::File(item.path.clone())),
            };
            let request_path = concat("/page/", display.as_str());
            let hash = truncated_hash(request_path.as_str().as_bytes());
            let key = key_of(&hash);
            let entry = Entry { request_path, content, is_file: false };
            assert(display@ == page_display_name(iv.0));
            assert(entry@.content == page_entry(iv).content);
            assert(entry@.request_path == page_entry(iv).request_path);
            assert(entry@ == page_entry(iv));
            let ghost before = entries@.map_values(|e: Entry| e@);
            let ghost names_before = string_views(page_names@);
            let ghost shown = display@;
            entries.insert(key, entry);
            page_names.push(display);
            proof {
                assert(pv.take(i + 1).drop_last() =~= pv.take(i as int));
                assert(entries@.map_values(|e: Entry| e@) =~= before.insert(key, entry@));
                assert(string_views(page_names@) =~= names_before.push(shown));
                assert(display_names(pv.take(i + 1)) =~= display_names(pv.take(i as int)).push(shown));
            }
            i = i + 1;
        }
        assert(pv.take(np as int) =~= pv);
        let ghost after_pages = entries@.map_values(|e: Entry| e@);
        let nf = files.len();
        let mut j: usize = 0;
        while j < nf
            invariant
                nf == files@.len(),
                fv == item_views(files@),
                j <= nf,
                entries@.map_values(|e: Entry| e@) == add_file_entries(after_pages, fv.take(j as int)),
            decreases nf - j,
        {
            let item = &files[j];
            let ghost iv = fv[j as int];
            proof {
                reveal_strlit("/file/");
            }
            let request_path = concat("/file/", item.name.as_str());
            let hash = truncated_hash(request_path.as_str().as_bytes());
            let key = key_of(&hash);
            let entry = Entry { request_path, content: Content::File(item.path.clone()), is_file: true };
            assert(entry@ == file_entry(iv));
            let ghost before = entries@.map_values(|e: Entry| e@);
            entries.insert(key, entry);
            proof {
                assert(fv.take(j + 1).drop_last() =~= fv.take(j as int));
                assert(entries@.map_values(|e: Entry| e@) =~= before.insert(key, entry@));
            }
            j = j + 1;
        }
        assert(fv.take(nf as int) =~= fv);
        let index_path_str = "/page/index.mu";
        proof {
            reveal_strlit("/page/index.mu");
        }
        let index_hash = truncated_hash(index_path_str.as_bytes());
        let index_key = key_of(&index_hash);
        let ghost before = entries@.map_values(|e: Entry| e@);
        assert(before.dom() =~= entries@.dom());
        if !entries.contains_key(&index_key) {
            let sorted = sort_names(&page_names);
            let body = generate_index(sorted.as_slice());
            let entry = Entry {
                request_path: owned(index_path_str),
                content: Content::Generated(body),
                is_file: false,
            };
            entries.insert(index_key, entry);
            assert(entries@.map_values(|e: Entry| e@) =~= before.insert(index_key, entry@));
        }
        let r = PageIndex { entries };
        proof {
            lemma_index_of_listing_well_formed(pv, fv);
        }
        r
    }

    /// `get` finds an entry for exactly `len` of the 16-byte hashes: one per
    /// served key.
    pub proof fn lemma_found_hashes_count(&self)
        ensures
            Set::new(|h: Seq<u8>| h.len() == 16 && self@.contains_key(hash_key(h))).finite(),
            Set::new(|h: Seq<u8>| h.len() == 16 && self@.contains_key(hash_key(h))).len() == self@.len(),
    {
        let found = Set::new(|h: Seq<u8>| h.len() == 16 && self@.contains_key(hash_key(h)));
        let f = |k: u128| be_bytes(k as nat, 16);
        assert(self@.dom() =~= self.entries@.dom());
        assert forall|h: Seq<u8>| #[trigger] found.contains(h) <==> self@.dom().map(f).contains(h) by {
            if found.contains(h) {
                lemma_hash_key_bijective(hash_key(h), h);
                assert(f(hash_key(h)) == h);
            }
            if self@.dom().map(f).contains(h) {
                let k = choose|k: u128| self@.dom().contains(k) && f(k) == h;
                lemma_hash_key_bijective(k, h);
            }
        }
        assert(found =~= self@.dom().map(f));
        assert forall|a: u128, b: u128| self@.dom().contains(a) && self@.dom().contains(b) && #[trigger] f(a)
            == #[trigger] f(b) implies a == b by {
            lemma_hash_key_bijective(a, f(a));
            lemma_hash_key_bijective(b, f(b));
        }
        vstd::set_lib::lemma_map_size(self@.dom(), found, f);
    }

    /// The entry served under `path_hash`, if any.
    pub fn get(&self, path_hash: &[u8; 16]) -> (r: Option<&Entry>)
        ensures
            match r {
                Some(e) => self@.contains_key(hash_key(path_hash@)) && e@ == self@[hash_key(path_hash@)],
                None => !self@.contains_key(hash_key(path_hash@)),
            },
    {
        let k = key_of(path_hash);
        self.entries.get(&k)
    }

    /// The number of served paths.
    pub fn len(&self) -> (r: usize)
        ensures
            r == self@.len(),
    {
        assert(self@.dom() =~= self.entries@.dom());
        self.entries.len()
    }

    /// Whether no path is served.
    pub fn is_empty(&self) -> (r: bool)
        ensures
            r == (self@.len() == 0),
    {
        assert(self@.dom() =~= self.entries@.dom());
        self.entries.is_empty()
    }
}

} // verus!
