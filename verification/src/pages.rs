//! The pages of a wiki: the Markdown files of a project.

use vstd::prelude::*;

use crate::names::{
    extension, extension_spec, file_stem, law_extension_follows_the_last_dot, stem_spec,
};
use crate::paths::{
    below, file_name, file_name_spec, hidden_below, is_hidden_relative, law_last_name_of_a_path,
};
use crate::text::same;

verus! {

/// A file that was read: its path and what it holds.
pub struct PageFile {
    pub path: String,
    pub content: String,
}

/// The view of a [`PageFile`].
pub struct PageView {
    pub path: Seq<char>,
    pub content: Seq<char>,
}

impl View for PageFile {
    type V = PageView;

    open spec fn view(&self) -> PageView {
        PageView { path: self.path@, content: self.content@ }
    }
}

/// The views of files.
pub open spec fn page_views(pages: Seq<PageFile>) -> Seq<PageView> {
    Seq::new(pages.len(), |i: int| pages[i]@)
}

/// Whether a path ends with the name of a Markdown file.
pub open spec fn markdown_path(path: Seq<char>) -> bool {
    file_name_spec(path) matches Some(name) && extension_spec(name) == Some("md"@)
}

/// Whether a path ends with the name of a Markdown file.
pub fn is_markdown(path: &str) -> (r: bool)
    ensures
        r == markdown_path(path@),
{
    match file_name(path) {
        Some(name) => match extension(name.as_str()) {
            Some(extension) => same(extension.as_str(), "md"),
            None => false,
        },
        None => false,
    }
}

/// Whether a path below a root is that of a page: of a Markdown file that is not hidden.
pub open spec fn page_path(root: Seq<char>, path: Seq<char>) -> bool {
    markdown_path(path) && !hidden_below(root, path)
}

/// Whether a path below a root is that of a page.
pub fn is_page(root: &str, path: &str) -> (r: bool)
    ensures
        r == page_path(root@, path@),
{
    is_markdown(path) && !is_hidden_relative(root, path)
}

/// The name of the file at a path, without its extension.
pub open spec fn path_stem(path: Seq<char>) -> Seq<char> {
    match file_name_spec(path) {
        Some(name) => stem_spec(name),
        None => seq![],
    }
}

/// The name of the file at a path, without its extension.
pub fn stem_of_path(path: &str) -> (r: String)
    ensures
        r@ == path_stem(path@),
{
    match file_name(path) {
        Some(name) => file_stem(name.as_str()),
        None => {
            proof {
                reveal_strlit("");
                assert(""@ =~= Seq::<char>::empty());
            }
            "".to_owned()
        },
    }
}

/// A file is a page exactly if its extension is that of Markdown and neither it nor a directory
/// that it lies in is hidden.
pub proof fn law_markdown_files_are_pages(
    root: Seq<char>,
    directory: Seq<char>,
    stem: Seq<char>,
    extension: Seq<char>,
)
    requires
        directory.len() > 0,
        below(directory, root),
        stem.len() > 0 && stem[0] != '.' && !stem.contains('/'),
        !extension.contains('/') && !extension.contains('.'),
    ensures
        ({
            let path = directory + "/"@ + (stem + "."@ + extension);
            &&& path_stem(path) == stem
            &&& markdown_path(path) <==> extension == "md"@
            &&& page_path(root, path) <==> extension == "md"@ && !hidden_below(root, directory)
            &&& markdown_path(directory + "/"@ + stem) ==> stem.contains('.')
        }),
        !page_path(root, directory + "/"@ + ("."@ + stem)),
{
    reveal_strlit(".");
    reveal_strlit("..");
    assert("."@ =~= seq!['.']);
    let name = stem + "."@ + extension;
    assert(name[0] == stem[0] && name.len() >= 2);
    assert(!name.contains('/')) by {
        if name.contains('/') {
            let i = name.index_of('/');
            if i < stem.len() {
                assert(stem.contains(stem[i]));
            } else {
                assert(i > stem.len());
                assert(extension.contains(extension[i - stem.len() - 1]));
            }
        }
    }
    let secret = "."@ + stem;
    assert(secret[0] == '.' && secret[1] == stem[0]);
    assert(!secret.contains('/')) by {
        if secret.contains('/') {
            let i = secret.index_of('/');
            assert(i >= 1);
            assert(stem.contains(stem[i - 1]));
        }
    }
    assert("."@ != secret && ".."@[1] == '.');
    law_last_name_of_a_path(root, directory, name);
    law_last_name_of_a_path(root, directory, secret);
    law_last_name_of_a_path(root, directory, stem);
    law_extension_follows_the_last_dot(stem, extension);
    if !stem.contains('.') {
        law_extension_follows_the_last_dot(stem, stem);
    }
}

/// Contracts speak of whole values: every part of a value is in its view, in its place, and nothing
/// else is.
pub proof fn law_views_of_pages_are_whole(
    file: PageFile,
    pages: Seq<PageFile>,
)
    ensures
        file@.path == file.path@,
        file@.content == file.content@,
        page_views(pages).len() == pages.len(),
        forall|i: int|
            0 <= i < pages.len() ==> #[trigger] page_views(pages)[i] == pages[i]@,
{
}

} // verus!
