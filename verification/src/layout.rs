//! What a new project holds.

use vstd::prelude::*;

use crate::text::texts;

verus! {

/// The directories of a new project.
pub open spec fn layout_directories_spec() -> Seq<Seq<char>> {
    seq![
        "raw/sources"@,
        "raw/assets"@,
        "wiki/entities"@,
        "wiki/concepts"@,
        "wiki/sources"@,
        "wiki/queries"@,
        "wiki/comparisons"@,
        "wiki/synthesis"@,
        ".llm-wiki"@,
    ]
}

/// The directories of a new project.
pub fn layout_directories() -> (r: Vec<String>)
    ensures
        texts(r@) == layout_directories_spec(),
{
    let mut r: Vec<String> = Vec::new();
    r.push("raw/sources".to_owned());
    r.push("raw/assets".to_owned());
    r.push("wiki/entities".to_owned());
    r.push("wiki/concepts".to_owned());
    r.push("wiki/sources".to_owned());
    r.push("wiki/queries".to_owned());
    r.push("wiki/comparisons".to_owned());
    r.push("wiki/synthesis".to_owned());
    r.push(".llm-wiki".to_owned());
    assert(texts(r@) =~= layout_directories_spec());
    r
}

/// A file of a new project.
pub struct LayoutFile {
    pub path: String,
    pub content: String,
}

/// The paths and texts of files.
pub open spec fn layout_views(files: Seq<LayoutFile>) -> Seq<(Seq<char>, Seq<char>)> {
    Seq::new(files.len(), |i: int| (files[i].path@, files[i].content@))
}

/// The files of a new project.
pub open spec fn layout_files_spec() -> Seq<(Seq<char>, Seq<char>)> {
    seq![
        (
            "purpose.md"@,
            "# Project Purpose\n\nDescribe the purpose, scope, and key questions for this knowledge base.\n"@,
        ),
        (
            "schema.md"@,
            "# Wiki Schema\n\n- `wiki/entities/`: named entities\n- `wiki/concepts/`: concepts and methods\n- `wiki/sources/`: source summaries\n- `wiki/queries/`: research questions\n- `wiki/comparisons/`: comparisons\n- `wiki/synthesis/`: cross-cutting conclusions\n"@,
        ),
        (
            "wiki/index.md"@,
            "# Wiki Index\n\n## Entities\n\n## Concepts\n\n## Sources\n\n## Queries\n\n## Comparisons\n\n## Synthesis\n"@,
        ),
        ("wiki/log.md"@, "# Research Log\n\n- Project created from LLM Wiki Web.\n"@),
        (
            "wiki/overview.md"@,
            "---\ntype: overview\ntitle: Project Overview\ntags: []\nrelated: []\n---\n\n# Overview\n\nDescribe the current state of this knowledge base.\n"@,
        ),
        ("README.md"@, "# LLM Wiki\n"@),
    ]
}

/// Adds a file.
fn add_file(files: &mut Vec<LayoutFile>, path: &str, content: &str)
    ensures
        layout_views(final(files)@) == layout_views(old(files)@).push((path@, content@)),
{
    files.push(LayoutFile { path: path.to_owned(), content: content.to_owned() });
    assert(layout_views(files@) =~= layout_views(old(files)@).push((path@, content@)));
}

/// The files of a new project, in the order in which they are written.
pub fn layout_files() -> (r: Vec<LayoutFile>)
    ensures
        layout_views(r@) == layout_files_spec(),
{
    let mut r: Vec<LayoutFile> = Vec::new();
    assert(layout_views(r@) =~= Seq::<(Seq<char>, Seq<char>)>::empty());
    add_file(
        &mut r,
        "purpose.md",
        "# Project Purpose\n\nDescribe the purpose, scope, and key questions for this knowledge base.\n",
    );
    add_file(
        &mut r,
        "schema.md",
        "# Wiki Schema\n\n- `wiki/entities/`: named entities\n- `wiki/concepts/`: concepts and methods\n- `wiki/sources/`: source summaries\n- `wiki/queries/`: research questions\n- `wiki/comparisons/`: comparisons\n- `wiki/synthesis/`: cross-cutting conclusions\n",
    );
    add_file(
        &mut r,
        "wiki/index.md",
        "# Wiki Index\n\n## Entities\n\n## Concepts\n\n## Sources\n\n## Queries\n\n## Comparisons\n\n## Synthesis\n",
    );
    add_file(
        &mut r,
        "wiki/log.md",
        "# Research Log\n\n- Project created from LLM Wiki Web.\n",
    );
    add_file(
        &mut r,
        "wiki/overview.md",
        "---\ntype: overview\ntitle: Project Overview\ntags: []\nrelated: []\n---\n\n# Overview\n\nDescribe the current state of this knowledge base.\n",
    );
    add_file(&mut r, "README.md", "# LLM Wiki\n");
    assert(layout_views(r@) =~= layout_files_spec());
    r
}

/// A new project has directories for its sources, for each kind of page and for the server, and
/// files that say what it is for, how it is laid out and what it holds.
pub proof fn law_new_project_has_a_place_for_everything()
    ensures
        ({
            let directories = layout_directories_spec();
            &&& directories.len() == 9
            &&& directories[0] == "raw/sources"@ && directories[1] == "raw/assets"@
            &&& directories[2] == "wiki/entities"@ && directories[3] == "wiki/concepts"@
            &&& directories[4] == "wiki/sources"@ && directories[5] == "wiki/queries"@
            &&& directories[6] == "wiki/comparisons"@ && directories[7] == "wiki/synthesis"@
            &&& directories[8] == ".llm-wiki"@
        }),
        ({
            let files = layout_files_spec();
            &&& files.len() == 6
            &&& files[0].0 == "purpose.md"@ && files[1].0 == "schema.md"@
            &&& files[2].0 == "wiki/index.md"@ && files[3].0 == "wiki/log.md"@
            &&& files[4].0 == "wiki/overview.md"@ && files[5].0 == "README.md"@
            &&& "# Project Purpose\n"@.is_prefix_of(files[0].1)
            &&& "# Wiki Schema\n"@.is_prefix_of(files[1].1)
            &&& "# Wiki Index\n\n"@.is_prefix_of(files[2].1)
            &&& "# Research Log\n"@.is_prefix_of(files[3].1)
            &&& "---\ntype: overview\n"@.is_prefix_of(files[4].1)
            &&& files[5].1 == "# LLM Wiki\n"@
        }),
{
    let files = layout_files_spec();
    assert("# Project Purpose\n"@.is_prefix_of(files[0].1)) by {
        reveal_strlit("# Project Purpose\n");
        reveal_strlit(
            "# Project Purpose\n\nDescribe the purpose, scope, and key questions for this knowledge base.\n",
        );
        assert(files[0].1.subrange(0, 18) =~= "# Project Purpose\n"@);
    }
    assert("# Wiki Schema\n"@.is_prefix_of(files[1].1)) by {
        reveal_strlit("# Wiki Schema\n");
        reveal_strlit(
            "# Wiki Schema\n\n- `wiki/entities/`: named entities\n- `wiki/concepts/`: concepts and methods\n- `wiki/sources/`: source summaries\n- `wiki/queries/`: research questions\n- `wiki/comparisons/`: comparisons\n- `wiki/synthesis/`: cross-cutting conclusions\n",
        );
        assert(files[1].1.subrange(0, 14) =~= "# Wiki Schema\n"@);
    }
    assert("# Wiki Index\n\n"@.is_prefix_of(files[2].1)) by {
        reveal_strlit("# Wiki Index\n\n");
        reveal_strlit(
            "# Wiki Index\n\n## Entities\n\n## Concepts\n\n## Sources\n\n## Queries\n\n## Comparisons\n\n## Synthesis\n",
        );
        assert(files[2].1.subrange(0, 14) =~= "# Wiki Index\n\n"@);
    }
    assert("# Research Log\n"@.is_prefix_of(files[3].1)) by {
        reveal_strlit("# Research Log\n");
        reveal_strlit("# Research Log\n\n- Project created from LLM Wiki Web.\n");
        assert(files[3].1.subrange(0, 15) =~= "# Research Log\n"@);
    }
    assert("---\ntype: overview\n"@.is_prefix_of(files[4].1)) by {
        reveal_strlit("---\ntype: overview\n");
        reveal_strlit(
            "---\ntype: overview\ntitle: Project Overview\ntags: []\nrelated: []\n---\n\n# Overview\n\nDescribe the current state of this knowledge base.\n",
        );
        assert(files[4].1.subrange(0, 19) =~= "---\ntype: overview\n"@);
    }
}

/// Contracts speak of whole values: every part of a value is in its view, in its place, and nothing
/// else is.
pub proof fn law_views_of_layout_are_whole(
    files: Seq<LayoutFile>,
)
    ensures
        layout_views(files).len() == files.len(),
        forall|i: int|
            0 <= i < files.len() ==> #[trigger] layout_views(files)[i] == (
                files[i].path@,
                files[i].content@,
            ),
{
}

} // verus!
