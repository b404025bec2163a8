//! Uploading files to a project.

use vstd::prelude::*;

use crate::error::{ApiError, ErrorView, optional, outcome, plain_error};
use crate::headers::{Headers, header_text};
use crate::names::{upload_name, validate_file_name};
use crate::paths::{
    FailureView, PathFacts, path_escape_spec, resolved, safe_path_spec, safe_project_path,
    same_path, same_place,
};
use crate::revision::{revision, revision_spec};
use crate::text::{
    CharSet, chars_of, is_blank, law_blank_text_is_white_space, lemma_trim_end, lemma_trim_start,
    same, starts_with, text_of, trim, trim_spec, trimmed, white_space,
};

verus! {

/// How many bytes an upload has at most.
pub const MAX_UPLOAD_BYTES: usize = 26214400;

/// Whether a request carries its files in parts.
pub open spec fn multipart(fields: Seq<(Seq<char>, Seq<u8>)>) -> bool {
    header_text(fields, "content-type"@) matches Some(value)
        && "multipart/form-data"@.is_prefix_of(value)
}

/// Whether a request carries its files in parts.
pub fn is_multipart(headers: &Headers) -> (r: bool)
    ensures
        r == multipart(headers@),
{
    match headers.text("content-type") {
        Some(value) => starts_with(
            chars_of(value.as_str()).as_slice(),
            chars_of("multipart/form-data").as_slice(),
        ),
        None => false,
    }
}

/// Whether a part of a request carries a file.
pub fn is_file_part(name: &Option<String>) -> (r: bool)
    ensures
        r == (optional(*name) == Some("files"@)),
{
    match name {
        Some(name) => same(name.as_str(), "files"),
        None => false,
    }
}

/// The answer to a file without a name.
pub open spec fn name_required(message: Seq<char>) -> ErrorView {
    plain_error(400, "FILE_NAME_REQUIRED"@, message)
}

/// The name of the file that a part carries.
pub fn part_file_name(name: Option<String>) -> (r: Result<String, ApiError>)
    ensures
        outcome(r) == match optional(name) {
            Some(name) => Ok::<Seq<char>, ErrorView>(name),
            None => Err(name_required("each multipart file needs a filename"@)),
        },
{
    match name {
        Some(name) => Ok(name),
        None => Err(
            ApiError::new(400, "FILE_NAME_REQUIRED", "each multipart file needs a filename"),
        ),
    }
}

/// The name of the file that the body of a request is.
pub fn body_file_name(headers: &Headers) -> (r: Result<String, ApiError>)
    ensures
        outcome(r) == match header_text(headers@, "x-file-name"@) {
            Some(name) => Ok::<Seq<char>, ErrorView>(name),
            None => Err(
                name_required("X-File-Name header is required for non-multipart uploads"@),
            ),
        },
{
    match headers.text("x-file-name") {
        Some(name) => Ok(name),
        None => Err(
            ApiError::new(
                400,
                "FILE_NAME_REQUIRED",
                "X-File-Name header is required for non-multipart uploads",
            ),
        ),
    }
}

/// The answer to parts that cannot be read.
pub fn invalid_multipart(message: &str) -> (e: ApiError)
    ensures
        e@ == plain_error(400, "INVALID_MULTIPART"@, message@),
{
    ApiError::new(400, "INVALID_MULTIPART", message)
}

/// The answer to an upload that is too large.
pub fn upload_too_large(message: &str) -> (e: ApiError)
    ensures
        e@ == plain_error(413, "UPLOAD_TOO_LARGE"@, message@),
{
    ApiError::new(413, "UPLOAD_TOO_LARGE", message)
}

/// The path of an uploaded file, relative to the project.
pub open spec fn upload_path(directory: Seq<char>, name: Seq<char>) -> Seq<char> {
    if trimmed(directory).len() == 0 {
        name
    } else {
        trim_spec(directory, CharSet::One('/')) + "/"@ + name
    }
}

/// The path of an uploaded file, relative to the project.
pub fn upload_relative(directory: &str, name: &str) -> (r: String)
    ensures
        r@ == upload_path(directory@, name@),
{
    if is_blank(directory) {
        return name.to_owned();
    }
    let chars = chars_of(directory);
    text_of(trim(chars.as_slice(), CharSet::One('/'))).concat("/").concat(name)
}

/// A file to upload: its name, and what the file system says of its place.
pub struct UploadItem {
    pub name: String,
    pub facts: PathFacts,
    pub target_exists: bool,
}

/// The view of an [`UploadItem`].
pub struct UploadView {
    pub name: Seq<char>,
    pub links: Seq<bool>,
    pub exists: Seq<bool>,
    pub canonical: Result<Seq<char>, FailureView>,
    pub target_exists: bool,
}

impl View for UploadItem {
    type V = UploadView;

    open spec fn view(&self) -> UploadView {
        UploadView {
            name: self.name@,
            links: self.facts.links@,
            exists: self.facts.exists@,
            canonical: resolved(self.facts.canonical),
            target_exists: self.target_exists,
        }
    }
}

/// The views of files to upload.
pub open spec fn upload_views(items: Seq<UploadItem>) -> Seq<UploadView> {
    Seq::new(items.len(), |i: int| items[i]@)
}

/// Where a file is uploaded to.
pub struct UploadTarget {
    pub target: String,
    pub relative: String,
}

/// The view of an [`UploadTarget`].
pub struct TargetView {
    pub target: Seq<char>,
    pub relative: Seq<char>,
}

impl View for UploadTarget {
    type V = TargetView;

    open spec fn view(&self) -> TargetView {
        TargetView { target: self.target@, relative: self.relative@ }
    }
}

/// The views of places.
pub open spec fn target_views(targets: Seq<UploadTarget>) -> Seq<TargetView> {
    Seq::new(targets.len(), |i: int| targets[i]@)
}

/// Whether a place is taken by one of the files.
pub open spec fn taken(targets: Seq<TargetView>, target: Seq<char>) -> bool {
    exists|i: int| 0 <= i < targets.len() && same_place((#[trigger] targets[i]).target, target)
}

/// The answer to a file whose place is taken.
pub open spec fn upload_exists() -> ErrorView {
    plain_error(
        409,
        "FILE_EXISTS"@,
        "upload target already exists or was supplied more than once"@,
    )
}

/// Where one more file is uploaded to, after those before it.
pub open spec fn target_spec(
    root: Seq<char>,
    directory: Seq<char>,
    before: Seq<TargetView>,
    item: UploadView,
) -> Result<TargetView, ErrorView> {
    if !upload_name(item.name) {
        Err(path_escape_spec())
    } else {
        let relative = upload_path(directory, item.name);
        match safe_path_spec(root, relative, false, item.links, item.exists, item.canonical) {
            Err(error) => Err(error),
            Ok(target) => if item.target_exists || taken(before, target) {
                Err(upload_exists())
            } else {
                Ok(TargetView { target, relative })
            },
        }
    }
}

/// Where files are uploaded to, if all of them may be.
pub open spec fn targets_spec(
    root: Seq<char>,
    directory: Seq<char>,
    items: Seq<UploadView>,
) -> Result<Seq<TargetView>, ErrorView>
    decreases items.len(),
{
    if items.len() == 0 {
        Ok(seq![])
    } else {
        match targets_spec(root, directory, items.drop_last()) {
            Err(error) => Err(error),
            Ok(before) => match target_spec(root, directory, before, items.last()) {
                Err(error) => Err(error),
                Ok(target) => Ok(before.push(target)),
            },
        }
    }
}

/// The first file that may not be uploaded decides the answer.
proof fn lemma_targets_refused(
    root: Seq<char>,
    directory: Seq<char>,
    items: Seq<UploadView>,
    n: int,
)
    requires
        0 <= n <= items.len(),
        targets_spec(root, directory, items.take(n)) is Err,
    ensures
        targets_spec(root, directory, items) == targets_spec(root, directory, items.take(n)),
    decreases items.len() - n,
{
    if n == items.len() {
        assert(items.take(n) =~= items);
    } else {
        assert(items.take(n + 1).drop_last() =~= items.take(n));
        lemma_targets_refused(root, directory, items, n + 1);
    }
}

/// The answer to an upload without files.
pub open spec fn files_required() -> ErrorView {
    plain_error(
        400,
        "FILES_REQUIRED"@,
        "multipart uploads must contain one or more files fields"@,
    )
}

/// Where the files of a request are uploaded to: to free and different places, all or none.
pub open spec fn upload_spec(
    root: Seq<char>,
    directory: Seq<char>,
    items: Seq<UploadView>,
) -> Result<Seq<TargetView>, ErrorView> {
    if items.len() == 0 {
        Err(files_required())
    } else {
        targets_spec(root, directory, items)
    }
}

/// The view of places or an error.
pub open spec fn targets_outcome(r: Result<Vec<UploadTarget>, ApiError>) -> Result<
    Seq<TargetView>,
    ErrorView,
> {
    match r {
        Ok(targets) => Ok(target_views(targets@)),
        Err(error) => Err(error@),
    }
}

/// Whether a place is taken by one of the files.
fn is_taken(targets: &Vec<UploadTarget>, target: &str) -> (r: bool)
    ensures
        r == taken(target_views(targets@), target@),
{
    let ghost all = target_views(targets@);
    let mut i: usize = 0;
    while i < targets.len()
        invariant
            i <= targets@.len(),
            all == target_views(targets@),
            forall|j: int| 0 <= j < i ==> !same_place((#[trigger] all[j]).target, target@),
        decreases targets@.len() - i,
    {
        assert(all[i as int] == targets@[i as int]@);
        if same_path(targets[i].target.as_str(), target) {
            return true;
        }
        i += 1;
    }
    false
}

/// Where one more file is uploaded to, after those before it.
fn place_upload(root: &str, directory: &str, before: &Vec<UploadTarget>, item: &UploadItem) -> (r:
    Result<UploadTarget, ApiError>)
    ensures
        outcome(r) == target_spec(root@, directory@, target_views(before@), item@),
{
    match validate_file_name(item.name.as_str()) {
        Ok(()) => {},
        Err(error) => {
            return Err(error);
        },
    }
    let relative = upload_relative(directory, item.name.as_str());
    let target = match safe_project_path(root, relative.as_str(), false, &item.facts) {
        Ok(target) => target,
        Err(error) => {
            return Err(error);
        },
    };
    if item.target_exists || is_taken(before, target.as_str()) {
        return Err(
            ApiError::new(
                409,
                "FILE_EXISTS",
                "upload target already exists or was supplied more than once",
            ),
        );
    }
    Ok(UploadTarget { target, relative })
}

/// Where the files of a request are uploaded to.
pub fn plan_uploads(root: &str, directory: &str, items: &Vec<UploadItem>) -> (r: Result<
    Vec<UploadTarget>,
    ApiError,
>)
    ensures
        targets_outcome(r) == upload_spec(root@, directory@, upload_views(items@)),
{
    if items.len() == 0 {
        return Err(
            ApiError::new(
                400,
                "FILES_REQUIRED",
                "multipart uploads must contain one or more files fields",
            ),
        );
    }
    let ghost all = upload_views(items@);
    let mut targets: Vec<UploadTarget> = Vec::new();
    let mut i: usize = 0;
    assert(all.take(0) =~= Seq::<UploadView>::empty());
    assert(target_views(targets@) =~= Seq::<TargetView>::empty());
    while i < items.len()
        invariant
            i <= items@.len(),
            items@.len() > 0,
            all == upload_views(items@),
            targets_spec(root@, directory@, all.take(i as int)) == Ok::<Seq<TargetView>, ErrorView>(
                target_views(targets@),
            ),
        decreases items@.len() - i,
    {
        let ghost before = target_views(targets@);
        proof {
            assert(all.take(i + 1).drop_last() =~= all.take(i as int));
            assert(all.take(i + 1).last() == items@[i as int]@);
        }
        match place_upload(root, directory, &targets, &items[i]) {
            Ok(target) => {
                targets.push(target);
                assert(target_views(targets@) =~= before.push(target@));
            },
            Err(error) => {
                proof {
                    lemma_targets_refused(root@, directory@, all, i + 1);
                }
                return Err(error);
            },
        }
        i += 1;
    }
    assert(all.take(i as int) =~= all);
    Ok(targets)
}

/// A file that was uploaded.
pub struct UploadedFile {
    pub path: String,
    pub revision: String,
    pub size: usize,
}

/// What an upload is answered with for a file.
pub fn uploaded_file(relative: &str, bytes: &[u8]) -> (r: UploadedFile)
    ensures
        r.path@ == relative@,
        r.revision@ == revision_spec(bytes@),
        r.size == bytes@.len(),
{
    UploadedFile { path: relative.to_owned(), revision: revision(bytes), size: bytes.len() }
}

/// Files that are uploaded together go to different places, none of which was taken.
pub proof fn law_uploads_replace_nothing(
    root: Seq<char>,
    directory: Seq<char>,
    items: Seq<UploadView>,
)
    ensures
        targets_spec(root, directory, items) matches Ok(targets) ==> {
            &&& targets.len() == items.len()
            &&& forall|i: int| 0 <= i < items.len() ==> !(#[trigger] items[i]).target_exists
            &&& forall|i: int, j: int|
                0 <= i < j < targets.len() ==> !same_place(
                    (#[trigger] targets[i]).target,
                    (#[trigger] targets[j]).target,
                )
        },
    decreases items.len(),
{
    if items.len() > 0 {
        let rest = items.drop_last();
        law_uploads_replace_nothing(root, directory, rest);
        if let Ok(targets) = targets_spec(root, directory, items) {
            let before = targets_spec(root, directory, rest)->Ok_0;
            assert forall|i: int| 0 <= i < items.len() implies !(
            #[trigger] items[i]).target_exists by {
                if i < rest.len() {
                    assert(items[i] == rest[i]);
                }
            }
            assert forall|i: int, j: int| 0 <= i < j < targets.len() implies !same_place(
                (#[trigger] targets[i]).target,
                (#[trigger] targets[j]).target,
            ) by {
                assert(targets[i] == before[i]);
                if j < before.len() {
                    assert(targets[j] == before[j]);
                } else {
                    assert(!taken(before, targets[j].target));
                }
            }
        }
    }
}

/// An upload has at most twenty-five mebibytes.
pub proof fn law_uploads_are_bounded()
    ensures
        MAX_UPLOAD_BYTES == 25 * 1024 * 1024,
{
}

/// A request carries its files in parts exactly if its type says so, whatever parameters follow.
pub proof fn law_parts_are_told_by_the_type(
    fields: Seq<(Seq<char>, Seq<u8>)>,
    value: Seq<char>,
    parameters: Seq<char>,
)
    ensures
        header_text(fields, "content-type"@) == Some("multipart/form-data"@ + parameters)
            ==> multipart(fields),
        header_text(fields, "content-type"@) is None ==> !multipart(fields),
        header_text(fields, "content-type"@) == Some(value) && multipart(fields) ==> exists|
            rest: Seq<char>,
        |
            value == #[trigger] ("multipart/form-data"@ + rest),
{
    let kind = "multipart/form-data"@;
    assert((kind + parameters).subrange(0, kind.len() as int) =~= kind);
    if kind.is_prefix_of(value) {
        assert(value =~= kind + value.skip(kind.len() as int));
    }
}

/// An uploaded file lies in the directory that was named, whatever slashes stand around that, or
/// in the project itself if none was.
pub proof fn law_upload_lies_in_its_directory(
    before: Seq<char>,
    directory: Seq<char>,
    after: Seq<char>,
    name: Seq<char>,
)
    requires
        forall|i: int| 0 <= i < before.len() ==> #[trigger] before[i] == '/',
        forall|i: int| 0 <= i < after.len() ==> #[trigger] after[i] == '/',
        directory.len() > 0 && directory[0] != '/' && directory.last() != '/',
        !white_space(directory[0]),
    ensures
        upload_path(before + directory + after, name) == directory + "/"@ + name,
        upload_path(seq![], name) == name,
        upload_path(seq![' '], name) == name,
{
    let set = CharSet::One('/');
    let whole = before + directory + after;
    assert(whole =~= before + (directory + after));
    lemma_trim_start(before, directory + after, set);
    lemma_trim_end(directory, after, set);
    law_blank_text_is_white_space(whole);
    law_blank_text_is_white_space(seq![]);
    law_blank_text_is_white_space(seq![' ']);
    assert(whole[before.len() as int] == directory[0]);
}

/// One more file is uploaded exactly if its name may be one, its path is granted, and neither the
/// file system nor a file before it has taken the place.
pub proof fn law_one_more_file_is_uploaded(
    root: Seq<char>,
    directory: Seq<char>,
    before: Seq<TargetView>,
    item: UploadView,
)
    ensures
        ({
            let relative = upload_path(directory, item.name);
            let path = safe_path_spec(
                root,
                relative,
                false,
                item.links,
                item.exists,
                item.canonical,
            );
            match target_spec(root, directory, before, item) {
                Ok(target) => {
                    &&& upload_name(item.name)
                    &&& path == Ok::<Seq<char>, ErrorView>(target.target)
                    &&& target.relative == relative
                    &&& !item.target_exists
                    &&& forall|i: int|
                        0 <= i < before.len() ==> !same_place(
                            (#[trigger] before[i]).target,
                            target.target,
                        )
                },
                Err(error) => {
                    ||| error.status == 400 && !upload_name(item.name)
                    ||| path == Err::<Seq<char>, ErrorView>(error)
                    ||| error.status == 409 && error.code == "FILE_EXISTS"@ && (item.target_exists
                        || exists|i: int|
                        0 <= i < before.len() && same_place(
                            (#[trigger] before[i]).target,
                            path->Ok_0,
                        ))
                },
            }
        }),
{
}

/// Files are uploaded one after the other, and the first that may not be decides for all; an
/// upload without files is refused.
pub proof fn law_files_are_uploaded_together(
    root: Seq<char>,
    directory: Seq<char>,
    items: Seq<UploadView>,
    item: UploadView,
)
    ensures
        upload_spec(root, directory, seq![]) matches Err(error) && error.status == 400 && error.code
            == "FILES_REQUIRED"@,
        upload_spec(root, directory, seq![item]) is Ok <==> target_spec(
            root,
            directory,
            seq![],
            item,
        ) is Ok,
        items.len() > 0 ==> match upload_spec(root, directory, items) {
            Ok(before) => match target_spec(root, directory, before, item) {
                Ok(target) => upload_spec(root, directory, items.push(item)) == Ok::<
                    Seq<TargetView>,
                    ErrorView,
                >(before.push(target)),
                Err(error) => upload_spec(root, directory, items.push(item)) == Err::<
                    Seq<TargetView>,
                    ErrorView,
                >(error),
            },
            Err(error) => upload_spec(root, directory, items.push(item)) == Err::<
                Seq<TargetView>,
                ErrorView,
            >(error),
        },
{
    assert(items.push(item).drop_last() =~= items);
    assert(seq![item].drop_last() =~= seq![]);
    assert(targets_spec(root, directory, seq![]) == Ok::<Seq<TargetView>, ErrorView>(seq![]));
}

/// Contracts speak of whole values: every part of a value is in its view, in its place, and nothing
/// else is.
pub proof fn law_views_of_uploads_are_whole(
    item: UploadItem,
    target: UploadTarget,
    items: Seq<UploadItem>,
    targets: Seq<UploadTarget>,
    planned: Result<Vec<UploadTarget>, ApiError>,
)
    ensures
        item@.name == item.name@,
        item@.links == item.facts.links@,
        item@.exists == item.facts.exists@,
        item@.canonical == resolved(item.facts.canonical),
        item@.target_exists == item.target_exists,
        target@.target == target.target@,
        target@.relative == target.relative@,
        upload_views(items).len() == items.len(),
        forall|i: int|
            0 <= i < items.len() ==> #[trigger] upload_views(items)[i] == items[i]@,
        target_views(targets).len() == targets.len(),
        forall|i: int|
            0 <= i < targets.len() ==> #[trigger] target_views(targets)[i] == targets[i]@,
        match planned {
            Ok(all) => targets_outcome(planned) matches Ok(shown) && shown == target_views(all@),
            Err(error) => targets_outcome(planned) matches Err(shown) && shown == error@,
        },
{
}

} // verus!
