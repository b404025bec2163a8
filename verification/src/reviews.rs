//! The reviews of a project.

use vstd::prelude::*;

use crate::error::{ApiError, ErrorView, plain_error};
use crate::json::{
    Json, JsonObject, JsonView, copy_json, copy_object, get_text, lemma_list_view, lemma_view,
    list_view, member, text_member,
};
use crate::paths::{IoFailure, IoKind, io_error, io_error_spec};
use crate::text::same;

verus! {

/// The answer when there is no such review.
pub open spec fn review_not_found_spec() -> ErrorView {
    plain_error(404, "REVIEW_NOT_FOUND"@, "review not found"@)
}

/// The place of the first review under an identifier.
pub open spec fn review_place(reviews: Seq<JsonView>, id: Seq<char>) -> Option<int>
    decreases reviews.len(),
{
    if reviews.len() == 0 {
        None
    } else if text_member(reviews[0], "id"@) == Some(id) {
        Some(0)
    } else {
        match review_place(reviews.drop_first(), id) {
            Some(i) => Some(i + 1),
            None => None,
        }
    }
}

/// The members of a review after one of them was changed, if a patch holds it.
pub open spec fn patched_member(
    review: Map<Seq<char>, JsonView>,
    patch: Map<Seq<char>, JsonView>,
    key: Seq<char>,
) -> Map<Seq<char>, JsonView> {
    if patch.contains_key(key) {
        review.insert(key, patch[key])
    } else {
        review
    }
}

/// The members of a review after the five that may be changed were.
pub open spec fn patched_members(
    review: Map<Seq<char>, JsonView>,
    patch: Map<Seq<char>, JsonView>,
) -> Map<Seq<char>, JsonView> {
    let a = patched_member(review, patch, "status"@);
    let b = patched_member(a, patch, "action"@);
    let c = patched_member(b, patch, "resolved"@);
    let d = patched_member(c, patch, "resolution"@);
    patched_member(d, patch, "notes"@)
}

/// The members of a review after a patch: a status says whether it is resolved.
pub open spec fn reviewed_members(
    review: Map<Seq<char>, JsonView>,
    patch: Map<Seq<char>, JsonView>,
) -> Map<Seq<char>, JsonView> {
    let members = patched_members(review, patch);
    match text_member(JsonView::Object(patch), "status"@) {
        Some(status) => members.insert("resolved"@, JsonView::Bool(status == "resolved"@)),
        None => members,
    }
}

/// A review after a patch.
pub open spec fn reviewed(review: JsonView, patch: JsonView) -> JsonView {
    if review is Object && patch is Object {
        JsonView::Object(reviewed_members(review->Object_0, patch->Object_0))
    } else {
        review
    }
}

/// The reviews after one of them was patched, and that review.
pub open spec fn review_spec(reviews: Seq<JsonView>, id: Seq<char>, patch: JsonView) -> Result<
    (Seq<JsonView>, JsonView),
    ErrorView,
> {
    match review_place(reviews, id) {
        None => Err(review_not_found_spec()),
        Some(i) => Ok((reviews.update(i, reviewed(reviews[i], patch)), reviewed(reviews[i], patch))),
    }
}

/// The view of reviews and one of them.
pub open spec fn review_outcome(r: Result<(Vec<Json>, Json), ApiError>) -> Result<
    (Seq<JsonView>, JsonView),
    ErrorView,
> {
    match r {
        Ok(change) => Ok((list_view(change.0@), change.1@)),
        Err(error) => Err(error@),
    }
}

/// Changes a member, if a patch holds it.
fn patch_member(review: &mut JsonObject, patch: &JsonObject, key: &str)
    ensures
        final(review)@ == patched_member(old(review)@, patch@, key@),
{
    if let Some(value) = patch.get(key) {
        review.set(key.to_owned(), copy_json(value));
    }
}

/// A review after a patch.
pub fn patch_review(review: &Json, patch: &Json) -> (r: Json)
    ensures
        r@ == reviewed(review@, patch@),
{
    proof {
        lemma_view(*review);
        lemma_view(*patch);
    }
    match (review, patch) {
        (Json::Object(target), Json::Object(source)) => {
            let mut members = copy_object(target);
            patch_member(&mut members, source, "status");
            patch_member(&mut members, source, "action");
            patch_member(&mut members, source, "resolved");
            patch_member(&mut members, source, "resolution");
            patch_member(&mut members, source, "notes");
            if let Some(status) = get_text(patch, "status") {
                let resolved = Json::Bool(same(status.as_str(), "resolved"));
                proof {
                    lemma_view(resolved);
                }
                members.set("resolved".to_owned(), resolved);
            }
            let r = Json::Object(members);
            proof {
                lemma_view(r);
            }
            r
        },
        _ => copy_json(review),
    }
}

/// The reviews after one of them was patched, and that review.
#[verifier::loop_isolation(false)]
pub fn update_review(reviews: Vec<Json>, id: &str, patch: &Json) -> (r: Result<
    (Vec<Json>, Json),
    ApiError,
>)
    ensures
        review_outcome(r) == review_spec(list_view(reviews@), id@, patch@),
{
    let ghost all = list_view(reviews@);
    proof {
        lemma_list_view(reviews@);
    }
    let mut reviews = reviews;
    let mut i: usize = 0;
    assert(all.skip(0) =~= all);
    while i < reviews.len()
        invariant
            i <= reviews@.len(),
            all == list_view(reviews@),
            all == Seq::new(reviews@.len(), |j: int| reviews@[j]@),
            review_place(all, id@) == match review_place(all.skip(i as int), id@) {
                Some(j) => Some(j + i),
                None => None::<int>,
            },
        decreases reviews@.len() - i,
    {
        proof {
            assert(all.skip(i as int)[0] == reviews@[i as int]@);
            assert(all.skip(i as int).drop_first() =~= all.skip(i + 1));
        }
        let found = match get_text(&reviews[i], "id") {
            Some(text) => same(text.as_str(), id),
            None => false,
        };
        if found {
            assert(review_place(all, id@) == Some(i as int));
            let changed = patch_review(&reviews[i], patch);
            let result = copy_json(&changed);
            reviews.set(i, changed);
            proof {
                lemma_list_view(reviews@);
                assert(list_view(reviews@) =~= all.update(i as int, changed@));
            }
            return Ok((reviews, result));
        }
        i += 1;
    }
    Err(ApiError::new(404, "REVIEW_NOT_FOUND", "review not found"))
}

/// The reviews of a project whose file cannot be read: none if there is no such file.
pub fn unread_reviews(failure: &IoFailure) -> (r: Result<Vec<Json>, ApiError>)
    ensures
        match r {
            Ok(reviews) => failure.kind is NotFound && reviews@.len() == 0,
            Err(error) => !(failure.kind is NotFound) && error@ == io_error_spec(failure@),
        },
{
    match failure.kind {
        IoKind::NotFound => Ok(Vec::new()),
        _ => Err(io_error(failure)),
    }
}

/// The answer to a file of reviews that holds something else.
pub fn invalid_review_state(message: &str) -> (e: ApiError)
    ensures
        e@ == plain_error(500, "INVALID_REVIEW_STATE"@, message@),
{
    ApiError::new(500, "INVALID_REVIEW_STATE", message)
}

/// The place of a review is that of a review.
proof fn lemma_review_place(reviews: Seq<JsonView>, id: Seq<char>)
    ensures
        review_place(reviews, id) matches Some(i) ==> 0 <= i < reviews.len() && text_member(
            reviews[i],
            "id"@,
        ) == Some(id),
    decreases reviews.len(),
{
    if reviews.len() > 0 && text_member(reviews[0], "id"@) != Some(id) {
        lemma_review_place(reviews.drop_first(), id);
    }
}

/// A patch touches one review, and there only the five members that may be changed.
pub proof fn law_patch_touches_one_review(
    reviews: Seq<JsonView>,
    id: Seq<char>,
    patch: JsonView,
    key: Seq<char>,
)
    requires
        key != "status"@,
        key != "action"@,
        key != "resolved"@,
        key != "resolution"@,
        key != "notes"@,
    ensures
        review_spec(reviews, id, patch) matches Ok((after, review)) ==> {
            &&& review_place(reviews, id) matches Some(at) && after.len() == reviews.len()
                && after[at] == review && (forall|i: int|
                0 <= i < reviews.len() && i != at ==> #[trigger] after[i] == reviews[i])
                && member(review, key) == member(reviews[at], key)
        },
{
    lemma_review_place(reviews, id);
}

/// A status in a patch decides whether the review is resolved, whatever else it says.
pub proof fn law_status_decides_resolved(
    review: Map<Seq<char>, JsonView>,
    patch: Map<Seq<char>, JsonView>,
    status: Seq<char>,
)
    requires
        patch.contains_key("status"@),
        patch["status"@] == JsonView::Text(status),
    ensures
        reviewed_members(review, patch).contains_key("resolved"@),
        reviewed_members(review, patch)["resolved"@] == JsonView::Bool(status == "resolved"@),
{
}

/// What a patch holds under a key that may be changed is what the review holds there afterwards,
/// whatever it held before; what the patch does not hold stays. Only whether the review is
/// resolved follows from a status in the patch.
pub proof fn law_patch_is_taken_over(
    reviews: Seq<JsonView>,
    id: Seq<char>,
    patch: Map<Seq<char>, JsonView>,
    key: Seq<char>,
    at: int,
    before: Map<Seq<char>, JsonView>,
)
    requires
        0 <= at < reviews.len(),
        reviews[at] == JsonView::Object(before),
        before.contains_key("id"@),
        before["id"@] == JsonView::Text(id),
        forall|i: int| 0 <= i < at ==> member(#[trigger] reviews[i], "id"@) != Some(
            JsonView::Text(id),
        ),
        key == "status"@ || key == "action"@ || key == "resolution"@ || key == "notes"@ || (key
            == "resolved"@ && !(patch.contains_key("status"@) && patch["status"@] is Text)),
    ensures
        review_spec(reviews, id, JsonView::Object(patch)) matches Ok((after, review)) && {
            &&& after == reviews.update(at, review)
            &&& review matches JsonView::Object(members) && {
                &&& members.contains_key(key) <==> patch.contains_key(key) || before.contains_key(
                    key,
                )
                &&& patch.contains_key(key) ==> members[key] == patch[key]
                &&& !patch.contains_key(key) && before.contains_key(key) ==> members[key]
                    == before[key]
            }
        },
{
    reveal_strlit("status");
    reveal_strlit("action");
    reveal_strlit("resolved");
    reveal_strlit("resolution");
    reveal_strlit("notes");
    assert("status"@[0] == 's' && "action"@[0] == 'a');
    assert("notes"@.len() == 5 && "resolution"@.len() == 10 && "resolved"@.len() == 8);
    lemma_review_place(reviews, id);
    lemma_first_review(reviews, id, at);
}

/// The first review under an identifier is the one that is found.
proof fn lemma_first_review(reviews: Seq<JsonView>, id: Seq<char>, at: int)
    requires
        0 <= at < reviews.len(),
        member(reviews[at], "id"@) == Some(JsonView::Text(id)),
        forall|i: int| 0 <= i < at ==> member(#[trigger] reviews[i], "id"@) != Some(
            JsonView::Text(id),
        ),
    ensures
        review_place(reviews, id) == Some(at),
    decreases reviews.len(),
{
    if at > 0 {
        let rest = reviews.drop_first();
        assert(member(reviews[0], "id"@) != Some(JsonView::Text(id)));
        assert forall|i: int| 0 <= i < at - 1 implies member(#[trigger] rest[i], "id"@) != Some(
            JsonView::Text(id),
        ) by {
            assert(rest[i] == reviews[i + 1]);
        }
        lemma_first_review(rest, id, at - 1);
    }
}

/// A review that is not there is not found, and every other is.
pub proof fn law_missing_review_is_told(reviews: Seq<JsonView>, id: Seq<char>, patch: JsonView)
    ensures
        review_spec(reviews, id, patch) is Ok <==> exists|i: int|
            0 <= i < reviews.len() && member(#[trigger] reviews[i], "id"@) == Some(
                JsonView::Text(id),
            ),
        review_spec(reviews, id, patch) matches Err(error) ==> error.status == 404 && error.code
            == "REVIEW_NOT_FOUND"@,
    decreases reviews.len(),
{
    lemma_review_place(reviews, id);
    if reviews.len() > 0 && review_place(reviews, id) is None {
        let rest = reviews.drop_first();
        law_missing_review_is_told(rest, id, patch);
        assert forall|i: int| 0 <= i < reviews.len() implies member(
            #[trigger] reviews[i],
            "id"@,
        ) != Some(JsonView::Text(id)) by {
            if i > 0 {
                assert(rest[i - 1] == reviews[i]);
            }
        }
    }
    if let Some(i) = review_place(reviews, id) {
        assert(member(reviews[i], "id"@) == Some(JsonView::Text(id)));
    }
}

/// Contracts speak of whole values: every part of a value is in its view, in its place, and nothing
/// else is.
pub proof fn law_views_of_reviews_are_whole(
    changed: Result<(Vec<Json>, Json), ApiError>,
)
    ensures
        match changed {
            Ok((all, one)) => review_outcome(changed) matches Ok((shown, told)) && shown
                == list_view(all@) && told == one@,
            Err(error) => review_outcome(changed) matches Err(shown) && shown == error@,
        },
{
}

} // verus!
