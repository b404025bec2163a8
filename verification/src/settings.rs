//! The settings of the server: patching them, and showing them without their secrets.

use vstd::prelude::*;

use crate::error::{ApiError, ErrorView, optional, outcome, plain_error};
use crate::json::{
    Json, JsonObject, JsonView, copy_json, get_text, lemma_list_view, lemma_view, list_view, member,
    text_member,
};
use crate::text::{
    chars_of, contains, contains_spec, is_blank, law_blank_text_is_white_space, lower_ascii,
    lower_ascii_spec, lower_char, trimmed, white_space,
};

verus! {

/// `target` after a merge patch: members of the patch replace or extend those of the target,
/// objects are merged member by member, and a null member takes the target's member away.
pub open spec fn merged(target: JsonView, patch: JsonView) -> JsonView
    decreases patch,
{
    match (target, patch) {
        (JsonView::Object(old), JsonView::Object(new)) => JsonView::Object(
            Map::new(
                |key: Seq<char>|
                    if new.contains_key(key) {
                        new[key] != JsonView::Null
                    } else {
                        old.contains_key(key)
                    },
                |key: Seq<char>|
                    if new.contains_key(key) {
                        merged(
                            if old.contains_key(key) {
                                old[key]
                            } else {
                                JsonView::Null
                            },
                            new[key],
                        )
                    } else {
                        old[key]
                    },
            ),
        ),
        _ => patch,
    }
}

/// Applies a merge patch to `target`.
pub fn merge_json(target: &mut Json, patch: &Json)
    ensures
        final(target)@ == merged(old(target)@, patch@),
    decreases patch,
{
    proof {
        lemma_view(*target);
        lemma_view(*patch);
    }
    let mut current = Json::Null;
    std::mem::swap(&mut current, target);
    match (current, patch) {
        (Json::Object(mut old), Json::Object(new)) => {
            merge_object(&mut old, new);
            *target = Json::Object(old);
            proof {
                lemma_view(*target);
            }
        },
        _ => {
            *target = copy_json(patch);
        },
    }
}

/// The members of an object after a merge patch, where only the members of the patch with
/// the given keys count.
spec fn merged_members(
    old: Map<Seq<char>, JsonView>,
    new: Map<Seq<char>, JsonView>,
    keys: Seq<Seq<char>>,
) -> Map<Seq<char>, JsonView> {
    Map::new(
        |key: Seq<char>|
            if keys.contains(key) {
                new[key] != JsonView::Null
            } else {
                old.contains_key(key)
            },
        |key: Seq<char>|
            if keys.contains(key) {
                merged(
                    if old.contains_key(key) {
                        old[key]
                    } else {
                        JsonView::Null
                    },
                    new[key],
                )
            } else {
                old[key]
            },
    )
}

/// Applies a merge patch to the members of an object.
fn merge_object(target: &mut JsonObject, patch: &JsonObject)
    ensures
        JsonView::Object(final(target)@) == merged(
            JsonView::Object(old(target)@),
            JsonView::Object(patch@),
        ),
    decreases patch,
{
    let ghost old_members = target@;
    let ghost new_members = patch@;
    let ghost keys = patch.keys();
    let n: usize = patch.len();
    let mut i: usize = 0;
    assert(target@ =~= merged_members(old_members, new_members, keys.take(0)));
    while i < n
        invariant
            i <= n == keys.len(),
            keys == patch.keys(),
            new_members == patch@,
            keys.no_duplicates(),
            target@ == merged_members(old_members, new_members, keys.take(i as int)),
        decreases n - i,
    {
        let key = patch.key_at(i);
        let value = patch.value_at(i);
        let ghost before = target@;
        proof {
            assert forall|k: Seq<char>| #[trigger]
                keys.take(i + 1).contains(k) <==> keys.take(i as int).contains(k) || k == key@ by {
                if keys.take(i as int).contains(k) {
                    let j = keys.take(i as int).index_of(k);
                    assert(keys.take(i + 1)[j] == k);
                }
                if keys.take(i + 1).contains(k) && k != key@ {
                    let j = keys.take(i + 1).index_of(k);
                    assert(keys.take(i as int)[j] == k);
                }
                assert(keys.take(i + 1)[i as int] == key@);
            }
            assert(!keys.take(i as int).contains(key@));
        }
        let slot = target.take(key.as_str());
        proof {
            lemma_view(*value);
            lemma_view(Json::Null);
        }
        if let Json::Null = value {
            assert(target@ =~= merged_members(old_members, new_members, keys.take(i + 1)));
        } else {
            let mut merging = match slot {
                Some(found) => found,
                None => Json::Null,
            };
            merge_json(&mut merging, value);
            target.set(key.clone(), merging);
            assert(target@ =~= merged_members(old_members, new_members, keys.take(i + 1)));
        }
        i += 1;
    }
    proof {
        assert(keys.take(i as int) =~= keys);
        let whole = merged(JsonView::Object(old_members), JsonView::Object(new_members));
        assert(whole is Object);
        assert(target@ =~= whole->Object_0);
    }
}

/// What is left of a key when hyphens and underscores are dropped, in lower case.
pub open spec fn plain_key(key: Seq<char>) -> Seq<char> {
    lower_ascii_spec(key.filter(|c: char| c != '_' && c != '-'))
}

/// Whether a key names a secret: hyphens, underscores and case aside, it contains `apikey`,
/// `token`, `secret`, `password` or `credential`.
pub open spec fn sensitive(key: Seq<char>) -> bool {
    let plain = plain_key(key);
    ||| contains_spec(plain, "apikey"@)
    ||| contains_spec(plain, "token"@)
    ||| contains_spec(plain, "secret"@)
    ||| contains_spec(plain, "password"@)
    ||| contains_spec(plain, "credential"@)
}

/// Decides [`sensitive`].
pub fn is_sensitive_key(key: &str) -> (r: bool)
    ensures
        r == sensitive(key@),
{
    let chars = chars_of(key);
    let ghost keep = |c: char| c != '_' && c != '-';
    let mut kept: Vec<char> = Vec::new();
    let mut i: usize = 0;
    proof {
        reveal(Seq::filter);
        assert(chars@.take(0).filter(keep) =~= Seq::<char>::empty());
    }
    while i < chars.len()
        invariant
            i <= chars@.len(),
            keep == (|c: char| c != '_' && c != '-'),
            kept@ == chars@.take(i as int).filter(keep),
        decreases chars@.len() - i,
    {
        let c = chars[i];
        proof {
            reveal(Seq::filter);
            assert(chars@.take(i + 1).drop_last() =~= chars@.take(i as int));
            assert(chars@.take(i + 1).last() == c);
        }
        if c != '_' && c != '-' {
            kept.push(c);
        }
        i += 1;
    }
    assert(chars@.take(i as int) =~= chars@);
    let plain = lower_ascii(kept.as_slice());
    contains(plain.as_slice(), chars_of("apikey").as_slice()) || contains(
        plain.as_slice(),
        chars_of("token").as_slice(),
    ) || contains(plain.as_slice(), chars_of("secret").as_slice()) || contains(
        plain.as_slice(),
        chars_of("password").as_slice(),
    ) || contains(plain.as_slice(), chars_of("credential").as_slice())
}

/// Whether a secret is there: it is neither null nor the empty text.
pub open spec fn configured(value: JsonView) -> bool {
    value != JsonView::Null && value != JsonView::Text(Seq::empty())
}

/// What is shown in place of a secret that is, or is not, configured.
pub open spec fn mark(present: bool) -> JsonView {
    JsonView::Object(map!["configured"@ => JsonView::Bool(present)])
}

/// What is shown in place of a secret.
pub open spec fn secret_mark(value: JsonView) -> JsonView {
    mark(configured(value))
}

/// `value` with every secret, at any depth, replaced by whether it is configured.
pub open spec fn redacted(value: JsonView) -> JsonView
    decreases value,
{
    match value {
        JsonView::List(items) => JsonView::List(
            Seq::new(
                items.len(),
                |i: int|
                    if 0 <= i < items.len() {
                        redacted(items[i])
                    } else {
                        JsonView::Null
                    },
            ),
        ),
        JsonView::Object(members) => JsonView::Object(
            Map::new(
                |key: Seq<char>| members.contains_key(key),
                |key: Seq<char>|
                    if !members.contains_key(key) || sensitive(key) {
                        secret_mark(members[key])
                    } else {
                        redacted(members[key])
                    },
            ),
        ),
        _ => value,
    }
}

/// Whether the secret is there.
fn is_configured(value: &Json) -> (r: bool)
    ensures
        r == configured(value@),
{
    proof {
        lemma_view(*value);
    }
    match value {
        Json::Null => false,
        Json::Text(text) => {
            let r = chars_of(text.as_str()).len() != 0;
            proof {
                if !r {
                    assert(text@ =~= Seq::<char>::empty());
                }
            }
            r
        },
        _ => true,
    }
}

/// What is shown in place of a secret.
fn mark_secret(value: &Json) -> (r: Json)
    ensures
        r@ == secret_mark(value@),
{
    let flag = Json::Bool(is_configured(value));
    proof {
        lemma_view(flag);
    }
    let mut object = JsonObject::new();
    object.set("configured".to_owned(), flag);
    let r = Json::Object(object);
    proof {
        lemma_view(r);
        assert(object@ =~= map!["configured"@ => JsonView::Bool(configured(value@))]);
    }
    r
}

/// Replaces every secret, at any depth, by whether it is configured.
pub fn redact_settings(value: &Json) -> (r: Json)
    ensures
        r@ == redacted(value@),
    decreases value,
{
    proof {
        lemma_view(*value);
    }
    match value {
        Json::List(items) => {
            let mut shown: Vec<Json> = Vec::new();
            let mut i: usize = 0;
            while i < items.len()
                invariant
                    i <= items@.len(),
                    shown@.len() == i,
                    decreases_to!(value => items),
                    forall|j: int| 0 <= j < i ==> (#[trigger] shown@[j])@ == redacted(items@[j]@),
                decreases items@.len() - i,
            {
                assert(decreases_to!(items => items@[i as int]));
                shown.push(redact_settings(&items[i]));
                i += 1;
            }
            let r = Json::List(shown);
            proof {
                lemma_list_view(items@);
                lemma_list_view(shown@);
                lemma_view(r);
                assert(list_view(shown@) =~= redacted(value@)->List_0);
            }
            r
        },
        Json::Object(object) => {
            let r = Json::Object(redact_object(object));
            proof {
                lemma_view(r);
            }
            r
        },
        _ => copy_json(value),
    }
}

/// Replaces every secret among the members, at any depth, by whether it is configured.
fn redact_object(object: &JsonObject) -> (r: JsonObject)
    ensures
        JsonView::Object(r@) == redacted(JsonView::Object(object@)),
    decreases object,
{
    let ghost whole = redacted(JsonView::Object(object@))->Object_0;
    let mut r = JsonObject::new();
    let n: usize = object.len();
    let mut i: usize = 0;
    while i < n
        invariant
            i <= n == object.keys().len(),
            whole == redacted(JsonView::Object(object@))->Object_0,
            object.keys().no_duplicates(),
            forall|key: Seq<char>| #[trigger]
                object@.contains_key(key) <==> object.keys().contains(key),
            forall|key: Seq<char>| #[trigger]
                r@.contains_key(key) <==> object.keys().take(i as int).contains(key),
            forall|key: Seq<char>| #[trigger] r@.contains_key(key) ==> r@[key] == whole[key],
        decreases n - i,
    {
        let key = object.key_at(i);
        let value = object.value_at(i);
        let shown = if is_sensitive_key(key.as_str()) {
            mark_secret(value)
        } else {
            redact_settings(value)
        };
        assert(whole.contains_key(key@));
        assert(shown@ == whole[key@]);
        r.set(key.clone(), shown);
        proof {
            let keys = object.keys();
            assert forall|k: Seq<char>| #[trigger]
                r@.contains_key(k) <==> keys.take(i + 1).contains(k) by {
                if keys.take(i as int).contains(k) {
                    let j = keys.take(i as int).index_of(k);
                    assert(keys.take(i + 1)[j] == k);
                }
                if keys.take(i + 1).contains(k) {
                    let j = keys.take(i + 1).index_of(k);
                    if j < i {
                        assert(keys.take(i as int)[j] == k);
                    }
                }
                assert(keys.take(i + 1)[i as int] == key@);
            }
        }
        i += 1;
    }
    proof {
        assert(object.keys().take(i as int) =~= object.keys());
        assert(r@ =~= whole);
    }
    r
}

/// The settings after a patch, or the refusal of a patch that is no object.
pub open spec fn patched(settings: JsonView, patch: JsonView) -> Result<JsonView, ErrorView> {
    if patch is Object {
        Ok(merged(settings, patch))
    } else {
        Err(plain_error(400, "INVALID_SETTINGS"@, "settings patch must be a JSON object"@))
    }
}

/// The settings after a patch.
pub fn patch_settings(settings: &Json, patch: &Json) -> (r: Result<Json, ApiError>)
    ensures
        outcome(r) == patched(settings@, patch@),
{
    if !patch.is_object() {
        return Err(
            ApiError::new(400, "INVALID_SETTINGS", "settings patch must be a JSON object"),
        );
    }
    let mut candidate = copy_json(settings);
    merge_json(&mut candidate, patch);
    Ok(candidate)
}

/// What the settings say about web chat under the key, unless it is blank.
pub open spec fn web_chat_spec(settings: JsonView, key: Seq<char>) -> Option<Seq<char>> {
    match member(settings, "webChat"@) {
        Some(chat) => match text_member(chat, key) {
            Some(text) => if trimmed(text).len() == 0 {
                None
            } else {
                Some(text)
            },
            None => None,
        },
        None => None,
    }
}

/// What the settings say about web chat under the key, unless it is blank.
pub fn web_chat_setting(settings: &Json, key: &str) -> (r: Option<String>)
    ensures
        optional(r) == web_chat_spec(settings@, key@),
{
    match settings.get("webChat") {
        Some(chat) => match get_text(chat, key) {
            Some(text) => if is_blank(text.as_str()) {
                None
            } else {
                Some(text)
            },
            None => None,
        },
        None => None,
    }
}

/// Whether, at any depth, a secret shows nothing but whether it is configured.
pub open spec fn without_secrets(value: JsonView) -> bool
    decreases value,
{
    match value {
        JsonView::List(items) => forall|i: int|
            0 <= i < items.len() ==> without_secrets(#[trigger] items[i]),
        JsonView::Object(members) => forall|key: Seq<char>| #[trigger]
            members.contains_key(key) ==> if sensitive(key) {
                exists|b: bool| members[key] == #[trigger] mark(b)
            } else {
                without_secrets(members[key])
            },
        _ => true,
    }
}

/// No secret leaves the server with the settings, at whatever depth it stands.
pub proof fn law_redaction_hides_secrets(value: JsonView)
    ensures
        without_secrets(redacted(value)),
    decreases value,
{
    match value {
        JsonView::List(items) => {
            let shown = redacted(value)->List_0;
            assert forall|i: int| 0 <= i < shown.len() implies without_secrets(
                #[trigger] shown[i],
            ) by {
                law_redaction_hides_secrets(items[i]);
            }
        },
        JsonView::Object(members) => {
            let shown = redacted(value)->Object_0;
            assert forall|key: Seq<char>| #[trigger] shown.contains_key(key) implies if sensitive(
                key,
            ) {
                exists|b: bool| shown[key] == #[trigger] mark(b)
            } else {
                without_secrets(shown[key])
            } by {
                if sensitive(key) {
                    assert(shown[key] == mark(configured(members[key])));
                } else {
                    law_redaction_hides_secrets(members[key]);
                }
            }
        },
        _ => {},
    }
}

/// Whether two values differ, at any depth, in nothing but secrets, and in those not in whether
/// they are configured.
pub open spec fn same_but_secrets(a: JsonView, b: JsonView) -> bool
    decreases a,
{
    match (a, b) {
        (JsonView::List(left), JsonView::List(right)) => {
            &&& left.len() == right.len()
            &&& forall|i: int|
                0 <= i < left.len() ==> same_but_secrets(#[trigger] left[i], right[i])
        },
        (JsonView::Object(left), JsonView::Object(right)) => {
            &&& left.dom() == right.dom()
            &&& forall|key: Seq<char>| #[trigger]
                left.contains_key(key) ==> if sensitive(key) {
                    configured(left[key]) == configured(right[key])
                } else {
                    same_but_secrets(left[key], right[key])
                }
        },
        _ => a == b,
    }
}

/// What is shown does not depend on a secret, at whatever depth it stands, beyond whether it is
/// configured.
pub proof fn law_redaction_ignores_secret_values(a: JsonView, b: JsonView)
    requires
        same_but_secrets(a, b),
    ensures
        redacted(a) == redacted(b),
    decreases a,
{
    match (a, b) {
        (JsonView::List(left), JsonView::List(right)) => {
            let shown = redacted(a)->List_0;
            let other = redacted(b)->List_0;
            assert forall|i: int| 0 <= i < shown.len() implies shown[i] == other[i] by {
                law_redaction_ignores_secret_values(left[i], right[i]);
            }
            assert(shown =~= other);
        },
        (JsonView::Object(left), JsonView::Object(right)) => {
            let shown = redacted(a)->Object_0;
            let other = redacted(b)->Object_0;
            assert forall|key: Seq<char>| shown.contains_key(key) == other.contains_key(key) by {
                assert(left.dom().contains(key) == right.dom().contains(key));
            }
            assert forall|key: Seq<char>| #[trigger] shown.contains_key(key) implies shown[key]
                == other[key] by {
                assert(left.contains_key(key) && right.contains_key(key));
                if !sensitive(key) {
                    law_redaction_ignores_secret_values(left[key], right[key]);
                }
            }
            assert(shown =~= other);
        },
        _ => {},
    }
}

/// Whether no member, at any depth of objects, is null.
pub open spec fn without_nulls(value: JsonView) -> bool
    decreases value,
{
    match value {
        JsonView::Object(members) => forall|key: Seq<char>| #[trigger]
            members.contains_key(key) ==> members[key] != JsonView::Null && without_nulls(
                members[key],
            ),
        _ => true,
    }
}

/// Whether the nulls of a patch stand only where the target has an object to take a member from.
pub open spec fn nulls_meet_objects(target: JsonView, patch: JsonView) -> bool
    decreases patch,
{
    match (target, patch) {
        (JsonView::Object(old), JsonView::Object(new)) => forall|key: Seq<char>| #[trigger]
            new.contains_key(key) ==> new[key] == JsonView::Null || nulls_meet_objects(
                if old.contains_key(key) {
                    old[key]
                } else {
                    JsonView::Null
                },
                new[key],
            ),
        _ => without_nulls(patch),
    }
}

/// A value patched with itself stays as it is exactly if it holds no null member.
proof fn lemma_merged_with_itself(value: JsonView)
    ensures
        merged(value, value) == value <==> without_nulls(value),
    decreases value,
{
    if let JsonView::Object(members) = value {
        let after = merged(value, value)->Object_0;
        assert forall|key: Seq<char>| #[trigger] members.contains_key(key) implies (
        after.contains_key(key) <==> members[key] != JsonView::Null) && (after.contains_key(key)
            ==> (after[key] == members[key] <==> without_nulls(members[key]))) by {
            lemma_merged_with_itself(members[key]);
        }
        if without_nulls(value) {
            assert(after =~= members);
        }
    }
}

/// A patch applied a second time changes nothing more, exactly if its nulls stand only where the
/// target has an object to take a member from: elsewhere they are kept, to take away next time.
pub proof fn law_patch_applied_twice(target: JsonView, patch: JsonView)
    ensures
        merged(merged(target, patch), patch) == merged(target, patch) <==> nulls_meet_objects(
            target,
            patch,
        ),
    decreases patch,
{
    match (target, patch) {
        (JsonView::Object(old), JsonView::Object(new)) => {
            let once = merged(target, patch)->Object_0;
            let twice = merged(merged(target, patch), patch)->Object_0;
            assert forall|key: Seq<char>| #[trigger] new.contains_key(key) implies {
                let before = if old.contains_key(key) {
                    old[key]
                } else {
                    JsonView::Null
                };
                &&& once.contains_key(key) <==> new[key] != JsonView::Null
                &&& twice.contains_key(key) <==> new[key] != JsonView::Null
                &&& once.contains_key(key) ==> (once[key] == twice[key] <==> nulls_meet_objects(
                    before,
                    new[key],
                ))
            } by {
                let before = if old.contains_key(key) {
                    old[key]
                } else {
                    JsonView::Null
                };
                law_patch_applied_twice(before, new[key]);
            }
            if nulls_meet_objects(target, patch) {
                assert(once =~= twice);
            }
        },
        _ => {
            lemma_merged_with_itself(patch);
        },
    }
}

/// A patch leaves the members that it does not name as they were, and takes away those
/// that it names with null.
pub proof fn law_patch_touches_only_its_members(
    old: Map<Seq<char>, JsonView>,
    new: Map<Seq<char>, JsonView>,
    key: Seq<char>,
)
    ensures
        !new.contains_key(key) ==> member(
            merged(JsonView::Object(old), JsonView::Object(new)),
            key,
        ) == member(JsonView::Object(old), key),
        new.contains_key(key) && new[key] == JsonView::Null ==> member(
            merged(JsonView::Object(old), JsonView::Object(new)),
            key,
        ) is None,
        new.contains_key(key) && !(new[key] is Null) && !(new[key] is Object) ==> member(
            merged(JsonView::Object(old), JsonView::Object(new)),
            key,
        ) == Some(new[key]),
{
    reveal_with_fuel(merged, 2);
}

/// The empty patch changes nothing.
pub proof fn law_empty_patch_changes_nothing(settings: Map<Seq<char>, JsonView>)
    ensures
        merged(JsonView::Object(settings), JsonView::Object(Map::empty())) == JsonView::Object(
            settings,
        ),
{
    assert(merged(
        JsonView::Object(settings),
        JsonView::Object(Map::empty()),
    )->Object_0 =~= settings);
}

/// A key names a secret exactly if one of five words stands in it. Hyphens and underscores, and
/// the case of letters, make no difference.
pub proof fn law_five_words_name_a_secret(a: Seq<char>, b: Seq<char>, other: Seq<char>)
    ensures
        (forall|i: int|
            0 <= i < a.len() ==> {
                let c = #[trigger] a[i];
                c != '-' && c != '_' && !('A' <= c <= 'Z')
            }) ==> (sensitive(a) <==> contains_spec(a, "apikey"@) || contains_spec(a, "token"@)
            || contains_spec(a, "secret"@) || contains_spec(a, "password"@) || contains_spec(
            a,
            "credential"@,
        )),
        sensitive(a + seq!['-'] + b) <==> sensitive(a + b),
        sensitive(a + seq!['_'] + b) <==> sensitive(a + b),
        sensitive(lower_ascii_spec(a)) <==> sensitive(a),
{
    broadcast use Seq::filter_distributes_over_add;

    let keep = |c: char| c != '_' && c != '-';
    if forall|i: int|
        0 <= i < a.len() ==> {
            let c = #[trigger] a[i];
            c != '-' && c != '_' && !('A' <= c <= 'Z')
        } {
        lemma_all_kept(a);
        assert(lower_ascii_spec(a) =~= a);
    }
    lemma_mark_dropped('-');
    lemma_mark_dropped('_');
    assert((a + seq!['-'] + b).filter(keep) =~= (a + b).filter(keep));
    assert((a + seq!['_'] + b).filter(keep) =~= (a + b).filter(keep));
    lemma_case_dropped(a);
}

/// A key without hyphens and underscores is kept as it is.
proof fn lemma_all_kept(key: Seq<char>)
    requires
        forall|i: int|
            0 <= i < key.len() ==> {
                let c = #[trigger] key[i];
                c != '-' && c != '_' && !('A' <= c <= 'Z')
            },
    ensures
        key.filter(|c: char| c != '_' && c != '-') == key,
    decreases key.len(),
{
    reveal(Seq::filter);
    if key.len() > 0 {
        let rest = key.drop_last();
        assert forall|i: int| 0 <= i < rest.len() implies {
            let c = #[trigger] rest[i];
            c != '-' && c != '_' && !('A' <= c <= 'Z')
        } by {
            let c = key[i];
        }
        lemma_all_kept(rest);
        let last = key[key.len() - 1];
        assert(rest.push(last) =~= key);
    } else {
        assert(key.filter(|c: char| c != '_' && c != '-') =~= key);
    }
}

/// Of a hyphen or an underscore nothing is left.
proof fn lemma_mark_dropped(c: char)
    requires
        c == '-' || c == '_',
    ensures
        seq![c].filter(|c: char| c != '_' && c != '-') == Seq::<char>::empty(),
{
    reveal(Seq::filter);
    let keep = |c: char| c != '_' && c != '-';
    let none = Seq::<char>::empty();
    assert(none.filter(keep) =~= none);
    assert(seq![c].drop_last() =~= none);
}

/// What is left of a key does not depend on its case.
proof fn lemma_case_dropped(key: Seq<char>)
    ensures
        plain_key(lower_ascii_spec(key)) == plain_key(key),
    decreases key.len(),
{
    reveal(Seq::filter);
    let lower = lower_ascii_spec(key);
    if key.len() > 0 {
        let rest = key.drop_last();
        lemma_case_dropped(rest);
        assert(lower.drop_last() =~= lower_ascii_spec(rest));
        let keep = |c: char| c != '_' && c != '-';
        let c = key.last();
        let d = lower.last();
        assert(d == lower_char(c) && lower_char(d) == d && keep(d) == keep(c));
        if keep(c) {
            let x = rest.filter(keep);
            let y = lower_ascii_spec(rest).filter(keep);
            assert(lower_ascii_spec(x.push(c)) =~= lower_ascii_spec(x).push(d));
            assert(lower_ascii_spec(y.push(d)) =~= lower_ascii_spec(y).push(d));
            assert(key.filter(keep) == x.push(c));
            assert(lower.filter(keep) == y.push(d));
        }
        assert(plain_key(lower) =~= plain_key(key));
    } else {
        assert(plain_key(lower) =~= plain_key(key));
    }
}

/// Settings are shown with all their members. In place of a secret stands whether it is there,
/// which it is unless it is null or empty; every other member is shown as it is, and so is every
/// item of a list.
pub proof fn law_all_but_secrets_is_shown(
    members: Map<Seq<char>, JsonView>,
    key: Seq<char>,
    items: Seq<JsonView>,
    i: int,
)
    requires
        members.contains_key(key),
        0 <= i < items.len(),
    ensures
        redacted(JsonView::Object(members)) matches JsonView::Object(shown) && {
            &&& shown.dom() == members.dom()
            &&& !sensitive(key) && !(members[key] is Object) && !(members[key] is List)
                ==> shown[key] == members[key]
            &&& !sensitive(key) ==> shown[key] == redacted(members[key])
            &&& sensitive(key) ==> (shown[key] matches JsonView::Object(mark) && mark.dom()
                == set!["configured"@] && (mark["configured"@] == JsonView::Bool(false)
                <==> members[key] is Null || members[key] == JsonView::Text(seq![])) && (
            mark["configured"@] == JsonView::Bool(true) <==> !(members[key] is Null)
                && members[key] != JsonView::Text(seq![])))
        },
        redacted(JsonView::List(items)) matches JsonView::List(shown) && shown.len() == items.len()
            && shown[i] == redacted(items[i]),
{
    reveal_with_fuel(redacted, 2);
    let shown = redacted(JsonView::Object(members))->Object_0;
    assert(shown.dom() =~= members.dom());
    if sensitive(key) {
        let mark = shown[key]->Object_0;
        assert(mark.dom() =~= set!["configured"@]);
    }
}

/// Two objects are merged member by member, at any depth; what is no object, or meets none, is
/// replaced.
pub proof fn law_objects_are_merged(
    old: Map<Seq<char>, JsonView>,
    new: Map<Seq<char>, JsonView>,
    key: Seq<char>,
    value: JsonView,
    patch: JsonView,
)
    requires
        new.contains_key(key) && !(new[key] is Null),
    ensures
        merged(JsonView::Object(old), JsonView::Object(new)) matches JsonView::Object(after) && {
            &&& after.contains_key(key)
            &&& old.contains_key(key) ==> after[key] == merged(old[key], new[key])
            &&& !old.contains_key(key) ==> after[key] == new[key]
        },
        !(value is Object) || !(patch is Object) ==> merged(value, patch) == patch,
{
    reveal_with_fuel(merged, 2);
}

/// Settings are patched by objects alone.
pub proof fn law_patch_must_be_an_object(settings: JsonView, patch: JsonView)
    ensures
        match patched(settings, patch) {
            Ok(after) => patch is Object && after == merged(settings, patch),
            Err(error) => !(patch is Object) && error.status == 400 && error.code
                == "INVALID_SETTINGS"@,
        },
{
}

/// A setting of the web chat is its text under the key, unless there is none or it is blank.
pub proof fn law_setting_of_the_chat(
    settings: Map<Seq<char>, JsonView>,
    chat: Map<Seq<char>, JsonView>,
    key: Seq<char>,
    text: Seq<char>,
)
    requires
        settings.contains_key("webChat"@) && settings["webChat"@] == JsonView::Object(chat),
    ensures
        chat.contains_key(key) && chat[key] == JsonView::Text(text) ==> web_chat_spec(
            JsonView::Object(settings),
            key,
        ) == if exists|i: int| 0 <= i < text.len() && !white_space(#[trigger] text[i]) {
            Some(text)
        } else {
            None
        },
        !chat.contains_key(key) ==> web_chat_spec(JsonView::Object(settings), key) is None,
        web_chat_spec(JsonView::Object(settings.remove("webChat"@)), key) is None,
{
    law_blank_text_is_white_space(text);
}

} // verus!
