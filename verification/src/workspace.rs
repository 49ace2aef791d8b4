//! The active workspace, as Hyprland reports it.
use crate::manifest::pairs_map;
use crate::text::{opt_text, same_text};
use vstd::prelude::*;

verus! {

/// The request for the active workspace, in JSON.
pub const ACTIVE_WORKSPACE_REQUEST: &'static str = "j/activeworkspace";

/// The object that a JSON text holds, with the string of each member that is one;
/// none where the text is no JSON or no object.
pub uninterp spec fn json_object(text: Seq<char>) -> Option<Map<Seq<char>, Option<Seq<char>>>>;

/// The contents of the members of an object.
pub open spec fn members(v: Seq<(String, Option<String>)>) -> Seq<(Seq<char>, Option<Seq<char>>)> {
    v.map_values(|m: (String, Option<String>)| (m.0@, opt_text(m.1)))
}

/// Calls `serde_json::from_str` for a JSON value and hands out the members of an
/// object, each with its string if it is one. The contract claims that they
/// depend on the text alone.
#[verifier::external_body]
fn parse_object(text: &str) -> (r: Option<Vec<(String, Option<String>)>>)
    ensures
        match r {
            Some(v) => json_object(text@) == Some(pairs_map(members(v@))),
            None => json_object(text@) is None,
        },
{
    let string_of = |value| match value {
        serde_json::Value::String(s) => Some(s),
        _ => None,
    };
    match serde_json::from_str::<serde_json::Value>(text) {
        Ok(serde_json::Value::Object(m)) => Some(
            m.into_iter().map(|(k, v)| (k, string_of(v))).collect(),
        ),
        _ => None,
    }
}

/// The name in the object that describes a workspace: its member `name`, if that
/// is a string.
pub open spec fn name_in(object: Option<Map<Seq<char>, Option<Seq<char>>>>) -> Option<Seq<char>> {
    match object {
        Some(m) => if m.contains_key("name"@) {
            m["name"@]
        } else {
            None
        },
        None => None,
    }
}

/// The name among the members of an object, if the text held one.
pub fn workspace_name(object: Option<Vec<(String, Option<String>)>>) -> (r: Option<String>)
    ensures
        opt_text(r) == name_in(
            match object {
                Some(v) => Some(pairs_map(members(v@))),
                None => None,
            },
        ),
{
    let v = match object {
        Some(v) => v,
        None => {
            return None;
        },
    };
    let ghost all = members(v@);
    let mut name: Option<String> = None;
    let mut i: usize = 0;
    proof {
        assert(all.take(0) =~= seq![]);
    }
    while i < v.len()
        invariant
            i <= v.len(),
            all == members(v@),
            opt_text(name) == name_in(Some(pairs_map(all.take(i as int)))),
        decreases v.len() - i,
    {
        proof {
            let upto = all.take(i + 1);
            assert(upto.drop_last() =~= all.take(i as int));
            assert(upto.last() == all[i as int]);
        }
        if same_text(v[i].0.as_str(), "name") {
            name = match &v[i].1 {
                Some(s) => Some(s.clone()),
                None => None,
            };
        }
        i = i + 1;
    }
    proof {
        assert(all.take(i as int) =~= all);
    }
    name
}

/// The name of the active workspace, from the answer to the request for it.
pub fn get_active_workspace(response: &str) -> (r: Option<String>)
    ensures
        opt_text(r) == name_in(json_object(response@)),
{
    workspace_name(parse_object(response))
}

/// The name of a workspace is the string of the member `name`, whatever other
/// members there are; without such a member, or where it is no string, there is
/// none.
pub proof fn law_workspace_is_named_by_its_member(
    object: Map<Seq<char>, Option<Seq<char>>>,
    name: Seq<char>,
)
    ensures
        name_in(Some(object.insert("name"@, Some(name)))) == Some(name),
        name_in(Some(object.insert("name"@, None))) is None,
        name_in(Some(object.remove("name"@))) is None,
        name_in(None) is None,
{
}

/// The members of an object are what each pair holds.
pub proof fn law_members_one_by_one(v: Seq<(String, Option<String>)>)
    ensures
        members(v).len() == v.len(),
        forall|k: int|
            0 <= k < v.len() ==> (#[trigger] members(v)[k]).0 == v[k].0@ && members(v)[k].1 == (
            match v[k].1 {
                Some(s) => Some(s@),
                None => None,
            }),
{
}

}
