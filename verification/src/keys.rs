//! External string form of a group key, as used by the previous-sets
//! mapping of the bootstrap response: `"{exercise_id}_{profile_id}"` for a
//! concrete profile, `"{exercise_id}_default"` for the default variant.

use vstd::prelude::*;
use vstd::string::StringExecFns;

use crate::records::GroupKey;

verus! {

/// The hyphenated text form of the UUID whose numeric value is `id`, as
/// the `uuid` crate renders it.
pub uninterp spec fn uuid_str_of(id: u128) -> Seq<char>;

/// Relies on `uuid::Uuid::to_string` (through `Display`): the hyphenated
/// lowercase form of the UUID, 36 characters, a function of the id's value
/// alone. `uuid::Uuid::from_u128` only rebuilds the `Uuid` from its
/// numeric value.
#[verifier::external_body]
fn uuid_string(id: u128) -> (r: String)
    ensures
        r@ == uuid_str_of(id),
        r@.len() == 36,
{
    uuid::Uuid::from_u128(id).to_string()
}

/// The string form of a group key: the exercise UUID, an underscore, then
/// the profile UUID or the word `default`.
pub open spec fn key_string_of(k: GroupKey) -> Seq<char> {
    match k.profile_id {
        Some(p) => uuid_str_of(k.exercise_id) + "_"@ + uuid_str_of(p),
        None => uuid_str_of(k.exercise_id) + "_default"@,
    }
}

/// Render a group key as the external map key of the previous-sets
/// mapping.
pub fn render_group_key(k: &GroupKey) -> (r: String)
    ensures
        r@ == key_string_of(*k),
{
    let mut s = uuid_string(k.exercise_id);
    match k.profile_id {
        Some(p) => {
            s.append("_");
            let ps = uuid_string(p);
            s.append(ps.as_str());
            proof {
                assert(s@ =~= uuid_str_of(k.exercise_id) + "_"@ + uuid_str_of(p));
            }
        },
        None => {
            s.append("_default");
        },
    }
    s
}

} // verus!
