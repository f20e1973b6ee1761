use vstd::prelude::*;

verus! {

/// A fresh random identifier. Calls `uuid::Uuid::new_v4` and formats it with
/// its `Display` impl, which writes the hyphenated lower-case form: 36
/// characters, with hyphens at positions 8, 13, 18 and 23. Which identifier
/// comes out is left unsaid: it is random.
#[verifier::external_body]
pub(crate) fn new_id() -> (id: String)
    ensures
        id@.len() == 36,
        id@[8] == '-',
        id@[13] == '-',
        id@[18] == '-',
        id@[23] == '-',
{
    uuid::Uuid::new_v4().to_string()
}

} // verus!
