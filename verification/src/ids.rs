//! Identifiers for events, sessions and links.
use vstd::prelude::*;

verus! {

/// A UUID of a version as it is written: 36 characters, hyphens in four places and
/// lower-case hexadecimal digits everywhere else. One digit is that of the version, and one
/// tells the layout.
pub open spec fn is_uuid(s: Seq<char>, version: char) -> bool {
    &&& s.len() == 36
    &&& forall|i: int|
        #![trigger s[i]]
        0 <= i < 36 ==> if i == 8 || i == 13 || i == 18 || i == 23 {
            s[i] == '-'
        } else {
            '0' <= s[i] <= '9' || 'a' <= s[i] <= 'f'
        }
    &&& s[14] == version
    &&& s[19] == '8' || s[19] == '9' || s[19] == 'a' || s[19] == 'b'
}

/// The UUID that `uuid::Uuid::new_v5` makes of a name in the URL namespace, as text.
pub uninterp spec fn url_uuid(name: Seq<char>) -> Seq<char>;

/// `uuid::Uuid::new_v5` in the URL namespace on the name's UTF-8 bytes, printed by the
/// UUID's `Display`. The same name always gives the same UUID.
#[verifier::external_body]
fn uuid_v5(name: &str) -> (id: String)
    ensures
        id@ == url_uuid(name@),
        is_uuid(id@, '5'),
{
    uuid::Uuid::new_v5(&uuid::Uuid::NAMESPACE_URL, name.as_bytes()).to_string()
}

/// `uuid::Uuid::new_v4`, a random UUID, printed by its `Display`. Nothing is said of the
/// other digits. It panics where the system has no random bytes to give.
#[verifier::external_body]
fn uuid_v4() -> (id: String)
    ensures
        is_uuid(id@, '4'),
{
    uuid::Uuid::new_v4().to_string()
}

/// The identifier that belongs to a name.
pub fn id_of_name(name: &str) -> (id: String)
    ensures
        id@ == url_uuid(name@),
        is_uuid(id@, '5'),
{
    uuid_v5(name)
}

/// A fresh identifier.
pub fn new_id() -> (id: String)
    ensures
        is_uuid(id@, '4'),
{
    uuid_v4()
}

} // verus!
