//! The attributes by which documents can be grouped and ordered.
use vstd::prelude::*;

verus! {

/// A document attribute used to derive a group key or an ordering.
#[derive(Clone, Copy, Debug, PartialEq, Eq, Structural)]
pub enum Field {
    Identifier,
    ArchiveSerialNumber,
    Correspondent,
    Title,
    CreatedDate,
}

/// The attribute that a selector name stands for; any name that is not
/// recognised selects the identifier.
pub open spec fn field_of_name(name: Seq<char>) -> Field {
    if name == "ID"@ {
        Field::Identifier
    } else if name == "ASN"@ {
        Field::ArchiveSerialNumber
    } else if name == "Correspondent"@ {
        Field::Correspondent
    } else if name == "Title"@ {
        Field::Title
    } else if name == "Created Date"@ {
        Field::CreatedDate
    } else {
        Field::Identifier
    }
}

/// Whether `name` is one of the five selector names.
pub open spec fn is_known_name(name: Seq<char>) -> bool {
    name == "ID"@ || name == "ASN"@ || name == "Correspondent"@ || name == "Title"@
        || name == "Created Date"@
}

impl Field {
    /// The attribute named by a selector: `"ID"`, `"ASN"`, `"Correspondent"`,
    /// `"Title"` or `"Created Date"`. Any other name selects `Identifier`.
    pub fn from_name(name: &str) -> (r: Field)
        ensures
            r == field_of_name(name@),
    {
        let s = name.to_owned();
        if s == "ID".to_owned() {
            Field::Identifier
        } else if s == "ASN".to_owned() {
            Field::ArchiveSerialNumber
        } else if s == "Correspondent".to_owned() {
            Field::Correspondent
        } else if s == "Title".to_owned() {
            Field::Title
        } else if s == "Created Date".to_owned() {
            Field::CreatedDate
        } else {
            Field::Identifier
        }
    }
}

} // verus!
