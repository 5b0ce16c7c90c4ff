//! Kinds of objects that the catalog can hold.

use vstd::prelude::*;

verus! {

/// The kind of a catalog object.
#[derive(Debug, Clone, Copy, PartialEq, Eq, Structural)]
pub enum CatalogType {
    Invalid,
    Table,
    Schema,
    TableFunction,
    ScalarFunction,
    View,
    Index,
    UpdatedEntry,
    DeletedEntry,
    PreparedStatement,
    Sequence,
}

impl CatalogType {
    /// The one-byte tag under which a kind is stored.
    pub open spec fn tag(self) -> u8 {
        match self {
            CatalogType::Invalid => 0,
            CatalogType::Table => 1,
            CatalogType::Schema => 2,
            CatalogType::TableFunction => 3,
            CatalogType::ScalarFunction => 4,
            CatalogType::View => 5,
            CatalogType::Index => 6,
            CatalogType::UpdatedEntry => 10,
            CatalogType::DeletedEntry => 11,
            CatalogType::PreparedStatement => 12,
            CatalogType::Sequence => 13,
        }
    }

    /// The kind stored under a tag, if the tag names one.
    pub open spec fn of_tag(tag: u8) -> Option<CatalogType> {
        if tag == 0 {
            Some(CatalogType::Invalid)
        } else if tag == 1 {
            Some(CatalogType::Table)
        } else if tag == 2 {
            Some(CatalogType::Schema)
        } else if tag == 3 {
            Some(CatalogType::TableFunction)
        } else if tag == 4 {
            Some(CatalogType::ScalarFunction)
        } else if tag == 5 {
            Some(CatalogType::View)
        } else if tag == 6 {
            Some(CatalogType::Index)
        } else if tag == 10 {
            Some(CatalogType::UpdatedEntry)
        } else if tag == 11 {
            Some(CatalogType::DeletedEntry)
        } else if tag == 12 {
            Some(CatalogType::PreparedStatement)
        } else if tag == 13 {
            Some(CatalogType::Sequence)
        } else {
            None
        }
    }

    /// Encodes the kind as its tag.
    pub fn to_u8(self) -> (tag: u8)
        ensures
            tag == self.tag(),
    {
        match self {
            CatalogType::Invalid => 0,
            CatalogType::Table => 1,
            CatalogType::Schema => 2,
            CatalogType::TableFunction => 3,
            CatalogType::ScalarFunction => 4,
            CatalogType::View => 5,
            CatalogType::Index => 6,
            CatalogType::UpdatedEntry => 10,
            CatalogType::DeletedEntry => 11,
            CatalogType::PreparedStatement => 12,
            CatalogType::Sequence => 13,
        }
    }

    /// Decodes a tag; `None` for a byte that names no kind.
    pub fn from_u8(tag: u8) -> (kind: Option<CatalogType>)
        ensures
            kind == Self::of_tag(tag),
    {
        match tag {
            0 => Some(CatalogType::Invalid),
            1 => Some(CatalogType::Table),
            2 => Some(CatalogType::Schema),
            3 => Some(CatalogType::TableFunction),
            4 => Some(CatalogType::ScalarFunction),
            5 => Some(CatalogType::View),
            6 => Some(CatalogType::Index),
            10 => Some(CatalogType::UpdatedEntry),
            11 => Some(CatalogType::DeletedEntry),
            12 => Some(CatalogType::PreparedStatement),
            13 => Some(CatalogType::Sequence),
            _ => None,
        }
    }

    /// Decoding inverts encoding.
    pub proof fn lemma_tag_round_trip(kind: CatalogType)
        ensures
            Self::of_tag(kind.tag()) == Some(kind),
    {
    }
}

} // verus!
