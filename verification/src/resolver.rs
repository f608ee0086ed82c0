use vstd::prelude::*;
use crate::text::{dec_digits, dec_value, is_u32_numeral, numeral_body, parse_u32, u32_to_dec};

verus! {

/// A user-supplied token, classified as a numeric idx query or an alias
/// query.  The classification is the first step of entry resolution; the
/// store consumes the variant.
#[derive(Debug, PartialEq, Eq)]
pub enum IdxAlias {
    Idx(u32),
    Alias(String),
}

impl IdxAlias {
    /// Create an Idx if entry can be parsed as u32 otherwise create an Alias.
    pub fn from(entry: &str) -> (r: Self)
        ensures
            is_u32_numeral(entry@) ==> r == IdxAlias::Idx((dec_value(numeral_body(entry@)) as u32)),
            !is_u32_numeral(entry@) ==> (r matches IdxAlias::Alias(a) && a@ == entry@),
    {
        match parse_u32(entry) {
            Some(n) => IdxAlias::Idx(n),
            None => IdxAlias::Alias(entry.to_owned()),
        }
    }

    /// Return a tuple with the associated column name
    /// and the value to search for.
    pub fn to_colname_query(&self) -> (r: (String, String))
        ensures
            (self matches IdxAlias::Idx(i) ==> r.0@ == "idx"@ && r.1@ == dec_digits(i as int)),
            (self matches IdxAlias::Alias(a) ==> r.0@ == "alias"@ && r.1@ == a@),
    {
        match self {
            IdxAlias::Idx(idx) => ("idx".to_owned(), u32_to_dec(*idx)),
            IdxAlias::Alias(alias) => ("alias".to_owned(), alias.clone()),
        }
    }

    /// Whether the token was classified as an alias.
    pub fn is_alias(&self) -> (r: bool)
        ensures
            r == (self is Alias),
    {
        match self {
            IdxAlias::Idx(_) => false,
            IdxAlias::Alias(_) => true,
        }
    }
}

} // verus!
