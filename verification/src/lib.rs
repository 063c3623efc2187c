#![allow(unused_imports)]
use vstd::prelude::*;

pub mod api;
pub mod markdown;
pub mod subprocess;
pub mod text;
pub mod validate;

verus! {

use crate::markdown::UserMention;
use crate::validate::valid_spec;

/// A canonical user record, as the remote profile service reports it.
#[derive(Debug, Clone, PartialEq, Eq)]
pub struct User {
    pub id: i32,
    pub country_code: String,
    pub username: String,
}

/// The part of a mention a discrepancy is about.
pub enum Field {
    Flag,
    Username,
}

impl User {
    /// Whether a scanned mention agrees with this canonical record under the
    /// given strictness switches: the username is checked only when
    /// `name_required`, a missing country annotation is an error only when
    /// `country_required`, and a present country annotation must match.
    pub fn valid(&self, mention: &UserMention, country_required: bool, name_required: bool) -> (r:
        bool)
        ensures
            r == valid_spec(*self, mention@, country_required, name_required),
    {
        let name_ok = !name_required || self.username == mention.username.text;
        let country_ok = match &mention.country_code {
            Some(country) => self.country_code == country.text,
            None => !country_required,
        };
        name_ok && country_ok
    }
}

} // verus!
