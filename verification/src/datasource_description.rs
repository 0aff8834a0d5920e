//! Descriptions of where election data comes from, and under what terms.

use vstd::prelude::*;

verus! {

/// The copyright terms of a source of data.
#[derive(Clone, Debug)]
pub struct Copyright {
    /// The statement they would like users to make
    pub statement: Option<String>,
    /// A page describing the copyright.
    pub url: Option<String>,
    /// The license name, if any.
    pub license_name: Option<String>,
    /// A url to the details of the license
    pub license_url: Option<String>,
}

/// The counting rules that go with a source of data.
#[derive(Clone, Debug)]
pub struct AssociatedRules {
    /// The rules that were actually used.
    pub rules_used: Option<String>,
    /// The rules recommended.
    pub rules_recommended: Option<String>,
    /// A comment, if needed.
    pub comment: Option<String>,
    /// A list of reports (urls).
    pub reports: Vec<String>,
}

} // verus!
