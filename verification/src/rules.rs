//! What a rule reports, and what rules that read syntax trees need.

pub mod ast;

use vstd::prelude::*;
use crate::text::KeyView;
use crate::types::{RegionPath, RuleId};

verus! {

/// One place where a rule is violated.
///
/// Lines and columns count from one. The region is the one the violation was
/// classified into when it was found.
#[derive(Debug, PartialEq, Eq)]
pub struct Violation {
    pub rule_id: RuleId,
    pub file: String,
    pub line: u32,
    pub column: u32,
    pub end_line: u32,
    pub end_column: u32,
    pub snippet: String,
    pub message: String,
    pub region: RegionPath,
}

impl Violation {
    /// The key under which the violation is counted: its rule and its region.
    pub open spec fn key(&self) -> KeyView {
        (self.rule_id@, self.region@)
    }
}

impl Clone for Violation {
    fn clone(&self) -> (r: Self)
        ensures
            r.rule_id@ == self.rule_id@,
            r.file@ == self.file@,
            r.line == self.line,
            r.column == self.column,
            r.end_line == self.end_line,
            r.end_column == self.end_column,
            r.snippet@ == self.snippet@,
            r.message@ == self.message@,
            r.region@ == self.region@,
    {
        Violation {
            rule_id: self.rule_id.clone(),
            file: self.file.clone(),
            line: self.line,
            column: self.column,
            end_line: self.end_line,
            end_column: self.end_column,
            snippet: self.snippet.clone(),
            message: self.message.clone(),
            region: self.region.clone(),
        }
    }
}

} // verus!
