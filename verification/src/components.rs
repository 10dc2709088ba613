//! View-model builders consumed by the presentation shell.
//!
//! The shell renders markup from plain values; these builders assemble the
//! values. Markup itself is the shell's business, not the library's.

use vstd::prelude::*;

verus! {

/// The data of the navigation header: the current ledger's name, the
/// signed-in user's name, and the other group members' names.
#[derive(Clone, Debug, PartialEq)]
pub struct Header {
    pub current_ledger: Option<String>,
    pub current_user_name: Option<String>,
    pub group_members: Vec<String>,
}

impl Header {
    /// An empty header: nothing chosen yet.
    pub fn new() -> (r: Header)
        ensures
            r.current_ledger is None,
            r.current_user_name is None,
            r.group_members@.len() == 0,
    {
        Header { current_ledger: None, current_user_name: None, group_members: Vec::new() }
    }

    /// Set the current ledger's display name.
    pub fn current_ledger(self, ledger_name: String) -> (r: Header)
        ensures
            r.current_ledger == Some(ledger_name),
            r.current_user_name == self.current_user_name,
            r.group_members == self.group_members,
    {
        Header {
            current_ledger: Some(ledger_name),
            current_user_name: self.current_user_name,
            group_members: self.group_members,
        }
    }

    /// Set the signed-in user's display name.
    pub fn current_user(self, user_name: String) -> (r: Header)
        ensures
            r.current_user_name == Some(user_name),
            r.current_ledger == self.current_ledger,
            r.group_members == self.group_members,
    {
        Header {
            current_ledger: self.current_ledger,
            current_user_name: Some(user_name),
            group_members: self.group_members,
        }
    }

    /// Set the other group members' display names.
    pub fn group_members(self, members: Vec<String>) -> (r: Header)
        ensures
            r.group_members == members,
            r.current_ledger == self.current_ledger,
            r.current_user_name == self.current_user_name,
    {
        Header {
            current_ledger: self.current_ledger,
            current_user_name: self.current_user_name,
            group_members: members,
        }
    }
}

} // verus!
