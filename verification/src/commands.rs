//! What a graphical front end asks for, one function per view. Whatever goes wrong
//! crosses to the front end as text, since all it can do is show it.

use crate::db::Db;
use crate::model::{self, OrgError, Person};
use crate::people::get_person;
use crate::search::{self, fuzzy_search, SearchHit};
use crate::tables;
use crate::tree::{self, chain_of_command, direct_reports, subtree, Node};
use vstd::prelude::*;

verus! {

/// Everything that the view of a person needs.
#[derive(Debug)]
pub struct WhoView {
    pub person: Person,
    /// Nearest boss first.
    pub chain: Vec<Node>,
    /// Most senior first.
    pub reports: Vec<Node>,
}

/// Everything that the view of a tree needs: the person at its root, and everyone
/// under them in pre-order.
#[derive(Debug)]
pub struct TreeView {
    pub anchor: Person,
    pub nodes: Vec<Node>,
}

/// What the front end shows for an error. `number` is how a confidence that is out
/// of range reads.
pub fn err(e: OrgError, number: &str) -> (r: String)
    ensures
        r@ == model::error_text(e@, number@),
{
    e.message(number)
}

/// Fuzzy search; an empty query gives everyone.
pub fn search(db: &Db, query: &str) -> (r: Vec<SearchHit>)
    ensures
        tables::rows(r@) == search::results(db@.people, search::search_query(query@)),
{
    fuzzy_search(db, query)
}

/// What is said of an id that nobody has.
pub open spec fn nobody(id: i64) -> Seq<char> {
    model::error_text(model::ErrorView::PersonNotFound(id), ""@)
}

/// A person with their chain of command and their direct reports.
pub fn who(db: &Db, id: i64) -> (r: Result<WhoView, String>)
    ensures
        match tables::row(db@.people, id) {
            Some(p) => {
                &&& r matches Ok(v)
                &&& v.person@ == p
                &&& tables::rows(v.chain@) == tree::chain(db@, id)
                &&& tables::rows(v.reports@) == tree::direct(db@, id)
            },
            None => r matches Err(m) && m@ == nobody(id),
        },
{
    match get_person(db, id) {
        None => Err(err(OrgError::PersonNotFound(id), "")),
        Some(person) => Ok(
            WhoView {
                person,
                chain: chain_of_command(db, id),
                reports: direct_reports(db, id),
            },
        ),
    }
}

/// A person and everyone under them.
pub fn tree(db: &Db, id: i64) -> (r: Result<TreeView, String>)
    requires
        db@.people.len() <= i64::MAX,
    ensures
        match tables::row(db@.people, id) {
            Some(p) => {
                &&& r matches Ok(v)
                &&& v.anchor@ == p
                &&& tables::rows(v.nodes@) == tree::subtree_nodes(db@, id)
            },
            None => r matches Err(m) && m@ == nobody(id),
        },
{
    match get_person(db, id) {
        None => Err(err(OrgError::PersonNotFound(id), "")),
        Some(anchor) => Ok(TreeView { anchor, nodes: subtree(db, id) }),
    }
}

} // verus!
