//! The search pipeline between receiving a request and executing SQL.

use vstd::prelude::*;

use crate::command::Command;
use crate::parser::{denotes, lemma_denotes_well_formed, parse, parse_fault};
use crate::sql::{command_to_query, synthesis_failure, synthesized};
use crate::table_search::{TableSearch, TableSearchError};
use crate::text::{lemma_views, push_chars, views};

verus! {

/// How a search request failed, by stage.
#[derive(PartialEq, Debug, Clone)]
pub enum ManagerError {
    Unknown(String),
    ParseError(String),
    QueryBuildError(String),
}

/// Each attribute with `::TEXT` appended, so that every column comes back
/// as text.
pub fn text_projection(projection: &Vec<String>) -> (r: Vec<String>)
    ensures
        r.len() == projection.len(),
        forall|i: int| 0 <= i < r.len() ==> #[trigger] r@[i]@ == projection@[i]@ + "::TEXT"@,
{
    let mut r: Vec<String> = Vec::new();
    let mut i: usize = 0;
    while i < projection.len()
        invariant
            i <= projection.len(),
            r.len() == i,
            forall|k: int| 0 <= k < i ==> #[trigger] r@[k]@ == projection@[k]@ + "::TEXT"@,
        decreases projection.len() - i,
    {
        let mut a = projection[i].clone();
        push_chars(&mut a, "::TEXT");
        r.push(a);
        i = i + 1;
    }
    r
}

/// The projection as sent to the backend: each attribute with `::TEXT`
/// appended for `postgres`, unchanged otherwise.
pub open spec fn decorated(projection: Seq<Seq<char>>, backend: Seq<char>) -> Seq<Seq<char>> {
    if backend == "postgres"@ {
        Seq::new(projection.len(), |i: int| projection[i] + "::TEXT"@)
    } else {
        projection
    }
}

/// The SQL statement for a search: the projection, decorated with `::TEXT`
/// for the `postgres` backend, and the filter text, parsed and resolved
/// against the schema graph. A filter that does not parse is a
/// `ParseError`; attributes that cannot be resolved are a `QueryBuildError`.
pub fn build_search_query(
    projection: Vec<String>,
    filters: String,
    backend: &str,
    table_search: &TableSearch,
) -> (r: Result<String, ManagerError>)
    ensures
        (r matches Err(ManagerError::ParseError(_))) <==> parse_fault(filters@) is Some,
        r matches Err(ManagerError::Unknown(_)) ==> false,
        r matches Ok(q) ==> exists|c: Command|
            #[trigger] denotes(filters@, c) && parse_fault(filters@) is None && synthesized(
                table_search,
                decorated(views(projection@), backend@),
                c,
                q@,
            ),
        r matches Err(ManagerError::QueryBuildError(_)) ==> exists|c: Command, e: TableSearchError|
            #[trigger] denotes(filters@, c) && parse_fault(filters@) is None && #[trigger] synthesis_failure(
                table_search,
                decorated(views(projection@), backend@),
                c,
                e,
            ),
{
    let postgres = String::from_str("postgres");
    let tag = String::from_str(backend);
    let ghost original = views(projection@);
    let projection = if tag == postgres {
        let decorated_projection = text_projection(&projection);
        proof {
            lemma_views(decorated_projection@);
            lemma_views(projection@);
            assert(views(decorated_projection@) =~= decorated(original, backend@));
        }
        decorated_projection
    } else {
        projection
    };
    assert(views(projection@) == decorated(original, backend@));
    let command = match parse(filters) {
        Ok(c) => c,
        Err(e) => return Err(ManagerError::ParseError(e.message())),
    };
    proof {
        lemma_denotes_well_formed(filters@, command);
    }
    let ghost dp = views(projection@);
    match command_to_query(projection, &command, table_search) {
        Ok(q) => Ok(q),
        Err(e) => Err(ManagerError::QueryBuildError(e.message())),
    }
}

} // verus!
