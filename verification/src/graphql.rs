use vstd::prelude::*;

verus! {

use crate::model::{LanguageView, PartialView, RepositoryView};

/// The fixed query document sent to the upstream graph API.
pub open spec fn query_document() -> Seq<char> {
    "query ($login: String!, $isArchived: Boolean, $cursor: String) { user(login: $login) { name repositories(first: 100, after: $cursor, isFork: false, isArchived: $isArchived, ownerAffiliations: OWNER) { edges { node { nameWithOwner stargazerCount languages(first: 100) { edges { size node { name color } } } } } pageInfo { hasNextPage endCursor } } } }"@
}

/// The placeholder color used when the upstream omits a language's color.
pub open spec fn default_color() -> Seq<char> {
    "#efefef"@
}

/// The variables of one upstream query: the account login, the optional
/// archived-state filter, and the pagination cursor of the previous page.
pub struct Variables {
    pub login: String,
    pub is_archived: Option<bool>,
    pub cursor: Option<String>,
}

/// One upstream request: the fixed query document plus its variables.
pub struct Request {
    pub query: String,
    pub variables: Variables,
}

impl Request {
    /// Builds the request for one page: the fixed document, with the given
    /// login, archived-state filter and cursor as variables.
    pub fn new(login: String, is_archived: Option<bool>, cursor: Option<String>) -> (res: Self)
        ensures
            res.query@ == query_document(),
            res.variables.login@ == login@,
            res.variables.is_archived == is_archived,
            res.variables.cursor == cursor,
    {
        let query: String = "query ($login: String!, $isArchived: Boolean, $cursor: String) { user(login: $login) { name repositories(first: 100, after: $cursor, isFork: false, isArchived: $isArchived, ownerAffiliations: OWNER) { edges { node { nameWithOwner stargazerCount languages(first: 100) { edges { size node { name color } } } } } pageInfo { hasNextPage endCursor } } } }".to_string();
        Request { query, variables: Variables { login, is_archived, cursor } }
    }
}

/// Pagination state reported by one page of upstream results.
pub struct PageInfo {
    pub has_next_page: bool,
    pub end_cursor: Option<String>,
}

/// One language usage edge of a repository: its size in lines of code and
/// the language itself.
pub struct LanguagesEdge {
    pub size: u32,
    pub node: LanguageNode,
}

/// One language as the upstream reports it; the color may be absent.
pub struct LanguageNode {
    pub name: String,
    pub color: Option<String>,
}

/// The language usages of one repository.
pub struct Languages {
    pub edges: Vec<LanguagesEdge>,
}

/// One repository as the upstream reports it.
pub struct RepositoryNode {
    pub name: String,
    pub stargazer_count: u32,
    pub languages: Languages,
}

/// One repository edge of a page.
pub struct RepositoryEdge {
    pub node: RepositoryNode,
}

/// One page of repositories with its pagination state.
pub struct Repositories {
    pub edges: Vec<RepositoryEdge>,
    pub page_info: PageInfo,
}

/// The account part of an upstream response: the display name (absent when
/// unset) and one page of repositories.
pub struct User {
    pub name: Option<String>,
    pub repositories: Repositories,
}

/// The payload of an upstream response.
pub struct Data {
    pub user: User,
}

/// A decoded upstream response.
pub struct Response {
    pub data: Data,
}

/// How one language usage edge turns into a language record: the line count
/// is taken over, the weight starts at zero with no sources, and a missing
/// color defaults to the fixed placeholder.
pub open spec fn converted_language(e: LanguagesEdge, l: LanguageView) -> bool {
    &&& l.name == e.node.name@
    &&& l.lines == e.size as int
    &&& l.stars == 0
    &&& l.source == Seq::<PartialView>::empty()
    &&& l.color == match e.node.color {
        Some(c) => c@,
        None => default_color(),
    }
}

/// How one repository edge turns into a repository record: name and stars
/// are taken over and each language edge is converted in order.
pub open spec fn converted_repo(e: RepositoryEdge, r: RepositoryView) -> bool {
    &&& r.name == e.node.name@
    &&& r.stars == e.node.stargazer_count as int
    &&& r.languages.len() == e.node.languages.edges@.len()
    &&& forall|j: int|
        0 <= j < r.languages.len() ==> converted_language(
            e.node.languages.edges@[j],
            #[trigger] r.languages[j],
        )
}

} // verus!
