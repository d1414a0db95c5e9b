use vstd::prelude::*;

verus! {

use crate::graphql::{converted_repo, PageInfo, Request, RepositoryEdge};
use crate::model::Repository;

/// What the accumulated repository records must be for one page's edges:
/// one converted record per edge, in order.
pub open spec fn stored_repos(edges: Seq<RepositoryEdge>, repos: Seq<Repository>) -> bool {
    &&& repos.len() == edges.len()
    &&& forall|k: int| 0 <= k < edges.len() ==> converted_repo(#[trigger] edges[k], repos[k]@)
}

/// Accumulating page after page stores exactly the pages' edges laid end to
/// end, in order: the fetched record list is the union of all pages.
pub proof fn lemma_stored_concat(
    e1: Seq<RepositoryEdge>,
    r1: Seq<Repository>,
    e2: Seq<RepositoryEdge>,
    r2: Seq<Repository>,
)
    requires
        stored_repos(e1, r1),
        stored_repos(e2, r2),
    ensures
        stored_repos(e1 + e2, r1 + r2),
{
    assert forall|k: int| 0 <= k < (e1 + e2).len() implies converted_repo(
        #[trigger] (e1 + e2)[k],
        (r1 + r2)[k]@,
    ) by {
        if k < e1.len() {
            assert((e1 + e2)[k] == e1[k]);
            assert((r1 + r2)[k] == r1[k]);
        } else {
            assert((e1 + e2)[k] == e2[k - e1.len()]);
            assert((r1 + r2)[k] == r2[k - e1.len()]);
        }
    }
}

/// The cursor-pagination state of one account fetch: the login and filter
/// the requests carry, the continuation token of the last page, and whether
/// a page has reported that no further page exists.
pub struct PageFetcher {
    pub login: String,
    pub is_archived: Option<bool>,
    pub cursor: Option<String>,
    pub done: bool,
}

impl PageFetcher {
    /// A fetch about to issue its first request: no cursor, not done.
    pub fn new(login: String, is_archived: Option<bool>) -> (res: Self)
        ensures
            res.login@ == login@,
            res.is_archived == is_archived,
            res.cursor is None,
            !res.done,
    {
        PageFetcher { login, is_archived, cursor: None, done: false }
    }

    /// The next request to issue: none exactly when a page has reported
    /// `has_next_page == false`; otherwise the fixed query with the current
    /// cursor.
    pub fn next_request(&self) -> (res: Option<Request>)
        ensures
            res is None <==> self.done,
            match res {
                Some(req) => {
                    &&& req.query@ == crate::graphql::query_document()
                    &&& req.variables.login@ == self.login@
                    &&& req.variables.is_archived == self.is_archived
                    &&& match (&req.variables.cursor, &self.cursor) {
                        (Some(a), Some(b)) => a@ == b@,
                        (None, None) => true,
                        _ => false,
                    }
                },
                None => true,
            },
    {
        if self.done {
            return None;
        }
        let cursor: Option<String> = match &self.cursor {
            Some(c) => Some(c.clone()),
            None => None,
        };
        Some(Request::new(self.login.clone(), self.is_archived, cursor))
    }

    /// Consumes one page's pagination report: the fetch stops exactly when
    /// the page says no further page exists, and otherwise carries the
    /// page's continuation token into the next request.
    pub fn advance(&mut self, page_info: &PageInfo)
        ensures
            final(self).login == old(self).login,
            final(self).is_archived == old(self).is_archived,
            final(self).done == !page_info.has_next_page,
            page_info.has_next_page ==> match (&final(self).cursor, &page_info.end_cursor) {
                (Some(a), Some(b)) => a@ == b@,
                (None, None) => true,
                _ => false,
            },
            !page_info.has_next_page ==> final(self).cursor == old(self).cursor,
    {
        if page_info.has_next_page {
            self.cursor = match &page_info.end_cursor {
                Some(c) => Some(c.clone()),
                None => None,
            };
            self.done = false;
        } else {
            self.done = true;
        }
    }
}

} // verus!
