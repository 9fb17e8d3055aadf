//! A thin client over the REST and raw-content origins of one repository.
//!
//! The client only plans requests: it renders the URL every call needs.
//! Sending the request, and decoding its body, is the surrounding
//! application's part.

use vstd::prelude::*;

use crate::repository::{
    api_origin_seq, raw_origin_seq, spec_endpoint, spec_raw_url, spec_trees_url, GitHubRepository,
};

verus! {

/// Plans the requests of one repository's statistics run.
pub struct GitHubApiClient {
    pub repository: GitHubRepository,
}

impl GitHubApiClient {
    pub fn new(repository: GitHubRepository) -> (r: GitHubApiClient)
        ensures
            r.repository == repository,
    {
        GitHubApiClient { repository }
    }

    /// An endpoint of the REST API.
    pub fn api_endpoint(&self, path: &str) -> (r: String)
        ensures
            r@ == spec_endpoint(api_origin_seq(), path@),
    {
        self.repository.api_endpoint(path)
    }

    /// An endpoint of the raw-content host.
    pub fn raw_endpoint(&self, path: &str) -> (r: String)
        ensures
            r@ == spec_endpoint(raw_origin_seq(), path@),
    {
        self.repository.raw_endpoint(path)
    }

    /// The URL that lists the repository tree at `sha`.
    pub fn trees_url(&self, sha: &str, recursive: bool) -> (r: String)
        ensures
            r@ == spec_trees_url(self.repository.owner@, self.repository.repo@, sha@, recursive),
    {
        self.repository.trees_url(sha, recursive)
    }

    /// The URL of the raw content of `path` at `sha`.
    pub fn raw_url(&self, sha: &str, path: &str) -> (r: String)
        ensures
            r@ == spec_raw_url(self.repository.owner@, self.repository.repo@, sha@, path@),
    {
        self.repository.raw_url(sha, path)
    }
}

} // verus!
