//! A self-contained run of the aggregation pipeline over a small fixed
//! tree: three source files rooted at a caller-chosen directory.  It
//! exercises classification and folding without any network, and its result
//! is pinned to the fold of exactly those files.

use vstd::prelude::*;
use vstd::string::*;

use crate::blob::{view_blobs, GitHubBlob, GitHubBlobV};
use crate::statistics::{is_fold, reports_of_blobs, view_langs, LanguageAggregate, Statistics};

verus! {

/// The fixed tree: two one-line files and a small program, under `repo`.
pub open spec fn demo_blobs(repo: Seq<char>) -> Seq<GitHubBlobV> {
    seq![
        GitHubBlobV { path: repo + "/a.rs"@, content: "println!(\"Hello World\")"@ },
        GitHubBlobV { path: repo + "/b.rs"@, content: "println!(\"Hello World\");"@ },
        GitHubBlobV { path: repo + "/main.rs"@, content: demo_main_content() },
    ]
}

/// The program file of the fixed tree.
pub open spec fn demo_main_content() -> Seq<char> {
    "
                use loc_viwer::components::App;

                fn main() {
                    gloo::console::log!(format!(
                        \"start {} (version {})\",
                        env!(\"CARGO_PKG_NAME\"),
                        env!(\"CARGO_PKG_VERSION\")
                    ));

                    yew::Renderer::<App>::new().render();
                }
            "@
}

/// Classify and fold the fixed tree rooted at `repo`.
pub fn walk(repo: &str) -> (r: Vec<LanguageAggregate>)
    ensures
        is_fold(view_langs(r@), reports_of_blobs(demo_blobs(repo@))),
{
    let mut files: Vec<GitHubBlob> = Vec::new();
    let mut pa = repo.to_owned();
    pa.append("/a.rs");
    files.push(GitHubBlob::new(pa, String::from_str("println!(\"Hello World\")")));
    let mut pb = repo.to_owned();
    pb.append("/b.rs");
    files.push(GitHubBlob::new(pb, String::from_str("println!(\"Hello World\");")));
    let mut pm = repo.to_owned();
    pm.append("/main.rs");
    files.push(GitHubBlob::new(pm, String::from_str("
                use loc_viwer::components::App;

                fn main() {
                    gloo::console::log!(format!(
                        \"start {} (version {})\",
                        env!(\"CARGO_PKG_NAME\"),
                        env!(\"CARGO_PKG_VERSION\")
                    ));

                    yew::Renderer::<App>::new().render();
                }
            ")));
    proof {
        assert(view_blobs(files@) =~= demo_blobs(repo@));
    }
    Statistics::get_statistics(&files)
}

/// The per-language totals of the fixed tree rooted at `repo`.
pub fn get_statistics(repo: &str) -> (r: Vec<LanguageAggregate>)
    ensures
        is_fold(view_langs(r@), reports_of_blobs(demo_blobs(repo@))),
{
    walk(repo)
}

} // verus!
