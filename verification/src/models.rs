//! Plain-value models of the remote API's responses.
//!
//! The surrounding application decodes the JSON bodies it receives into
//! these models and hands them to the library's state machines.  A tree
//! listing carries entries of three kinds; only `Blob` entries bear content.
//! A listing flagged `truncated` is an incomplete prefix of the tree.

use vstd::prelude::*;

verus! {

/// The kind of one tree entry: a directory, a content-bearing file, or a
/// submodule reference.
#[derive(Debug, Clone, Copy, PartialEq, Eq, Structural)]
pub enum ContentsType {
    Tree,
    Blob,
    Commit,
}

/// The encoding a blob body declares.  The remote API serves base64.
#[derive(Debug, Clone, Copy, PartialEq, Eq, Structural)]
pub enum EncodingType {
    Base64,
}

/// One entry of a tree listing.
#[derive(Debug, Clone)]
pub struct SubtreeModel {
    pub path: String,
    pub mode: String,
    pub contents_type: ContentsType,
    pub sha: String,
    pub size: Option<u64>,
    pub url: Option<String>,
}

/// A tree listing: its entries, and whether the remote cut the listing
/// short.
#[derive(Debug, Clone)]
pub struct TreesModel {
    pub sha: String,
    pub url: String,
    pub tree: Vec<SubtreeModel>,
    pub truncated: bool,
}

/// A blob body: base64-encoded content with its metadata.
#[derive(Debug, Clone)]
pub struct BlobsModel {
    pub sha: String,
    pub node_id: String,
    pub size: u64,
    pub url: String,
    pub content: String,
    pub encoding: EncodingType,
}

} // verus!
