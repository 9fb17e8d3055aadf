use loc_viewer::blob::{BlobsModelDecoder, GitHubBlob};
use loc_viewer::error::DecodeError;
use loc_viewer::models::{BlobsModel, EncodingType};

fn model(content: &str) -> BlobsModel {
    BlobsModel {
        sha: "abc".to_string(),
        node_id: "node".to_string(),
        size: content.len() as u64,
        url: "https://api.github.com/repos/o/r/git/blobs/abc".to_string(),
        content: content.to_string(),
        encoding: EncodingType::Base64,
    }
}

#[test]
fn base64_content_is_decoded() {
    let m = model("aGVsbG8=");
    assert_eq!(BlobsModelDecoder::new(&m).decode().unwrap(), "hello");
    assert_eq!(BlobsModelDecoder::new(&m).decode_base64().unwrap(), "hello");
}

#[test]
fn embedded_whitespace_is_stripped_before_decoding() {
    let m = model("aGVs\nbG8g\r\n d29y \t bGQ=\n");
    assert_eq!(BlobsModelDecoder::new(&m).decode().unwrap(), "hello world");
}

#[test]
fn invalid_base64_is_fatal_for_the_file() {
    let m = model("!not base64!");
    assert_eq!(BlobsModelDecoder::new(&m).decode(), Err(DecodeError::InvalidBase64));
}

#[test]
fn invalid_utf8_is_repaired_not_rejected() {
    // "/v8=" decodes to the bytes fe ff, which are not UTF-8.
    let m = model("/v8=");
    let decoded = BlobsModelDecoder::new(&m).decode().unwrap();
    assert_eq!(decoded, "\u{fffd}\u{fffd}");
}

#[test]
fn from_model_carries_the_path() {
    let m = model("aGVsbG8=");
    let blob = GitHubBlob::from_model("docs/hello.txt".to_string(), &m).unwrap();
    assert_eq!(blob.path, "docs/hello.txt");
    assert_eq!(blob.content, "hello");

    let bad = model("???");
    assert_eq!(
        GitHubBlob::from_model("x".to_string(), &bad),
        Err(DecodeError::InvalidBase64)
    );
}
