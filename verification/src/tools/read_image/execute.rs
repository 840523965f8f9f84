//! What a vision model is asked, and what is taken from its reply. Reading the image and
//! sending the request is the caller's part.

use base64::Engine;
use vstd::prelude::*;

use crate::path::{an_extension_stands_behind_the_last_dot, extension, path_extension};
use crate::text::same_text;
use crate::tools::read_image::ReadImageArgs;

verus! {

/// What is said of arguments that could not be decoded.
pub const INVALID_ARGUMENTS: &'static str = "invalid read image arguments";

/// Output token budget of the vision model.
pub const VISION_MAX_TOKENS: u32 = 1024;

/// The media type of an image, by its file's extension.
pub open spec fn media_type(path: Seq<char>) -> Seq<char> {
    let found = path_extension(path);
    if found == Some("png"@) {
        "image/png"@
    } else if found == Some("gif"@) {
        "image/gif"@
    } else if found == Some("webp"@) {
        "image/webp"@
    } else {
        "image/jpeg"@
    }
}

/// The media type of an image, by its file's extension.
pub fn mime(path: &str) -> (kind: &'static str)
    ensures
        kind@ == media_type(path@),
{
    match extension(path) {
        Some(found) => {
            let text = found.as_str();
            if same_text(text, "png") {
                "image/png"
            } else if same_text(text, "gif") {
                "image/gif"
            } else if same_text(text, "webp") {
                "image/webp"
            } else {
                "image/jpeg"
            }
        },
        None => "image/jpeg",
    }
}

/// The text that `base64` writes for bytes, in the standard alphabet and with padding.
pub uninterp spec fn base64_text(bytes: Seq<u8>) -> Seq<char>;

/// `base64::Engine::encode`, on the engine `STANDARD`. What it writes depends on the bytes
/// alone; the encoding itself is not spelled out here. No slice is so long that its encoded
/// length overflows, which is where the call would panic.
#[verifier::external_body]
fn encode(bytes: &[u8]) -> (text: String)
    ensures
        text@ == base64_text(bytes@),
{
    base64::engine::general_purpose::STANDARD.encode(bytes)
}

/// A question to a vision model.
#[derive(Debug, PartialEq, Eq)]
pub struct VisionRequest {
    pub model: String,
    pub query: String,
    /// The image, as a data URL.
    pub image_url: String,
    pub max_tokens: u32,
}

/// An image with the given media type and encoded bytes, as a data URL.
pub open spec fn data_url_text(kind: Seq<char>, encoded: Seq<char>) -> Seq<char> {
    "data:"@ + kind + ";base64,"@ + encoded
}

/// An image as a data URL, given its encoded bytes.
pub fn data_url(kind: &str, encoded: &str) -> (url: String)
    ensures
        url@ == data_url_text(kind@, encoded@),
{
    let mut url = "data:".to_owned();
    url.append(kind);
    url.append(";base64,");
    url.append(encoded);
    url
}

/// The question to send about an image.
pub fn run(args: ReadImageArgs, bytes: &[u8]) -> (request: VisionRequest)
    ensures
        request.model == args.model,
        request.query == args.query,
        request.image_url@ == data_url_text(media_type(args.file_path@), base64_text(bytes@)),
        request.max_tokens == VISION_MAX_TOKENS,
{
    let encoded = encode(bytes);
    let image_url = data_url(mime(args.file_path.as_str()), encoded.as_str());
    VisionRequest {
        model: args.model,
        query: args.query,
        image_url,
        max_tokens: VISION_MAX_TOKENS,
    }
}

/// A reply whose first choice says nothing, or that has none.
#[derive(Debug, Clone, Copy, PartialEq, Eq, Structural)]
pub struct NoVisionContent;

impl NoVisionContent {
    /// What is said of it.
    pub fn message(&self) -> (text: String)
        ensures
            text@ == "No content in vision response"@,
    {
        "No content in vision response".to_owned()
    }
}

/// What the vision model answered, given what each choice of its reply says: the first counts.
pub fn answer(choices: Vec<Option<String>>) -> (text: Result<String, NoVisionContent>)
    ensures
        match text {
            Ok(said) => choices@.len() > 0 && choices@[0] == Some(said),
            Err(_) => choices@.len() == 0 || choices@[0] is None,
        },
{
    let mut choices = choices;
    if choices.len() == 0 {
        return Err(NoVisionContent);
    }
    match choices.swap_remove(0) {
        Some(said) => Ok(said),
        None => Err(NoVisionContent),
    }
}

/// A data URL holds the media type and all of the encoded image.
pub proof fn a_data_url_holds_the_whole_image(kind: Seq<char>, encoded: Seq<char>)
    ensures
        ({
            let url = data_url_text(kind, encoded);
            &&& url.skip(url.len() - encoded.len()) == encoded
            &&& ("data:"@ + kind).is_prefix_of(url)
        }),
{
    let url = data_url_text(kind, encoded);
    assert(url.skip(url.len() - encoded.len()) =~= encoded);
    assert(url.take(("data:"@ + kind).len() as int) =~= "data:"@ + kind);
}

/// An image is sent as what its file's name says it is, and as a JPEG where that says nothing else.
pub proof fn an_image_is_sent_as_named(
    args: ReadImageArgs,
    bytes: &[u8],
    request: VisionRequest,
    directory: Seq<char>,
    stem: Seq<char>,
    kind: Seq<char>,
)
    requires
        call_ensures(run, (args, bytes), request),
        args.file_path@ == directory + stem.push('.') + kind,
        directory.len() == 0 || directory.last() == '/',
        stem.len() > 0,
        !stem.contains('/'),
        kind == "png"@ || kind == "gif"@ || kind == "webp"@,
    ensures
        ("data:image/"@ + kind).is_prefix_of(request.image_url@),
        request.image_url@.skip(request.image_url@.len() - base64_text(bytes@).len())
            == base64_text(bytes@),
        request.query == args.query,
        request.model == args.model,
{
    reveal_strlit("png");
    reveal_strlit("gif");
    reveal_strlit("webp");
    reveal_strlit("..");
    reveal_strlit("data:image/");
    reveal_strlit("data:");
    reveal_strlit("image/png");
    reveal_strlit("image/gif");
    reveal_strlit("image/webp");
    let name = stem.push('.') + kind;
    assert(name.len() > 2);
    an_extension_stands_behind_the_last_dot(directory, stem, kind);
    a_data_url_holds_the_whole_image(media_type(args.file_path@), base64_text(bytes@));
    let url = request.image_url@;
    let whole = "data:"@ + media_type(args.file_path@);
    assert("png"@[0] != "gif"@[0] && "png"@[0] != "webp"@[0] && "gif"@[0] != "webp"@[0]);
    assert(whole =~= "data:image/"@ + kind);
}

} // verus!
