//! Image uploads: the checks on an uploaded file and where it is stored.

use vstd::prelude::*;
use vstd::string::*;
use crate::text::{text_eq, push_text, chars_of, string_of, trim_end_matches, trim_end_matches_exec};
use crate::link_plan::is_lower_hex;

verus! {

/// A file that passed the router's content-type and size gates.
pub struct UploadedFile {
    pub field_name: String,
    pub original_file_name: String,
    pub content_type: String,
    pub size: usize,
    pub md5: String,
    pub bytes: Vec<u8>,
}

/// The extension stored for a content type (taken from the content type,
/// never from the client's file name).
pub open spec fn ext_text(content_type: Seq<char>) -> Seq<char> {
    if content_type == "image/png"@ {
        "png"@
    } else if content_type == "image/jpeg"@ {
        "jpg"@
    } else if content_type == "image/gif"@ {
        "gif"@
    } else if content_type == "image/webp"@ {
        "webp"@
    } else {
        "bin"@
    }
}

/// The extension stored for a content type.
pub fn ext_for_content_type(content_type: &str) -> (res: &'static str)
    ensures
        res@ == ext_text(content_type@),
{
    if text_eq(content_type, "image/png") {
        "png"
    } else if text_eq(content_type, "image/jpeg") {
        "jpg"
    } else if text_eq(content_type, "image/gif") {
        "gif"
    } else if text_eq(content_type, "image/webp") {
        "webp"
    } else {
        "bin"
    }
}

/// `bytes` starts with `prefix`.
pub open spec fn starts_with(bytes: Seq<u8>, prefix: Seq<u8>) -> bool {
    bytes.len() >= prefix.len() && bytes.take(prefix.len() as int) == prefix
}

/// Whether the file's first bytes match its declared image type: PNG
/// `89 50 4E 47`, JPEG `FF D8`, GIF `GIF8`, WEBP `RIFF` then `WEBP` at
/// bytes 8 to 11. Other types are not checked.
pub open spec fn magic_ok(content_type: Seq<char>, bytes: Seq<u8>) -> bool {
    if content_type == "image/png"@ {
        starts_with(bytes, seq![0x89u8, 0x50u8, 0x4Eu8, 0x47u8])
    } else if content_type == "image/jpeg"@ {
        starts_with(bytes, seq![0xFFu8, 0xD8u8])
    } else if content_type == "image/gif"@ {
        starts_with(bytes, seq![71u8, 73u8, 70u8, 56u8])
    } else if content_type == "image/webp"@ {
        bytes.len() >= 12 && starts_with(bytes, seq![82u8, 73u8, 70u8, 70u8]) && bytes.subrange(8, 12) == seq![
            87u8,
            69u8,
            66u8,
            80u8,
        ]
    } else {
        true
    }
}

fn bytes_at(bytes: &Vec<u8>, at: usize, expect: &Vec<u8>) -> (res: bool)
    ensures
        res == (at + expect@.len() <= bytes@.len() && bytes@.subrange(at as int, at + expect@.len()) == expect@),
{
    if at > bytes.len() || expect.len() > bytes.len() - at {
        return false;
    }
    let mut k: usize = 0;
    while k < expect.len()
        invariant
            k <= expect@.len(),
            at + expect@.len() <= bytes@.len(),
            bytes@.len() <= usize::MAX,
            forall|t: int| 0 <= t < k ==> bytes@[at + t] == expect@[t],
        decreases expect@.len() - k,
    {
        assert(at + k < bytes@.len());
        if bytes[at + k] != expect[k] {
            assert(bytes@.subrange(at as int, at + expect@.len())[k as int] != expect@[k as int]);
            return false;
        }
        k += 1;
    }
    assert(bytes@.subrange(at as int, at + expect@.len()) =~= expect@);
    true
}

/// Whether the file's first bytes match its declared image type.
pub fn magic_matches_content_type(content_type: &str, bytes: &Vec<u8>) -> (res: bool)
    ensures
        res == magic_ok(content_type@, bytes@),
{
    if text_eq(content_type, "image/png") {
        let m: Vec<u8> = vec![0x89u8, 0x50u8, 0x4Eu8, 0x47u8];
        let r = bytes_at(bytes, 0, &m);
        assert(bytes@.subrange(0, m@.len() as int) == bytes@.take(m@.len() as int));
        assert(m@ == seq![0x89u8, 0x50u8, 0x4Eu8, 0x47u8]);
        r
    } else if text_eq(content_type, "image/jpeg") {
        let m: Vec<u8> = vec![0xFFu8, 0xD8u8];
        let r = bytes_at(bytes, 0, &m);
        assert(bytes@.subrange(0, m@.len() as int) == bytes@.take(m@.len() as int));
        assert(m@ == seq![0xFFu8, 0xD8u8]);
        r
    } else if text_eq(content_type, "image/gif") {
        let m: Vec<u8> = vec![71u8, 73u8, 70u8, 56u8];
        let r = bytes_at(bytes, 0, &m);
        assert(bytes@.subrange(0, m@.len() as int) == bytes@.take(m@.len() as int));
        assert(m@ == seq![71u8, 73u8, 70u8, 56u8]);
        r
    } else if text_eq(content_type, "image/webp") {
        let riff: Vec<u8> = vec![82u8, 73u8, 70u8, 70u8];
        let webp: Vec<u8> = vec![87u8, 69u8, 66u8, 80u8];
        assert(riff@ == seq![82u8, 73u8, 70u8, 70u8]);
        assert(webp@ == seq![87u8, 69u8, 66u8, 80u8]);
        assert(bytes@.subrange(0, 4) == bytes@.take(4));
        bytes.len() >= 12 && bytes_at(bytes, 0, &riff) && bytes_at(bytes, 8, &webp)
    } else {
        true
    }
}

/// Why an upload is refused.
pub enum UploadError {
    NoFile,
    ContentMismatch(String),
}

/// Where an upload is stored: its object key `uploads/{uuid}.{ext}` in the
/// `images` bucket, its public URL, and the path the client gets back.
pub struct UploadPlan {
    pub key: String,
    pub file_url: String,
    pub file_path: String,
}

/// The shape of a hyphenated uuid: 36 characters, `-` at positions 8,
/// 13, 18 and 23, lowercase hex digits elsewhere.
pub open spec fn hyphenated_uuid(id: Seq<char>) -> bool {
    &&& id.len() == 36
    &&& forall|i: int| 0 <= i < 36 ==> if i == 8 || i == 13 || i == 18 || i == 23 {
        #[trigger] id[i] == '-'
    } else {
        is_lower_hex(id[i])
    }
}

/// A fresh object id: `uuid::Uuid::new_v4().to_string()`, which the uuid
/// crate writes hyphenated in lowercase hex (`Display` goes through
/// `LowerHex` and `format_hyphenated`). The id is random, so nothing more
/// than its shape is said of it.
#[verifier::external_body]
fn new_upload_id() -> (res: String)
    ensures
        hyphenated_uuid(res@),
{
    uuid::Uuid::new_v4().to_string()
}

/// The public URL of an object key: the base URL without trailing `/`,
/// then `/images/` and the key.
pub open spec fn file_url_text(base: Seq<char>, key: Seq<char>) -> Seq<char> {
    trim_end_matches(base, "/"@) + "/images/"@ + key
}

/// Plans the upload of the first file: refused without a file, or when its
/// bytes do not match its declared image type; otherwise stored under a
/// fresh key with the extension of its content type, and answered with the
/// request's path (or the file's URL without one).
pub fn plan_upload(files: &Vec<UploadedFile>, base_url: &str, file_path: Option<String>) -> (res: Result<UploadPlan, UploadError>)
    ensures
        files@.len() == 0 ==> res matches Err(UploadError::NoFile),
        files@.len() > 0 && !magic_ok(files@[0].content_type@, files@[0].bytes@) ==> (res matches Err(
            UploadError::ContentMismatch(ct),
        ) && ct@ == files@[0].content_type@),
        files@.len() > 0 && magic_ok(files@[0].content_type@, files@[0].bytes@) ==> (res matches Ok(p) && {
            &&& exists|id: Seq<char>| hyphenated_uuid(id) && p.key@ == "uploads/"@ + id + "."@ + ext_text(files@[0].content_type@)
            &&& p.file_url@ == file_url_text(base_url@, p.key@)
            &&& p.file_path@ == (match file_path {
                Some(fp) => fp@,
                None => p.file_url@,
            })
        }),
{
    if files.len() == 0 {
        return Err(UploadError::NoFile);
    }
    let f = &files[0];
    if !magic_matches_content_type(f.content_type.as_str(), &f.bytes) {
        return Err(UploadError::ContentMismatch(f.content_type.clone()));
    }
    let id = new_upload_id();
    let mut key = String::new();
    push_text(&mut key, "uploads/");
    push_text(&mut key, id.as_str());
    push_text(&mut key, ".");
    push_text(&mut key, ext_for_content_type(f.content_type.as_str()));
    let base = chars_of(base_url);
    let slash = chars_of("/");
    proof {
        reveal_strlit("/");
    }
    let trimmed = trim_end_matches_exec(&base, &slash);
    let mut url = string_of(&trimmed);
    push_text(&mut url, "/images/");
    push_text(&mut url, key.as_str());
    let path = match file_path {
        Some(fp) => fp,
        None => url.clone(),
    };
    assert(key@ == "uploads/"@ + id@ + "."@ + ext_text(f.content_type@));
    Ok(UploadPlan { key, file_url: url, file_path: path })
}

} // verus!
