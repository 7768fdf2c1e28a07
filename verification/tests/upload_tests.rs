use functions::upload::{ext_for_content_type, magic_matches_content_type, plan_upload, UploadError, UploadedFile};

fn file(ct: &str, bytes: Vec<u8>) -> UploadedFile {
    UploadedFile {
        field_name: "file".into(),
        original_file_name: "a.exe".into(),
        content_type: ct.into(),
        size: bytes.len(),
        md5: String::new(),
        bytes,
    }
}

#[test]
fn extension_follows_content_type() {
    assert_eq!(ext_for_content_type("image/png"), "png");
    assert_eq!(ext_for_content_type("image/jpeg"), "jpg");
    assert_eq!(ext_for_content_type("image/gif"), "gif");
    assert_eq!(ext_for_content_type("image/webp"), "webp");
    assert_eq!(ext_for_content_type("text/html"), "bin");
}

#[test]
fn magic_numbers_are_checked_for_images() {
    assert!(magic_matches_content_type("image/png", &vec![0x89, 0x50, 0x4E, 0x47, 0]));
    assert!(!magic_matches_content_type("image/png", &b"<svg".to_vec()));
    assert!(magic_matches_content_type("image/jpeg", &vec![0xFF, 0xD8]));
    assert!(!magic_matches_content_type("image/jpeg", &vec![0xFF]));
    assert!(magic_matches_content_type("image/gif", &b"GIF89a".to_vec()));
    assert!(magic_matches_content_type("image/webp", &b"RIFF\0\0\0\0WEBPVP8".to_vec()));
    assert!(!magic_matches_content_type("image/webp", &b"RIFF\0\0\0\0WEB".to_vec()));
    assert!(magic_matches_content_type("application/pdf", &vec![]));
}

#[test]
fn upload_plan_keys_and_urls() {
    assert!(matches!(plan_upload(&vec![], "http://m", None), Err(UploadError::NoFile)));
    match plan_upload(&vec![file("image/png", b"<html>".to_vec())], "http://m", None) {
        Err(UploadError::ContentMismatch(ct)) => assert_eq!(ct, "image/png"),
        _ => panic!("mismatched content must be refused"),
    }
    let plan = match plan_upload(&vec![file("image/gif", b"GIF89a".to_vec())], "http://minio:9000//", None) {
        Ok(p) => p,
        Err(_) => panic!("valid upload"),
    };
    assert!(plan.key.starts_with("uploads/"));
    assert!(plan.key.ends_with(".gif"));
    assert_eq!(plan.key.len(), "uploads/".len() + 36 + ".gif".len());
    assert_eq!(plan.file_url, format!("http://minio:9000/images/{}", plan.key));
    assert_eq!(plan.file_path, plan.file_url);
    let with_path = match plan_upload(&vec![file("image/gif", b"GIF8".to_vec())], "http://m", Some("p".into())) {
        Ok(p) => p,
        Err(_) => panic!("valid upload"),
    };
    assert_eq!(with_path.file_path, "p");
}
