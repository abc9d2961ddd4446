use rumgap::image_server::{
    checksum_of, content_type_for_ext, cover_referer, etag, ext_for_content_type, image_answer, is_not_modified, media_type,
    proxy_cache_candidates, proxy_hash, proxy_key, respond_with_bytes, trim_quotes, ImageAnswer, IMMUTABLE_CACHE,
};

#[test]
fn extensions_and_content_types() {
    assert_eq!(content_type_for_ext("png"), "image/png");
    assert_eq!(content_type_for_ext("webp"), "image/webp");
    assert_eq!(content_type_for_ext("jpg"), "image/jpeg");
    assert_eq!(content_type_for_ext("tiff"), "image/jpeg");
    assert_eq!(ext_for_content_type("image/gif"), "gif");
    assert_eq!(ext_for_content_type("image/avif"), "avif");
    assert_eq!(ext_for_content_type("text/html"), "jpg");
    for ext in ["jpg", "png", "webp", "gif", "avif", "bmp"] {
        assert_eq!(ext_for_content_type(&content_type_for_ext(ext)), ext);
    }
}

#[test]
fn checksums_are_sha256_hex() {
    assert_eq!(checksum_of(b""), "e3b0c44298fc1c149afbf4c8996fb92427ae41e4649b934ca495991b7852b855");
    assert_eq!(checksum_of(b"abc"), "ba7816bf8f01cfea414140de5dae2223b00361a396177a9cb410ff61f20015ad");
    assert_eq!(proxy_hash("abc"), checksum_of(b"abc"));
    assert_eq!(etag("ab12"), "\"ab12\"");
}

#[test]
fn proxy_keys() {
    assert_eq!(proxy_key("ab", "png"), "proxy/ab.png");
    let c = proxy_cache_candidates("ff");
    let keys: Vec<&str> = c.iter().map(|(k, _)| k.as_str()).collect();
    assert_eq!(keys, vec!["proxy/ff.jpg", "proxy/ff.png", "proxy/ff.webp", "proxy/ff.gif", "proxy/ff.avif", "proxy/ff.bmp"]);
    assert_eq!(c[0].1, "image/jpeg");
    assert_eq!(c[5].1, "image/bmp");
}

#[test]
fn conditional_gets() {
    assert_eq!(trim_quotes("\"\"abc\""), "abc");
    assert_eq!(trim_quotes("\"\""), "");
    assert!(is_not_modified("done", Some("abc"), Some("\"abc\"")));
    assert!(is_not_modified("done", Some("abc"), Some("abc")));
    assert!(!is_not_modified("pending", Some("abc"), Some("\"abc\"")));
    assert!(!is_not_modified("done", None, Some("\"abc\"")));
    assert!(!is_not_modified("done", Some("abc"), None));
    assert!(!is_not_modified("done", Some("abc"), Some("\"abd\"")));
}

#[test]
fn media_types() {
    assert_eq!(media_type(None), "image/jpeg");
    assert_eq!(media_type(Some("image/png; charset=binary")), "image/png");
    assert_eq!(media_type(Some("  image/webp ")), "image/webp");
    assert_eq!(media_type(Some(";")), "");
}

#[test]
fn downloaded_images_are_served_from_the_store() {
    let key = Some("chapters/1/0.png".to_string());
    let ct = Some("image/png".to_string());
    let sum = Some("abc".to_string());
    assert_eq!(
        image_answer("done", &key, &ct, &sum, "https://src.test/0.png"),
        ImageAnswer::Stored {
            storage_key: "chapters/1/0.png".to_string(),
            content_type: "image/png".to_string(),
            checksum: "abc".to_string(),
        }
    );
}

#[test]
fn failed_images_redirect_to_their_source() {
    let key = Some("chapters/1/0.png".to_string());
    let ct = Some("image/png".to_string());
    let sum = Some("abc".to_string());
    let redirect = ImageAnswer::Redirect("https://src.test/0.png".to_string());
    assert_eq!(image_answer("failed", &key, &ct, &sum, "https://src.test/0.png"), redirect);
    assert_eq!(image_answer("done", &None, &ct, &sum, "https://src.test/0.png"), redirect);
    assert_eq!(image_answer("done", &key, &ct, &None, "https://src.test/0.png"), redirect);
}

#[test]
fn covers_are_fetched_with_the_primary_source_as_referer() {
    assert_eq!(
        cover_referer(Some("https://primary.test/m".to_string()), "https://cdn.test/c.jpg".to_string()),
        "https://primary.test/m"
    );
    assert_eq!(cover_referer(None, "https://cdn.test/c.jpg".to_string()), "https://cdn.test/c.jpg");
}

#[test]
fn a_stored_proxy_image_is_among_the_probed_keys() {
    let hash = proxy_hash("https://cdn.test/cover.webp");
    let stored = proxy_key(&hash, ext_for_content_type("image/webp"));
    let candidates = proxy_cache_candidates(&hash);
    let hit = candidates.iter().find(|(key, _)| *key == stored).unwrap();
    assert_eq!(hit.1, "image/webp");
    let unknown = proxy_key(&hash, ext_for_content_type("image/tiff"));
    assert_eq!(candidates[0], (unknown, "image/jpeg".to_string()), "unknown types are cached and served as JPEG");
}

#[test]
fn served_images_carry_type_tag_and_immutable_caching() {
    let bytes = b"abc".to_vec();
    let r = respond_with_bytes(bytes.clone(), "image/png");
    assert_eq!(r.body, bytes);
    assert_eq!(r.headers.content_type, "image/png");
    assert_eq!(r.headers.cache_control, "public, max-age=31536000, immutable");
    assert_eq!(IMMUTABLE_CACHE, "public, max-age=31536000, immutable");
    assert_eq!(
        r.headers.etag,
        "\"ba7816bf8f01cfea414140de5dae2223b00361a396177a9cb410ff61f20015ad\""
    );
}
