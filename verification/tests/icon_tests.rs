use std::cell::Cell;

use searchlight::icon_extractor::{
    data_url, payload_from_png, IconCache, IconError, IconResolver, IconStep, ICON_BYTES,
    ICON_SIZE,
};

const PREFIX: &str = "data:image/png;base64,";

fn gradient() -> Vec<u8> {
    (0..ICON_BYTES).map(|i| (i * 7 % 251) as u8).collect()
}

fn decode(payload: &str) -> Vec<u8> {
    assert!(payload.starts_with(PREFIX));
    base64::Engine::decode(&base64::engine::general_purpose::STANDARD, &payload[PREFIX.len()..])
        .unwrap()
}

#[test]
fn icon_constants() {
    assert_eq!(ICON_SIZE, 32);
    assert_eq!(ICON_BYTES, 4096);
    assert_eq!(ICON_BYTES, (ICON_SIZE * ICON_SIZE * 4) as usize);
}

#[test]
fn data_url_puts_the_prefix_in_front() {
    assert_eq!(data_url("QUJD"), "data:image/png;base64,QUJD");
    assert_eq!(data_url(""), "data:image/png;base64,");
}

#[test]
fn payload_from_png_encodes_in_padded_base64() {
    assert_eq!(
        payload_from_png(&b"hello world~".to_vec()),
        Ok(format!("{}aGVsbG8gd29ybGR+", PREFIX))
    );
    assert_eq!(payload_from_png(&b"a".to_vec()), Ok(format!("{}YQ==", PREFIX)));
    assert_eq!(payload_from_png(&b"ab".to_vec()), Ok(format!("{}YWI=", PREFIX)));
    assert_eq!(payload_from_png(&vec![0xfb, 0xff]), Ok(format!("{}+/8=", PREFIX)));
    assert_eq!(payload_from_png(&Vec::new()), Ok(PREFIX.to_string()));
}

#[test]
fn extraction_without_an_icon_fails() {
    assert_eq!(IconCache::extract_icon_as_base64(&None), Err(IconError::NoIconHandle));
}

#[test]
fn extraction_of_a_short_bitmap_fails() {
    assert_eq!(
        IconCache::extract_icon_as_base64(&Some(vec![0u8; ICON_BYTES - 1])),
        Err(IconError::InvalidBitmap)
    );
    assert_eq!(IconCache::extract_icon_as_base64(&Some(Vec::new())), Err(IconError::InvalidBitmap));
}

#[test]
fn extraction_writes_a_png_of_the_bitmap() {
    let pixels = gradient();
    let payload = IconCache::extract_icon_as_base64(&Some(pixels.clone())).unwrap();
    let png = decode(&payload);
    assert_eq!(png[..8], [0x89, b'P', b'N', b'G', 0x0d, 0x0a, 0x1a, 0x0a]);
    let image = image::load_from_memory(&png).unwrap().to_rgba8();
    assert_eq!(image.dimensions(), (32, 32));
    assert_eq!(image.into_raw(), pixels);
}

#[test]
fn extraction_reads_the_front_of_a_long_bitmap() {
    let mut pixels = gradient();
    let exact = IconCache::extract_icon_as_base64(&Some(pixels.clone())).unwrap();
    pixels.extend_from_slice(&[9, 9, 9, 9, 9]);
    let longer = IconCache::extract_icon_as_base64(&Some(pixels)).unwrap();
    assert_eq!(decode(&longer), decode(&exact));
}

#[test]
fn error_messages() {
    assert_eq!(IconError::NoIconHandle.message(), "Failed to get icon handle");
    assert_eq!(IconError::InvalidBitmap.message(), "Failed to create image");
    assert_eq!(
        IconError::EncodingFailed("zero width".to_string()).message(),
        "Image write error: zero width"
    );
    assert_eq!(IconError::EncodingFailed(String::new()).message(), "Image write error: ");
}

#[test]
fn new_cache_is_empty() {
    let cache = IconCache::new();
    assert_eq!(cache.cached("C:\\Apps\\x.exe"), None);
    assert_eq!(cache.cached(""), None);
}

#[test]
fn record_stores_a_payload_and_forgets_a_failure() {
    let mut cache = IconCache::new();
    assert_eq!(cache.record("C:\\a.exe", Err(IconError::NoIconHandle)), None);
    assert_eq!(cache.cached("C:\\a.exe"), None);
    assert_eq!(cache.record("C:\\a.exe", Ok("data:one".to_string())), Some("data:one".to_string()));
    assert_eq!(cache.cached("C:\\a.exe"), Some("data:one".to_string()));
    assert_eq!(cache.cached("C:\\b.exe"), None);
    let failure = IconError::EncodingFailed("no space".to_string());
    assert_eq!(cache.record("C:\\a.exe", Err(failure)), None);
    assert_eq!(cache.cached("C:\\a.exe"), Some("data:one".to_string()));
    assert_eq!(cache.record("C:\\a.exe", Ok("data:two".to_string())), Some("data:two".to_string()));
    assert_eq!(cache.cached("C:\\a.exe"), Some("data:two".to_string()));
}

#[test]
fn repeated_requests_for_one_path_extract_once() {
    let mut cache = IconCache::new();
    let extractions = Cell::new(0);
    let mut answers = Vec::new();
    for _ in 0..5 {
        answers.push(cache.get_icon_data("C:\\Apps\\x.exe", |_path: &str| {
            extractions.set(extractions.get() + 1);
            Some(gradient())
        }));
    }
    assert_eq!(extractions.get(), 1);
    assert!(answers[0].is_some());
    for answer in &answers {
        assert_eq!(answer, &answers[0]);
    }
    assert_eq!(cache.cached("C:\\Apps\\x.exe"), answers[0]);
}

#[test]
fn capture_is_asked_for_the_requested_path() {
    let mut cache = IconCache::new();
    let asked = Cell::new(false);
    cache.get_icon_data("C:\\Apps\\y.exe", |path: &str| {
        asked.set(path == "C:\\Apps\\y.exe");
        None
    });
    assert!(asked.get());
}

#[test]
fn failed_extraction_is_tried_again() {
    let mut cache = IconCache::new();
    let extractions = Cell::new(0);
    let fail = |_path: &str| {
        extractions.set(extractions.get() + 1);
        None
    };
    assert_eq!(cache.get_icon_data("C:\\Apps\\x.exe", fail), None);
    assert_eq!(cache.get_icon_data("C:\\Apps\\x.exe", fail), None);
    assert_eq!(extractions.get(), 2);
    assert_eq!(cache.cached("C:\\Apps\\x.exe"), None);
    let short = |_path: &str| Some(vec![0u8; 16]);
    assert_eq!(cache.get_icon_data("C:\\Apps\\x.exe", short), None);
    let icon = cache.get_icon_data("C:\\Apps\\x.exe", |_path: &str| Some(gradient()));
    assert!(icon.is_some());
    assert_eq!(cache.get_icon_data("C:\\Apps\\x.exe", fail), icon);
    assert_eq!(extractions.get(), 2);
}

#[test]
fn paths_are_cached_apart() {
    let mut cache = IconCache::new();
    let black = cache.get_icon_data("C:\\a.exe", |_path: &str| Some(vec![0u8; ICON_BYTES]));
    let white = cache.get_icon_data("C:\\b.exe", |_path: &str| Some(vec![255u8; ICON_BYTES]));
    assert!(black.is_some() && white.is_some());
    assert_ne!(black, white);
    assert_eq!(cache.cached("C:\\a.exe"), black);
    assert_eq!(cache.cached("C:\\b.exe"), white);
    assert_eq!(cache.cached("c:\\a.exe"), None);
}

fn is_ready(step: &IconStep, payload: &str) -> bool {
    matches!(step, IconStep::Ready(found) if found == payload)
}

#[test]
fn resolver_starts_one_extraction_for_many_requests() {
    let mut resolver = IconResolver::new();
    let mut extractions = 0;
    let mut waiting = 0;
    for _ in 0..8 {
        match resolver.request("C:\\Apps\\x.exe") {
            IconStep::Extract => extractions += 1,
            IconStep::Wait => waiting += 1,
            IconStep::Ready(_) => panic!("nothing is stored yet"),
        }
    }
    assert_eq!(extractions, 1);
    assert_eq!(waiting, 7);
    let icon = resolver.complete("C:\\Apps\\x.exe", Ok("data:x".to_string()));
    assert_eq!(icon, Some("data:x".to_string()));
    for _ in 0..3 {
        assert!(is_ready(&resolver.request("C:\\Apps\\x.exe"), "data:x"));
    }
}

#[test]
fn resolver_keeps_paths_apart() {
    let mut resolver = IconResolver::new();
    assert!(matches!(resolver.request("C:\\a.exe"), IconStep::Extract));
    assert!(matches!(resolver.request("C:\\b.exe"), IconStep::Extract));
    assert!(matches!(resolver.request("C:\\a.exe"), IconStep::Wait));
    assert!(matches!(resolver.request("C:\\b.exe"), IconStep::Wait));
    let icon = resolver.complete("C:\\b.exe", Ok("data:b".to_string()));
    assert_eq!(icon, Some("data:b".to_string()));
    assert!(matches!(resolver.request("C:\\a.exe"), IconStep::Wait));
    assert!(is_ready(&resolver.request("C:\\b.exe"), "data:b"));
    let icon = resolver.complete("C:\\a.exe", Ok("data:a".to_string()));
    assert_eq!(icon, Some("data:a".to_string()));
    assert!(is_ready(&resolver.request("C:\\a.exe"), "data:a"));
}

#[test]
fn resolver_retries_after_a_failure() {
    let mut resolver = IconResolver::new();
    assert!(matches!(resolver.request("C:\\a.exe"), IconStep::Extract));
    assert!(matches!(resolver.request("C:\\a.exe"), IconStep::Wait));
    assert_eq!(resolver.complete("C:\\a.exe", Err(IconError::NoIconHandle)), None);
    assert!(matches!(resolver.request("C:\\a.exe"), IconStep::Extract));
    assert!(matches!(resolver.request("C:\\a.exe"), IconStep::Wait));
    let payload = IconCache::extract_icon_as_base64(&Some(gradient()));
    let icon = resolver.complete("C:\\a.exe", payload.clone());
    assert_eq!(icon, payload.ok());
    assert!(matches!(resolver.request("C:\\a.exe"), IconStep::Ready(_)));
}
