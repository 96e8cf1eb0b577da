use uslu::images::{ImageManager, ImageMap};
use uslu::models::FocusNode;
use uslu::preview::{preview_png, MAX_PREVIEW_DIMENSION};

const STORE: &str = "# Images Storage
- data: \"orphan\"

## 22222222-2222-4222-8222-222222222222
- data: \"QkJC\"

## 11111111-1111-4111-8111-111111111111
- data: \"QUFB\"\"
";

#[test]
fn store_is_read_by_sections() {
    let map = ImageManager::parse_images_map_from_content(STORE);
    assert_eq!(map.len(), 2);
    assert_eq!(map.get("11111111-1111-4111-8111-111111111111"), Some("QUFB".to_string()));
    assert_eq!(map.get("22222222-2222-4222-8222-222222222222"), Some("QkJC".to_string()));
    assert_eq!(map.get("33333333-3333-4333-8333-333333333333"), None);
    // Entries come out in id order.
    assert_eq!(map.entry(0).0, "11111111-1111-4111-8111-111111111111");
}

#[test]
fn store_is_written_in_id_order() {
    let mut map = ImageMap::new();
    ImageManager::save_image(&mut map, 0x22222222222242228222222222222222, "QkJC");
    ImageManager::save_image(&mut map, 0x11111111111141118111111111111111, "QUFB");
    let text = ImageManager::render_images_map(&map);
    assert_eq!(
        text,
        "# Images Storage\n\n## 11111111-1111-4111-8111-111111111111\n- data: \"QUFB\"\n\n## 22222222-2222-4222-8222-222222222222\n- data: \"QkJC\"\n\n"
    );
    let back = ImageManager::parse_images_map_from_content(&text);
    assert_eq!(back.len(), 2);
    assert_eq!(back.get("22222222-2222-4222-8222-222222222222"), Some("QkJC".to_string()));
}

#[test]
fn saving_again_replaces_the_data() {
    let mut map = ImageMap::new();
    ImageManager::save_image(&mut map, 7, "AAAA");
    ImageManager::save_image(&mut map, 7, "BBBB");
    assert_eq!(map.len(), 1);
    assert_eq!(map.get("00000000-0000-0000-0000-000000000007"), Some("BBBB".to_string()));
}

#[test]
fn loading_a_missing_or_unreadable_store() {
    assert_eq!(ImageManager::load_all_images(None).unwrap().len(), 0);
    assert_eq!(
        ImageManager::load_all_images(Some(Err("izin yok".to_string()))).err(),
        Some("izin yok".to_string())
    );
    let loaded = ImageManager::load_all_images(Some(Ok(STORE.to_string()))).unwrap();
    assert_eq!(loaded.len(), 2);
}

#[test]
fn unused_images_are_dropped() {
    let mut keep = FocusNode::new("A".to_string(), String::new());
    keep.image_id = Some(5);
    let mut map = ImageMap::new();
    ImageManager::save_image(&mut map, 5, "AAAA");
    ImageManager::save_image(&mut map, 6, "BBBB");
    map.retain_active(&vec![keep]);
    assert_eq!(map.len(), 1);
    assert_eq!(map.entry(0).0, "00000000-0000-0000-0000-000000000005");
}

#[test]
fn base64_round_trip() {
    let text = ImageManager::encode_png_base64(&vec![1, 2, 3]);
    assert_eq!(text, "AQID");
    assert_eq!(ImageManager::decode_image_data(&text), Some(vec![1, 2, 3]));
    assert_eq!(ImageManager::decode_image_data("@@"), None);
    assert_eq!(ImageManager::encode_png_base64(&vec![]), "");
}

#[test]
fn rgba_pixels_become_png() {
    let text = ImageManager::encode_rgba_image_to_base64(1, 1, vec![255, 0, 0, 255]).unwrap();
    let bytes = ImageManager::decode_image_data(&text).unwrap();
    assert_eq!(&bytes[..8], &[0x89, b'P', b'N', b'G', 0x0d, 0x0a, 0x1a, 0x0a]);
    let err = ImageManager::encode_rgba_image_to_base64(2, 2, vec![0, 0, 0, 0]).unwrap_err();
    assert!(err.starts_with("PNG Encode Hatası: "));
    let long = ImageManager::encode_rgba_image_to_base64(1, 1, vec![0; 8]).unwrap_err();
    assert!(long.starts_with("PNG Encode Hatası: "));
}

fn png_bytes(width: u32, height: u32) -> Vec<u8> {
    let rgba = vec![200u8; (4 * width * height) as usize];
    let text = ImageManager::encode_rgba_image_to_base64(width, height, rgba).unwrap();
    ImageManager::decode_image_data(&text).unwrap()
}

#[test]
fn previews_are_png_and_shrunk_past_the_limit() {
    let small = preview_png(&png_bytes(3, 2)).unwrap();
    let img = image::load_from_memory(&small).unwrap();
    assert_eq!((img.width(), img.height()), (3, 2));

    let big = preview_png(&png_bytes(960, 20)).unwrap();
    assert_eq!(&big[..4], &[0x89, b'P', b'N', b'G']);
    let img = image::load_from_memory(&big).unwrap();
    assert_eq!(img.width(), MAX_PREVIEW_DIMENSION);
    assert_eq!(img.height(), 10);

    assert!(preview_png(&[1, 2, 3]).is_none());
}
