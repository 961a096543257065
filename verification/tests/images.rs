//! The image store and the color of inline images.

use std::sync::Arc;

use oxidepage_layout::images::{current_color, ImageData, ImageId, ImageStore};

const URL: &str = "http://example.com/a.png";

#[test]
fn inserting_an_image_makes_it_available() {
    let mut store = ImageStore::new();
    assert!(store.get(URL).is_none());
    let image = store.insert_raster(URL.to_string(), 40, 20, Arc::new(vec![7; 3200]));
    assert_eq!(image.id, ImageId(1));
    let found = store.get(URL).expect("stored");
    assert_eq!((found.width, found.height), (40, 20));
    assert_eq!(found.id, image.id);
    assert!(matches!(&found.data, ImageData::Raster { rgba } if rgba.len() == 3200));
}

#[test]
fn every_insertion_bumps_the_version_and_takes_a_fresh_id() {
    let mut store = ImageStore::new();
    let before = store.version();
    let a = store.insert_raster(URL.to_string(), 10, 10, Arc::new(vec![0; 400]));
    assert!(store.version() > before);
    let v1 = store.version();
    let b = store.insert_vector(URL.to_string(), 20, 20, Arc::new(vec![0; 16]));
    assert!(store.version() > v1);
    assert_ne!(a.id, b.id);
    assert!(matches!(store.get(URL).unwrap().data, ImageData::Vector { .. }));
}

#[test]
fn broken_and_decoded_exclude_each_other() {
    let mut store = ImageStore::new();
    store.insert_raster(URL.to_string(), 1, 1, Arc::new(vec![0; 4]));
    store.insert_raster("other".to_string(), 2, 2, Arc::new(vec![0; 16]));
    store.insert_broken(URL.to_string());
    assert!(store.is_broken(URL));
    assert!(store.get(URL).is_none());
    assert!(store.get("other").is_some());
    assert!(!store.is_broken("other"));
    assert_eq!(store.version(), 3);
    store.insert_broken(URL.to_string());
    assert!(store.is_broken(URL));
    store.insert_raster(URL.to_string(), 3, 3, Arc::new(vec![0; 36]));
    assert!(!store.is_broken(URL));
    assert_eq!(store.get(URL).unwrap().id, ImageId(3));
}

#[test]
fn colors_are_clamped_and_rounded_to_bytes() {
    assert_eq!(
        current_color([0, 500_000, 1_000_000, 2_000_000]),
        [0, 128, 255, 255]
    );
    assert_eq!(current_color([-5, 1_960, 1_961, 3_921]), [0, 0, 1, 1]);
}

#[test]
fn the_last_call_for_a_url_decides() {
    let mut store = ImageStore::new();
    let mut ids = Vec::new();
    for n in 0..4u32 {
        let image = store.insert_raster(format!("u{}", n % 2), n, n, Arc::new(Vec::new()));
        ids.push(image.id);
        store.insert_broken("u0".to_string());
    }
    // Ids count the insertions, the version counts the calls.
    assert_eq!(ids, [ImageId(1), ImageId(2), ImageId(3), ImageId(4)]);
    assert_eq!(store.version(), 8);
    assert!(store.get("u0").is_none() && store.is_broken("u0"));
    let found = store.get("u1").expect("stored");
    assert_eq!((found.width, found.id), (3, ImageId(4)));
}
