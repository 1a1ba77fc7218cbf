use catapult::icons::{decode_icon, IconCache, IconError, RawIcon, ICON_BYTES, ICON_SIDE};
use std::cell::Cell;

fn square(fill: u8) -> RawIcon {
    RawIcon { width: 128, height: 128, pixels: vec![fill; ICON_BYTES] }
}

#[test]
fn icon_size_constants() {
    assert_eq!(ICON_SIDE, 128);
    assert_eq!(ICON_BYTES, 128 * 128 * 4);
}

#[test]
fn decode_keeps_pixels() {
    let mut raw = square(0);
    raw.pixels[5] = 77;
    let b = decode_icon(raw).unwrap();
    assert_eq!(b.side(), 128);
    assert_eq!(b.rgba().len(), ICON_BYTES);
    assert_eq!(b.rgba()[5], 77);
    assert_eq!(b.rgba()[4], 0);
}

#[test]
fn decode_rejects_short_buffer_for_dimensions() {
    let raw = RawIcon { width: 256, height: 256, pixels: vec![0; ICON_BYTES] };
    assert!(matches!(decode_icon(raw), Err(IconError::IconUnavailable)));
}

#[test]
fn decode_rejects_wrong_size() {
    let raw = RawIcon { width: 64, height: 64, pixels: vec![0; 64 * 64 * 4] };
    assert!(matches!(decode_icon(raw), Err(IconError::IconUnavailable)));
}

#[test]
fn resolve_twice_extracts_once() {
    let mut cache = IconCache::new();
    let calls = Cell::new(0u32);
    let path = "C:\\Games\\foo.exe".to_string();
    let extract = |_: &String| {
        calls.set(calls.get() + 1);
        Some(square(9))
    };
    assert_eq!(cache.resolve(&path, extract).unwrap().rgba()[0], 9);
    let again = cache
        .resolve(&path, |_: &String| {
            calls.set(calls.get() + 1);
            Some(square(1))
        })
        .unwrap();
    assert_eq!(again.rgba()[0], 9);
    assert_eq!(calls.get(), 1);
    assert_eq!(cache.extractions(), 1);
    let b = cache.cached(&path).unwrap();
    assert_eq!(b.rgba()[0], 9);
}

#[test]
fn failed_extraction_is_not_cached() {
    let mut cache = IconCache::new();
    let path = "C:\\missing.exe".to_string();
    assert!(matches!(cache.resolve(&path, |_: &String| None), Err(IconError::IconUnavailable)));
    assert!(!cache.contains(&path));
    assert_eq!(cache.resolve(&path, |_: &String| Some(square(3))).unwrap().rgba()[7], 3);
    assert_eq!(cache.extractions(), 2);
    assert!(cache.contains(&path));
}

#[test]
fn undecodable_extraction_is_not_cached() {
    let mut cache = IconCache::new();
    let path = "C:\\odd.exe".to_string();
    let r = cache.accept(path.clone(), Some(RawIcon { width: 2, height: 2, pixels: vec![0; 16] }));
    assert_eq!(r, Err(IconError::IconUnavailable));
    assert!(cache.cached(&path).is_none());
}
