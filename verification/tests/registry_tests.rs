use image_registry::extract::ExtractError;
use image_registry::registry::State;

/// The smallest stream the structural parse accepts: the PNG signature
/// followed by an IEND chunk header.
fn minimal_png() -> Vec<u8> {
    let mut data = vec![137, 80, 78, 71, 13, 10, 26, 10];
    data.extend_from_slice(&0u32.to_be_bytes());
    data.extend_from_slice(b"IEND");
    data
}

fn png_with_text(keyword: &[u8], value: &[u8]) -> Vec<u8> {
    let mut data = vec![137, 80, 78, 71, 13, 10, 26, 10];
    let mut payload = keyword.to_vec();
    payload.push(0);
    payload.extend_from_slice(value);
    data.extend_from_slice(&(payload.len() as u32).to_be_bytes());
    data.extend_from_slice(b"tEXt");
    data.extend_from_slice(&payload);
    data.extend_from_slice(&[0u8; 4]);
    data.extend_from_slice(&0u32.to_be_bytes());
    data.extend_from_slice(b"IEND");
    data
}

#[test]
fn new_registry_is_empty_without_focus() {
    let s = State::new();
    assert_eq!(s.images.len(), 0);
    assert_eq!(s.next_id, 1);
    assert_eq!(s.focus_on, 0);
}

/// A successful add focuses the new image and stores its metadata.
#[test]
fn add_image_sets_focus_to_new_id() {
    let mut s = State::new();
    let id = s
        .add_image("a.png".to_string(), &png_with_text(b"Author", b"Alice"))
        .unwrap();
    assert_eq!(id, 1);
    assert_eq!(s.focus_on, 1);
    assert_eq!(s.images.len(), 1);
    assert_eq!(s.images[0].id, 1);
    assert_eq!(s.images[0].filename, "a.png");
    assert_eq!(s.images[0].metadata.len(), 1);
    assert_eq!(s.images[0].metadata[0].keyword, "Author");
    assert_eq!(s.images[0].metadata[0].value, "Alice");
}

/// A failing add changes neither the image list nor the focus.
#[test]
fn failed_add_leaves_state_unchanged() {
    let mut s = State::new();
    s.add_image("a.png".to_string(), &minimal_png()).unwrap();
    assert_eq!(s.images.len(), 1);
    assert_eq!(s.focus_on, 1);
    let err = s
        .add_image("bad.txt".to_string(), &b"not a png at all".to_vec())
        .unwrap_err();
    match err {
        ExtractError::Format { filename } => assert_eq!(filename, "bad.txt"),
        _ => panic!("expected a format error"),
    }
    assert_eq!(s.images.len(), 1);
    assert_eq!(s.focus_on, 1);
    assert_eq!(s.next_id, 2);
}

/// Ids assigned by successive adds strictly increase and are never reused,
/// even after removals.
#[test]
fn ids_strictly_increase_and_are_never_reused() {
    let mut s = State::new();
    let a = s.add_image("a.png".to_string(), &minimal_png()).unwrap();
    let b = s.add_image("b.png".to_string(), &minimal_png()).unwrap();
    assert!(b > a);
    s.remove_image(b);
    let c = s.add_image("c.png".to_string(), &minimal_png()).unwrap();
    assert!(c > b);
    assert_eq!((a, b, c), (1, 2, 3));
}

/// Every remove clears the focus, whether or not anything matched.
#[test]
fn remove_always_clears_focus() {
    let mut s = State::new();
    s.remove_image(42);
    assert_eq!(s.focus_on, 0);
    assert_eq!(s.images.len(), 0);

    s.add_image("a.png".to_string(), &minimal_png()).unwrap();
    assert_eq!(s.focus_on, 1);
    s.remove_image(999);
    assert_eq!(s.focus_on, 0);
    assert_eq!(s.images.len(), 1);
}

/// Removal drops at most one image and is idempotent on the list.
#[test]
fn remove_is_idempotent_and_drops_at_most_one() {
    let mut s = State::new();
    s.add_image("a.png".to_string(), &minimal_png()).unwrap();
    s.add_image("b.png".to_string(), &minimal_png()).unwrap();
    s.add_image("c.png".to_string(), &minimal_png()).unwrap();
    s.remove_image(2);
    assert_eq!(s.images.len(), 2);
    assert_eq!(s.images[0].id, 1);
    assert_eq!(s.images[1].id, 3);
    s.remove_image(2);
    assert_eq!(s.images.len(), 2);
    assert_eq!(s.images[0].id, 1);
    assert_eq!(s.images[1].id, 3);
}

/// Add A, add B, remove A: only B remains and the focus is cleared.
#[test]
fn add_add_remove_scenario() {
    let mut s = State::new();
    let a = s.add_image("a.png".to_string(), &minimal_png()).unwrap();
    assert_eq!(a, 1);
    assert_eq!(s.focus_on, 1);
    let b = s.add_image("b.png".to_string(), &minimal_png()).unwrap();
    assert_eq!(b, 2);
    assert_eq!(s.focus_on, 2);
    s.remove_image(1);
    assert_eq!(s.images.len(), 1);
    assert_eq!(s.images[0].id, 2);
    assert_eq!(s.images[0].filename, "b.png");
    assert_eq!(s.focus_on, 0);
}

/// The broadcast snapshot mirrors the current list and focus.
#[test]
fn snapshot_copies_list_and_focus() {
    let mut s = State::new();
    s.add_image("a.png".to_string(), &png_with_text(b"K", b"V"))
        .unwrap();
    s.add_image("b.png".to_string(), &minimal_png()).unwrap();
    let p = s.snapshot();
    assert_eq!(p.focus_on, 2);
    assert_eq!(p.images.len(), 2);
    assert_eq!(p.images[0].id, 1);
    assert_eq!(p.images[0].filename, "a.png");
    assert_eq!(p.images[0].metadata[0].keyword, "K");
    assert_eq!(p.images[0].metadata[0].value, "V");
    assert_eq!(p.images[1].id, 2);
    assert_eq!(p.images[1].filename, "b.png");
}
