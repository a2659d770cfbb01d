use pdf_viewer::raster::bgra_to_rgba;
use pdf_viewer::ImageData;
use pdf_viewer::Orientation;
use pdf_viewer::PageSize;
use pdf_viewer::Rect;
use pdf_viewer::Rotation;
use pdf_viewer::Viewer;

#[test]
fn rotation_degrees() {
    assert_eq!(Rotation::Zero.degrees(), 0);
    assert_eq!(Rotation::Quarter.degrees(), 90);
    assert_eq!(Rotation::Half.degrees(), 180);
    assert_eq!(Rotation::ThreeQuarters.degrees(), 270);
}

#[test]
fn rect_orientation() {
    assert_eq!(Rect { width: 10, height: 20 }.orientation(), Orientation::Portrait);
    assert_eq!(Rect { width: 20, height: 10 }.orientation(), Orientation::Landscape);
    assert_eq!(Rect { width: 10, height: 10 }.orientation(), Orientation::Portrait);
}

#[test]
fn page_size_layout() {
    let portrait = PageSize { width: 210, height: 297, standard: true };
    assert_eq!(portrait.layout(), Orientation::Portrait);
    let landscape = PageSize { width: 297, height: 210, standard: true };
    assert_eq!(landscape.layout(), Orientation::Landscape);
    let custom = PageSize { width: 123, height: 456, standard: false };
    assert_eq!(custom.layout(), Orientation::Custom);
}

#[test]
fn rgba_swaps_red_and_blue() {
    let native = vec![1u8, 2, 3, 4, 5, 6, 7, 8];
    let out = bgra_to_rgba(&native);
    assert_eq!(out, vec![3u8, 2, 1, 4, 7, 6, 5, 8]);
}

#[test]
fn rgba_of_empty_is_empty() {
    let native: Vec<u8> = Vec::new();
    assert_eq!(bgra_to_rgba(&native).len(), 0);
}

#[test]
fn render_is_deterministic_for_equal_input() {
    let mut v = Viewer::new();
    let sizes = vec![Rect { width: 2, height: 2 }];
    let doc = v.open_parsed(String::from("a"), Some(sizes)).unwrap();
    let pages = doc.pages(&mut v);
    let page = pages.page_at(&mut v, 0).unwrap();

    let native: Vec<u8> = (0u8..16).collect();
    let first = page.render(&v, 2, 2, Some(native.clone()));
    let second = page.render(&v, 2, 2, Some(native));
    assert_eq!(first, second);
    assert!(first.is_some());
}

#[test]
fn render_rejects_wrong_extent_and_absence() {
    let mut v = Viewer::new();
    let sizes = vec![Rect { width: 2, height: 2 }];
    let doc = v.open_parsed(String::from("a"), Some(sizes)).unwrap();
    let pages = doc.pages(&mut v);
    let page = pages.page_at(&mut v, 0).unwrap();

    assert!(page.render(&v, 2, 2, Some(vec![0u8; 15])).is_none());
    assert!(page.render(&v, 2, 2, None).is_none());
}

#[test]
fn image_data_keeps_its_fields() {
    let img = ImageData::new(vec![0u8; 24], 3, 2);
    assert_eq!(img.width, 3);
    assert_eq!(img.height, 2);
    assert_eq!(img.data.len(), 24);
}
