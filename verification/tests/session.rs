use pdf_viewer::PdfError;
use pdf_viewer::Rect;
use pdf_viewer::Viewer;

#[test]
fn cache_identity_second_open_hits_cache() {
    let mut v = Viewer::new();
    let first = vec![Rect { width: 100, height: 200 }];
    let h1 = v
        .open_parsed(String::from("a"), Some(first))
        .expect("parsed document is installed");

    // A second open for the same id must take the cache branch: the lookup
    // hits, so the driver never reaches the parse step, whatever new bytes
    // it carries.
    let hit = v.open_with_id(&String::from("a"));
    let h2 = hit.expect("second open finds the cached document");
    assert_eq!(h2.slot(), h1.slot());

    // The document behind both handles is the one parsed first.
    let pages = h2.pages(&mut v);
    let page = pages.page_at(&mut v, 0).expect("page 0 exists");
    let r = page.rect(&v);
    assert_eq!(r.width, 100);
    assert_eq!(r.height, 200);
}

#[test]
fn close_missing_id_reports_false() {
    let mut v = Viewer::new();
    assert!(!v.close(&String::from("nope")));
}

#[test]
fn close_twice_reports_true_then_false() {
    let mut v = Viewer::new();
    let sizes = vec![Rect { width: 10, height: 10 }];
    let _h = v.open_parsed(String::from("a"), Some(sizes)).unwrap();
    assert!(v.close(&String::from("a")));
    assert!(!v.close(&String::from("a")));
}

#[test]
fn close_does_not_invalidate_handles() {
    let mut v = Viewer::new();
    let sizes = vec![Rect { width: 300, height: 400 }];
    let doc = v.open_parsed(String::from("a"), Some(sizes)).unwrap();
    assert!(v.close(&String::from("a")));

    // The handle keeps a share of the document: its operations still work.
    let pages = doc.pages(&mut v);
    assert_eq!(pages.count(&v), 1);
    let page = pages.page_at(&mut v, 0).unwrap();
    assert_eq!(page.rect(&v).width, 300);
    page.release(&mut v);
    pages.release(&mut v);
}

#[test]
fn dispose_refused_while_handles_live() {
    let mut v = Viewer::new();
    let sizes = vec![Rect { width: 1, height: 2 }];
    let doc = v.open_parsed(String::from("a"), Some(sizes)).unwrap();
    let pages = doc.pages(&mut v);
    let page = pages.page_at(&mut v, 0).unwrap();

    // Teardown is refused while any derived handle holds a share.
    assert!(!v.dispose());
    page.release(&mut v);
    assert!(!v.dispose());
    pages.release(&mut v);
    assert!(!v.dispose());
    doc.release(&mut v);

    // The last share is back: teardown completes, the cache entry with it.
    assert!(v.dispose());
}

#[test]
fn page_at_boundaries() {
    let mut v = Viewer::new();
    let sizes = vec![
        Rect { width: 10, height: 20 },
        Rect { width: 30, height: 40 },
    ];
    let doc = v.open_parsed(String::from("a"), Some(sizes)).unwrap();
    let pages = doc.pages(&mut v);
    assert_eq!(pages.count(&v), 2);

    assert_eq!(pages.page_at(&mut v, -1).unwrap_err(), PdfError::IndexOutOfBounds);
    assert_eq!(pages.page_at(&mut v, 2).unwrap_err(), PdfError::IndexOutOfBounds);

    let p0 = pages.page_at(&mut v, 0).unwrap();
    let p1 = pages.page_at(&mut v, 1).unwrap();
    assert_eq!(p0.rect(&v).width, 10);
    assert_eq!(p1.rect(&v).height, 40);

    // A repeated request for the same index yields an independently valid
    // handle.
    let p0_again = pages.page_at(&mut v, 0).unwrap();
    assert_eq!(p0_again.number(), 0);
    assert_eq!(p0_again.rect(&v).width, 10);
    p0.release(&mut v);
    assert_eq!(p0_again.rect(&v).width, 10);
}

#[test]
fn scenario_one_page_document() {
    let mut v = Viewer::new();
    let sizes = vec![Rect { width: 612, height: 792 }];
    let doc = v.open_parsed(String::from("a"), Some(sizes)).unwrap();

    let pages = doc.pages(&mut v);
    assert_eq!(pages.count(&v), 1);

    let page = pages.page_at(&mut v, 0).unwrap();
    let r = page.rect(&v);
    assert_eq!(r.width, 612);
    assert_eq!(r.height, 792);

    // A 100 by 100 render of four bytes per pixel: 40000 bytes in, 40000
    // bytes of red-green-blue-alpha out.
    let native = vec![0u8; 40000];
    let out = page.render(&v, 100, 100, Some(native)).unwrap();
    assert_eq!(out.len(), 40000);

    assert!(v.close(&String::from("a")));
    assert!(v.open_with_id(&String::from("a")).is_none());
}

#[test]
fn scenario_failed_parse_leaves_no_entry() {
    let mut v = Viewer::new();

    // A wrong password or corrupt bytes surface as a failed parse: the open
    // yields absence and the cache gains no entry for the id.
    assert!(v.open_parsed(String::from("locked"), None).is_none());
    assert!(v.open_with_id(&String::from("locked")).is_none());
    assert!(!v.close(&String::from("locked")));
}

#[test]
fn scenario_racing_opens_leave_one_entry() {
    let mut v = Viewer::new();

    // Two callers race for an unseen id: both look up, both miss, both
    // parse, both install. Interleaved here as the lock admits them.
    assert!(v.open_with_id(&String::from("x")).is_none());
    assert!(v.open_with_id(&String::from("x")).is_none());
    let h1 = v
        .open_parsed(String::from("x"), Some(vec![Rect { width: 1, height: 1 }]))
        .unwrap();
    let h2 = v
        .open_parsed(String::from("x"), Some(vec![Rect { width: 2, height: 2 }]))
        .unwrap();

    // Both callers hold a valid handle, each to the document it parsed.
    let pages1 = h1.pages(&mut v);
    assert_eq!(pages1.count(&v), 1);
    assert_eq!(pages1.page_at(&mut v, 0).unwrap().rect(&v).width, 1);
    let pages2 = h2.pages(&mut v);
    assert_eq!(pages2.count(&v), 1);
    assert_eq!(pages2.page_at(&mut v, 0).unwrap().rect(&v).width, 2);

    // The cache holds exactly one entry for the id, the later install.
    let cached = v.open_with_id(&String::from("x")).unwrap();
    assert_eq!(cached.slot(), h2.slot());
    assert!(v.close(&String::from("x")));
    assert!(!v.close(&String::from("x")));
}

#[test]
fn reopening_after_close_parses_anew() {
    let mut v = Viewer::new();
    let h1 = v
        .open_parsed(String::from("a"), Some(vec![Rect { width: 1, height: 1 }]))
        .unwrap();
    assert!(v.close(&String::from("a")));
    assert!(v.open_with_id(&String::from("a")).is_none());

    // The id is no longer tracked: a new open misses and installs a fresh
    // parse in a fresh slot, while the old handle stays usable.
    let h2 = v
        .open_parsed(String::from("a"), Some(vec![Rect { width: 2, height: 2 }]))
        .unwrap();
    assert_ne!(h1.slot(), h2.slot());
    let old_pages = h1.pages(&mut v);
    assert_eq!(old_pages.page_at(&mut v, 0).unwrap().rect(&v).width, 1);
}

#[test]
fn duplicate_shares_the_same_document() {
    let mut v = Viewer::new();
    let sizes = vec![Rect { width: 5, height: 6 }];
    let doc = v.open_parsed(String::from("a"), Some(sizes)).unwrap();
    let copy = doc.duplicate(&mut v);
    assert_eq!(copy.slot(), doc.slot());
    doc.release(&mut v);

    // The copy keeps the document alive on its own.
    let pages = copy.pages(&mut v);
    assert_eq!(pages.count(&v), 1);
    assert!(!v.dispose());
    pages.release(&mut v);
    copy.release(&mut v);
    assert!(v.dispose());
}
