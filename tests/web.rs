use grocery_list::web::{asset_path, render_index, static_response, StaticResponse};

#[test]
fn leading_slashes_are_trimmed() {
    assert_eq!(asset_path("/assets/app.js"), "assets/app.js");
    assert_eq!(asset_path("//x"), "x");
    assert_eq!(asset_path("/"), "");
    assert_eq!(asset_path("plain"), "plain");
}

#[test]
fn static_paths_are_answered() {
    assert!(matches!(static_response("", false), StaticResponse::Index));
    assert!(matches!(static_response("index.html", true), StaticResponse::Index));
    assert!(matches!(static_response("lists/today", false), StaticResponse::Index));
    assert!(matches!(static_response("missing.png", false), StaticResponse::NotFound));
    match static_response("style.css", true) {
        StaticResponse::Asset { content_type } => assert_eq!(content_type, "text/css"),
        other => panic!("unexpected {:?}", other),
    }
    match static_response("blob.unknownext", true) {
        StaticResponse::Asset { content_type } => assert_eq!(content_type, "application/octet-stream"),
        other => panic!("unexpected {:?}", other),
    }
}

#[test]
fn demo_flag_is_written_into_the_index() {
    let page = b"<script>window.demo = __IS_DEMO__; x = __IS_DEMO__</script>".to_vec();
    let on = String::from_utf8(render_index(&page, true)).unwrap();
    assert_eq!(on, "<script>window.demo = true; x = true</script>");
    let off = String::from_utf8(render_index(&page, false)).unwrap();
    assert_eq!(off, "<script>window.demo = false; x = false</script>");
    assert_eq!(render_index(&b"no token".to_vec(), true), b"no token".to_vec());
}

#[test]
fn demo_token_occurrences_do_not_overlap() {
    let page = b"___IS_DEMO___IS_DEMO__".to_vec();
    let out = String::from_utf8(render_index(&page, true)).unwrap();
    assert_eq!(out, "_true_IS_DEMO__");
}
