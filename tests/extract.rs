use enuma::extract::{extract_embed_link, extract_embed_path, extract_m3u8};

#[test]
fn manifest_in_single_quotes() {
    let t = "file:'https://cdn.example/a/master.m3u8',type:'hls'";
    assert_eq!(extract_m3u8(t), Some("https://cdn.example/a/master.m3u8".to_string()));
}

#[test]
fn manifest_in_double_quotes_with_whitespace() {
    let t = "source = \"  \n https://cdn.example/b.m3u8 \t\" ;";
    assert_eq!(extract_m3u8(t), Some("https://cdn.example/b.m3u8".to_string()));
}

#[test]
fn manifest_over_http() {
    assert_eq!(extract_m3u8("x http://h/v.m3u8'"), Some("http://h/v.m3u8".to_string()));
}

#[test]
fn manifest_takes_longest_quote_free_run() {
    let t = "'https://h/a.m3u8?next=b.m3u8'";
    assert_eq!(extract_m3u8(t), Some("https://h/a.m3u8?next=b.m3u8".to_string()));
}

#[test]
fn manifest_leftmost_wins() {
    let t = "'https://one/x.m3u8' 'https://two/y.m3u8'";
    assert_eq!(extract_m3u8(t), Some("https://one/x.m3u8".to_string()));
}

#[test]
fn manifest_absent() {
    assert_eq!(extract_m3u8("'https://h/video.mp4' 'https://.m3u8'"), None);
    assert_eq!(
        extract_m3u8("https://h/video.mp4 and https://.m3u8"),
        Some("https://h/video.mp4 and https://.m3u8".to_string())
    );
    assert_eq!(extract_m3u8(""), None);
}

#[test]
fn embed_path_assignment() {
    assert_eq!(extract_embed_path("var url = '/e/abc123';"), Some("/e/abc123".to_string()));
    assert_eq!(extract_embed_path("var\turl='/e/x9'"), Some("/e/x9".to_string()));
}

#[test]
fn embed_path_needs_space_after_var() {
    assert_eq!(extract_embed_path("varurl = '/e/abc';"), None);
    assert_eq!(extract_embed_path("var url = '/f/abc';"), None);
    assert_eq!(extract_embed_path("var url = '/e/';"), None);
}

#[test]
fn embed_link_strips_origin() {
    let html = "<a href=\"https://kwik.cx/e/Zx81q?x=1\">";
    assert_eq!(extract_embed_link(html), Some("/e/Zx81q".to_string()));
    assert_eq!(extract_embed_link("https://kwik.cx/e/"), None);
}

#[test]
fn manifest_in_quotes_after_other_text() {
    let t = "player.setup({file: \" https://cdn.example/hls/v.m3u8\t\", image: 'https://x/p.m3u8'})";
    assert_eq!(extract_m3u8(t), Some("https://cdn.example/hls/v.m3u8".to_string()));
}
