use enuma::cipher::unpack_custom_kwik;
use enuma::error::ResolveError;
use enuma::resolver::{
    decode_kwik_embed_page, decode_kwik_f_page, embed_path_from, search_packer_invocations, stream_url_from,
    PackerInvocation,
};
use enuma::session::{origin, Action, PageEvent, Resolver, Stage};

const CHARSET: &str = "0123456789abcdefghijklmnopqrstuvwxyzABCDEFGHIJKLMNOPQRSTUVWXYZ+/";

fn encode(bytes: &[u8], charset: &str, offset: u64, radix: u32) -> String {
    let cs: Vec<char> = charset.chars().collect();
    let mut out = String::new();
    for &b in bytes {
        let mut v = b as u64 + offset;
        let mut digits = Vec::new();
        loop {
            digits.push(cs[(v % radix as u64) as usize]);
            v /= radix as u64;
            if v == 0 {
                break;
            }
        }
        for c in digits.iter().rev() {
            out.push(*c);
        }
        out.push(cs[radix as usize]);
    }
    out
}

fn cipher_page(plain: &str) -> String {
    let ct = encode(plain.as_bytes(), CHARSET, 33, 7);
    format!(
        "<html><script>eval(function(h,u,n,t,e,r){{r=\"\";for(var i=0;i<h.length;i++){{r+=h[i]}}return decodeURIComponent(escape(r))}}(\"{}\", 51, \"{}\", 33, 7, 29))</script></html>",
        ct, CHARSET
    )
}

fn packer_page(packed: &str, base: u32, words: &str) -> String {
    format!(
        "<script>eval(function(p,a,c,k,e,d){{while(c--){{if(k[c]){{p=p.replace(new RegExp('\\\\b'+c.toString(a)+'\\\\b','g'),k[c])}}}}return p}}('{}',{},{},'{}'.split('|'),0,{{}}))</script>",
        packed,
        base,
        words.split('|').count(),
        words
    )
}

const PACKED: &str = "0 1='2://3.4/5/6.7';";
const WORDS: &str = "var|src|https|cdn|example|video|master|m3u8";

#[test]
fn entry_page_cipher_leads_to_embed_fetch() {
    let html = cipher_page("var url = '/e/abc123';");
    assert_eq!(decode_kwik_f_page(&html), Ok("/e/abc123".to_string()));
    let entry = "https://kwik.cx/f/abc123".to_string();
    let (mut r, first) = Resolver::new(entry.clone());
    assert_eq!(
        first,
        Action::Fetch { url: entry.clone(), referrer: "https://kwik.cx/".to_string() }
    );
    let next = r.step(PageEvent::Fetched(html));
    assert_eq!(
        next,
        Action::Fetch { url: "https://kwik.cx/e/abc123".to_string(), referrer: entry.clone() }
    );
    assert_eq!(r.stage, Stage::AwaitingEmbed);
    assert_eq!(r.entry_url, entry);
}

#[test]
fn embed_page_packer_gives_stream_url() {
    let html = packer_page(PACKED, 8, WORDS);
    assert_eq!(decode_kwik_embed_page(&html), Ok("https://cdn.example/video/master.m3u8".to_string()));
}

#[test]
fn embed_page_without_decoders_has_no_stream_url() {
    let html = "<html><body><video src='/static/clip.mp4'></video></body></html>";
    assert_eq!(decode_kwik_embed_page(html), Err(ResolveError::NoStreamUrl));
}

#[test]
fn embed_page_cipher_gives_stream_url() {
    let html = cipher_page("const source='https://na-01.cdn/stream/01/uwu.m3u8';");
    assert_eq!(decode_kwik_embed_page(&html), Ok("https://na-01.cdn/stream/01/uwu.m3u8".to_string()));
}

#[test]
fn embed_page_falls_back_to_packer_after_cipher_without_url() {
    let html = cipher_page("nothing to see") + &packer_page(PACKED, 8, WORDS);
    assert_eq!(decode_kwik_embed_page(&html), Ok("https://cdn.example/video/master.m3u8".to_string()));
}

#[test]
fn embed_page_tries_packers_in_order() {
    let html = packer_page("0 1", 10, "no|url") + &packer_page(PACKED, 8, WORDS);
    assert_eq!(decode_kwik_embed_page(&html), Ok("https://cdn.example/video/master.m3u8".to_string()));
}

const MALFORMED_CIPHER: &str = "eval(function(a,b,c,d,e,f){x}(\"abc\",1,\"abcd\",0,9,2))";

#[test]
fn embed_page_malformed_cipher_falls_back_to_packer() {
    assert_eq!(unpack_custom_kwik(MALFORMED_CIPHER), Err(ResolveError::MalformedCipherParameters));
    let html = MALFORMED_CIPHER.to_string() + &packer_page(PACKED, 8, WORDS);
    assert_eq!(decode_kwik_embed_page(&html), Ok("https://cdn.example/video/master.m3u8".to_string()));
}

#[test]
fn embed_page_malformed_cipher_alone_has_no_stream_url() {
    assert_eq!(decode_kwik_embed_page(MALFORMED_CIPHER), Err(ResolveError::NoStreamUrl));
}

#[test]
fn embed_page_passes_over_malformed_packer() {
    let html = packer_page("0", 10, "a").replace("',10,", "',99999999999999999999999,")
        + &packer_page(PACKED, 8, WORDS);
    assert_eq!(decode_kwik_embed_page(&html), Ok("https://cdn.example/video/master.m3u8".to_string()));
    let alone = packer_page("0", 10, "a").replace("',10,", "',99999999999999999999999,");
    assert_eq!(decode_kwik_embed_page(&alone), Err(ResolveError::NoStreamUrl));
}

#[test]
fn entry_page_literal_link_fallback() {
    let html = "<iframe src=\"https://kwik.cx/e/Q1w2E3\"></iframe>";
    assert_eq!(decode_kwik_f_page(html), Ok("/e/Q1w2E3".to_string()));
}

#[test]
fn entry_page_without_path() {
    assert_eq!(decode_kwik_f_page("<html></html>"), Err(ResolveError::NoEmbedPath));
    let html = cipher_page("var other = 1;");
    assert_eq!(decode_kwik_f_page(&html), Err(ResolveError::NoEmbedPath));
}

#[test]
fn stream_url_from_outcomes() {
    let calls = vec![PackerInvocation {
        packed: PACKED.to_string(),
        base_text: "8".to_string(),
        dictionary: WORDS.to_string(),
        separator: '|',
    }];
    let expected = Ok("https://cdn.example/video/master.m3u8".to_string());
    assert_eq!(stream_url_from(Ok(None), &calls), expected);
    assert_eq!(stream_url_from(Ok(Some("no url".to_string())), &calls), expected);
    assert_eq!(
        stream_url_from(Ok(Some("'http://a/b.m3u8'".to_string())), &calls),
        Ok("http://a/b.m3u8".to_string())
    );
    assert_eq!(stream_url_from(Err(ResolveError::MalformedCipherParameters), &calls), expected);
    assert_eq!(
        stream_url_from(Err(ResolveError::MalformedCipherParameters), &Vec::new()),
        Err(ResolveError::NoStreamUrl)
    );
    assert_eq!(stream_url_from(Ok(None), &Vec::new()), Err(ResolveError::NoStreamUrl));
    assert_eq!(search_packer_invocations(&calls), expected);
}

#[test]
fn resolver_full_run() {
    let entry = "https://kwik.cx/f/zz".to_string();
    let (mut r, _) = Resolver::new(entry.clone());
    let a = r.step(PageEvent::Fetched("<a href='https://kwik.cx/e/zz9'>".to_string()));
    assert_eq!(a, Action::Fetch { url: "https://kwik.cx/e/zz9".to_string(), referrer: entry });
    let a = r.step(PageEvent::Fetched(packer_page(PACKED, 8, WORDS)));
    assert_eq!(a, Action::Finish(Ok("https://cdn.example/video/master.m3u8".to_string())));
    assert_eq!(r.stage, Stage::Finished);
}

#[test]
fn resolver_fetch_failures() {
    let (mut r, _) = Resolver::new("https://kwik.cx/f/a".to_string());
    assert_eq!(r.step(PageEvent::FetchFailed), Action::Finish(Err(ResolveError::FetchFailed)));
    assert_eq!(r.stage, Stage::Finished);
    let (mut r, _) = Resolver::new("https://kwik.cx/f/a".to_string());
    let _ = r.step(PageEvent::Fetched("https://kwik.cx/e/b".to_string()));
    assert_eq!(r.step(PageEvent::FetchFailed), Action::Finish(Err(ResolveError::FetchFailed)));
}

#[test]
fn resolver_entry_failure_ends() {
    let (mut r, _) = Resolver::new("https://kwik.cx/f/a".to_string());
    assert_eq!(r.step(PageEvent::Fetched("<html/>".to_string())), Action::Finish(Err(ResolveError::NoEmbedPath)));
    assert_eq!(r.stage, Stage::Finished);
}

#[test]
fn origin_value() {
    assert_eq!(origin(), "https://kwik.cx");
}

#[test]
fn embed_path_from_outcomes() {
    let page = "x https://kwik.cx/e/L1nk y";
    assert_eq!(
        embed_path_from(Ok(Some("var url = '/e/fromCipher';".to_string())), page),
        Ok("/e/fromCipher".to_string())
    );
    assert_eq!(embed_path_from(Ok(Some("nothing".to_string())), page), Ok("/e/L1nk".to_string()));
    assert_eq!(embed_path_from(Ok(None), page), Ok("/e/L1nk".to_string()));
    assert_eq!(embed_path_from(Ok(None), "none"), Err(ResolveError::NoEmbedPath));
    assert_eq!(embed_path_from(Err(ResolveError::MalformedCipherParameters), page), Ok("/e/L1nk".to_string()));
    assert_eq!(
        embed_path_from(Err(ResolveError::MalformedCipherParameters), "none"),
        Err(ResolveError::NoEmbedPath)
    );
}

#[test]
fn entry_page_malformed_radix_falls_back_to_link() {
    let html = "eval(function(a,b,c,d,e,f){x}(\"abc\",1,\"abcd\",0,4,2)) https://kwik.cx/e/Q1w2";
    assert_eq!(decode_kwik_f_page(html), Ok("/e/Q1w2".to_string()));
}

#[test]
fn entry_page_malformed_radix_without_link() {
    let (mut r, _) = Resolver::new("https://kwik.cx/f/a".to_string());
    let a = r.step(PageEvent::Fetched(MALFORMED_CIPHER.to_string()));
    assert_eq!(a, Action::Finish(Err(ResolveError::NoEmbedPath)));
    assert_eq!(r.stage, Stage::Finished);
}
