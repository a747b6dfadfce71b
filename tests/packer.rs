use enuma::error::ResolveError;
use enuma::packer::{resolve_token, unpack_dean_edwards};
use enuma::resolver::{decode_packer_invocation, packer_dictionary, PackerInvocation};

fn dict(words: &[&str]) -> Vec<String> {
    words.iter().map(|w| w.to_string()).collect()
}

#[test]
fn token_in_range_is_replaced() {
    let d = dict(&["zero", "one", "two"]);
    assert_eq!(resolve_token("2", 10, &d), "two");
    assert_eq!(resolve_token("0", 10, &d), "zero");
}

#[test]
fn token_parsed_in_base_62() {
    let mut words = vec![String::new(); 100];
    words[10] = "ten".to_string();
    words[36] = "thirty_six".to_string();
    words[62 + 1] = "sixty_three".to_string();
    assert_eq!(resolve_token("a", 62, &words), "ten");
    assert_eq!(resolve_token("A", 62, &words), "thirty_six");
    assert_eq!(resolve_token("11", 62, &words), "sixty_three");
}

#[test]
fn empty_slot_keeps_numeral() {
    let d = dict(&["a", "", "c"]);
    assert_eq!(resolve_token("1", 10, &d), "1");
}

#[test]
fn out_of_range_token_kept() {
    let d = dict(&["a", "b"]);
    assert_eq!(resolve_token("5", 10, &d), "5");
    assert_eq!(resolve_token("zzzzzzzzzzzzzzzzzzzzzzzz", 62, &d), "zzzzzzzzzzzzzzzzzzzzzzzz");
}

#[test]
fn digit_not_below_base_keeps_token() {
    let d = dict(&["a", "b", "c", "d", "e", "f", "g", "h", "i", "j", "k", "l"]);
    // 'b' is worth 11, not below base 10.
    assert_eq!(resolve_token("b", 10, &d), "b");
    assert_eq!(resolve_token("b", 12, &d), "l");
    assert_eq!(resolve_token("x_y", 62, &d), "x_y");
}

#[test]
fn unpack_substitutes_words_only() {
    let d = dict(&["var", "src", "https", "cdn", "example", "video", "master", "m3u8"]);
    let out = unpack_dean_edwards("0 1='2://3.4/5/6.7';", 8, &d);
    assert_eq!(out, "var src='https://cdn.example/video/master.m3u8';");
}

#[test]
fn unpack_keeps_empty_slots_and_identifiers() {
    let d = dict(&["alpha", "", "gamma"]);
    let out = unpack_dean_edwards("0(1,2) + foo_9 - 9", 10, &d);
    assert_eq!(out, "alpha(1,gamma) + foo_9 - 9");
}

#[test]
fn unpack_treats_unicode_letters_as_word_characters() {
    let d = dict(&["zero", "one"]);
    // "é1" is one token, and not a numeral.
    assert_eq!(unpack_dean_edwards("é1 1", 10, &d), "é1 one");
}

#[test]
fn dictionary_split_keeps_empty_entries() {
    assert_eq!(packer_dictionary("a||b|", '|'), dict(&["a", "", "b", ""]));
    assert_eq!(packer_dictionary("", '|'), dict(&[""]));
}

#[test]
fn invocation_with_bad_base_is_malformed() {
    let call = PackerInvocation {
        packed: "0".to_string(),
        base_text: "99999999999999999999999".to_string(),
        dictionary: "a".to_string(),
        separator: '|',
    };
    assert_eq!(decode_packer_invocation(&call).err(), Some(ResolveError::MalformedPackerParameters));
}

#[test]
fn invocation_decodes() {
    let call = PackerInvocation {
        packed: "0 1".to_string(),
        base_text: "62".to_string(),
        dictionary: "hello|world".to_string(),
        separator: '|',
    };
    assert_eq!(decode_packer_invocation(&call), Ok("hello world".to_string()));
}

#[test]
fn empty_dictionary_leaves_text_unchanged() {
    let text = "0 1=a(2,3);b.c('4')";
    assert_eq!(unpack_dean_edwards(text, 62, &Vec::new()), text);
    assert_eq!(unpack_dean_edwards(text, 62, &dict(&["", "", "", "", ""])), text);
}
