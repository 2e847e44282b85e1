use linera_lite::crypto::{ChainId, CryptoError, CryptoHash};
use linera_lite::explorer::{
    chain_id_from_args, default_chain, find_arg, find_hash_arg, format_bytes, format_hex_bytes, page_name_and_args,
    page_path, page_request, path_route, resubscribe_to, short_app_id, shown_page, Shown, short_crypto_hash, strip_prefix, url, AddressKind, Config,
    PageError, PageRef, PageRequest, PathRoute, Protocol,
};
use linera_lite::json::Json;

fn hash(seed: u8) -> CryptoHash {
    let bytes: Vec<u8> = (0u8..32).map(|i| i.wrapping_mul(7).wrapping_add(seed)).collect();
    CryptoHash::from_bytes(&bytes)
}

fn args(pairs: &[(&str, &str)]) -> Vec<(String, String)> {
    pairs.iter().map(|(k, v)| (k.to_string(), v.to_string())).collect()
}

#[test]
fn default_config_and_urls() {
    let config = Config::default();
    assert_eq!(config.indexer, "localhost:8081");
    assert_eq!(config.node, "localhost:8080");
    assert!(!config.tls);
    assert_eq!(url(&config, Protocol::Http, AddressKind::Node), "http://localhost:8080");
    assert_eq!(url(&config, Protocol::Websocket, AddressKind::Indexer), "ws://localhost:8081");
    let tls = Config { indexer: "i.example".to_string(), node: "n.example".to_string(), tls: true };
    assert_eq!(url(&tls, Protocol::Http, AddressKind::Indexer), "https://i.example");
    assert_eq!(url(&tls, Protocol::Websocket, AddressKind::Node), "wss://n.example");
}

#[test]
fn find_arg_takes_the_first_match() {
    let a = args(&[("x", "1"), ("y", "2"), ("x", "3")]);
    assert_eq!(find_arg(&a, "x"), Some("1".to_string()));
    assert_eq!(find_arg(&a, "y"), Some("2".to_string()));
    assert_eq!(find_arg(&a, "z"), None);
}

#[test]
fn find_hash_arg_parses_or_fails() {
    let h = hash(1);
    let a = args(&[("block", &h.to_hex()), ("bad", "zz"), ("short", "abcd")]);
    assert_eq!(find_hash_arg(&a, "block"), Ok(Some(h)));
    assert_eq!(find_hash_arg(&a, "none"), Ok(None));
    assert_eq!(find_hash_arg(&a, "bad"), Err(CryptoError::NonHexDigits));
    assert_eq!(find_hash_arg(&a, "short"), Err(CryptoError::IncorrectHashSize(2)));
}

#[test]
fn chain_from_arguments() {
    let current = ChainId(hash(1));
    let other = ChainId(hash(2));
    assert_eq!(chain_id_from_args(current, &args(&[]), false), Ok((current, false)));
    assert_eq!(chain_id_from_args(current, &args(&[]), true), Ok((current, true)));
    let same = args(&[("chain", &current.0.to_hex())]);
    assert_eq!(chain_id_from_args(current, &same, false), Ok((current, false)));
    assert_eq!(chain_id_from_args(current, &same, true), Ok((current, true)));
    let changed = args(&[("chain", &other.0.to_hex())]);
    assert_eq!(chain_id_from_args(current, &changed, false), Ok((other, true)));
    assert_eq!(chain_id_from_args(current, &args(&[("chain", "q")]), false), Err(CryptoError::NonHexDigits));
}

#[test]
fn default_chain_choice() {
    let a = ChainId(hash(1));
    let b = ChainId(hash(2));
    assert_eq!(default_chain(Some(a), &[b]), a);
    assert_eq!(default_chain(None, &[b, a]), b);
    assert_eq!(default_chain(None, &[]), ChainId::root(0));
}

#[test]
fn short_forms() {
    let h = hash(3);
    let shown = short_crypto_hash(h.to_hex());
    assert_eq!(shown, hex::encode(&h.as_bytes()[..8]));
    let id: String = (0..160).map(|i| char::from(b'a' + (i % 26) as u8)).collect();
    let expected = format!("{}..{}..{}..", &id[..4], &id[64..68], &id[152..156]);
    assert_eq!(short_app_id(id), expected);
}

#[test]
fn hex_bytes_elided_when_long() {
    assert_eq!(format_hex_bytes(&[0xab, 0x01]), "ab01");
    let b64: Vec<u8> = vec![0x11; 64];
    assert_eq!(format_hex_bytes(&b64), "11".repeat(64));
    let mut b65: Vec<u8> = vec![0x22; 65];
    b65[0] = 0xab;
    b65[64] = 0xcd;
    assert_eq!(format_hex_bytes(&b65), "ab22..22cd");
}

#[test]
fn page_names_and_arguments() {
    let h = hash(4);
    let (name, a) = page_name_and_args(&PageRef::Block(h));
    assert_eq!(name, "block");
    assert_eq!(a, args(&[("block", &h.to_hex())]));
    let (name, a) = page_name_and_args(&PageRef::Home);
    assert_eq!(name, "");
    assert!(a.is_empty());
    let app = PageRef::Application { id: "id".to_string(), json: "{\"id\":\"id\"}".to_string() };
    let (name, a) = page_name_and_args(&app);
    assert_eq!(name, "application");
    assert_eq!(a, args(&[("app", "{\"id\":\"id\"}")]));
    let (name, _) = page_name_and_args(&PageRef::Operations);
    assert_eq!(name, "operations");
}

#[test]
fn reloading_a_page_asks_for_it_again() {
    let h = hash(5);
    let (name, a) = page_name_and_args(&PageRef::Block(h));
    assert!(matches!(page_request(&name, &a), Ok(PageRequest::Block(Some(x))) if x == h));
    let (name, a) = page_name_and_args(&PageRef::Operation(h));
    assert!(matches!(page_request(&name, &a), Ok(PageRequest::Operation(Some(x))) if x == h));
    let (name, a) = page_name_and_args(&PageRef::Blocks);
    assert!(matches!(page_request(&name, &a), Ok(PageRequest::Blocks(Some(20)))));
    let (name, a) = page_name_and_args(&PageRef::Error);
    assert!(matches!(page_request(&name, &a), Err(PageError::Message(m)) if m == "unknown error"));
}

#[test]
fn page_requests_and_their_errors() {
    assert!(matches!(page_request("", &[]), Ok(PageRequest::Home)));
    assert!(matches!(page_request("block", &[]), Ok(PageRequest::Block(None))));
    assert!(matches!(
        page_request("block", &args(&[("block", "xyz")])),
        Err(PageError::InvalidHash(CryptoError::NonHexDigits))
    ));
    assert!(matches!(page_request("applications", &[]), Ok(PageRequest::Applications)));
    assert!(matches!(page_request("application", &[]), Err(PageError::Message(m)) if m == "unknown application"));
    assert!(matches!(
        page_request("application", &args(&[("app", "{}")])),
        Ok(PageRequest::Application(a)) if a == "{}"
    ));
    assert!(matches!(page_request("operations", &[]), Ok(PageRequest::Operations)));
    assert!(matches!(
        page_request("error", &args(&[("msg", "boom")])),
        Err(PageError::Message(m)) if m == "boom"
    ));
    assert!(matches!(page_request("nowhere", &[]), Err(PageError::Message(m)) if m == "unknown page"));
}

#[test]
fn path_routes() {
    assert!(matches!(path_route("/blocks"), PathRoute::Blocks));
    assert!(matches!(path_route("/applications"), PathRoute::Applications));
    assert!(matches!(path_route("/block/abc"), PathRoute::Block(h) if h == "abc"));
    assert!(matches!(path_route("/application/app1"), PathRoute::Application(a) if a == "app1"));
    assert!(matches!(path_route("/"), PathRoute::Default));
    assert!(matches!(path_route("/blocksx"), PathRoute::Default));
    assert_eq!(strip_prefix("/block/x", "/block/"), Some("x".to_string()));
    assert_eq!(strip_prefix("/blo", "/block/"), None);
}

#[test]
fn page_paths() {
    let h = hash(6);
    let chain = ChainId(hash(7));
    let c = chain.0.to_hex();
    assert_eq!(page_path(&PageRef::Unloaded, chain), None);
    assert_eq!(page_path(&PageRef::Home, chain), Some(format!("/?chain={}", c)));
    assert_eq!(page_path(&PageRef::Blocks, chain), Some(format!("/blocks?chain={}", c)));
    assert_eq!(page_path(&PageRef::Block(h), chain), Some(format!("/block/{}?chain={}", h.to_hex(), c)));
    assert_eq!(page_path(&PageRef::Operation(h), chain), Some(format!("/operation/{}?chain={}", h.to_hex(), c)));
    let app = PageRef::Application { id: "app7".to_string(), json: String::new() };
    assert_eq!(page_path(&app, chain), Some("/application/app7".to_string()));
    assert_eq!(page_path(&PageRef::Error, chain), Some("/error".to_string()));
}

#[test]
fn block_location_routes_back_to_the_block() {
    let h = hash(8);
    let chain = ChainId(hash(9));
    let location = page_path(&PageRef::Block(h), chain).unwrap();
    let path = location.split('?').next().unwrap();
    match path_route(path) {
        PathRoute::Block(text) => assert_eq!(CryptoHash::from_str(&text), Ok(h)),
        _ => panic!("not a block route"),
    }
}

fn num(n: u32) -> Json {
    Json::Number(n.to_string())
}

fn bytes_field(bytes: &[u32]) -> Json {
    Json::Object(vec![(
        "bytes".to_string(),
        Json::Array(bytes.iter().map(|b| num(*b)).collect()),
    )])
}

#[test]
fn bytes_fields_are_shown_in_hexadecimal() {
    let page = Json::Object(vec![
        ("hash".to_string(), Json::String("h".to_string())),
        ("content".to_string(), Json::Array(vec![bytes_field(&[0, 171, 255]), Json::Null])),
    ]);
    let shown = format_bytes(&page);
    let expected = Json::Object(vec![
        ("hash".to_string(), Json::String("h".to_string())),
        (
            "content".to_string(),
            Json::Array(vec![
                Json::Object(vec![("bytes".to_string(), Json::String("00abff".to_string()))]),
                Json::Null,
            ]),
        ),
    ]);
    assert!(shown.equals(&expected));
}

#[test]
fn long_bytes_are_elided_and_odd_values_kept() {
    let long: Vec<u32> = (0..70).collect();
    let shown = format_bytes(&bytes_field(&long));
    assert!(shown.equals(&Json::Object(vec![("bytes".to_string(), Json::String("0001..4445".to_string()))])));
    let odd = bytes_field(&[1, 256, 300]);
    assert!(format_bytes(&odd).equals(&Json::Object(vec![("bytes".to_string(), Json::String("01002c".to_string()))])));
    let text = Json::Object(vec![("bytes".to_string(), Json::String("x7".to_string()))]);
    assert!(format_bytes(&text).equals(&Json::Object(vec![("bytes".to_string(), Json::String("0007".to_string()))])));
}

#[test]
fn bytes_values_are_copied_as_a_byte_array_would_be() {
    let field = |v: Json| Json::Object(vec![("bytes".to_string(), v)]);
    let shown = |s: &str| field(Json::String(s.to_string()));
    let mixed = Json::Array(vec![
        Json::Number("-1".to_string()),
        Json::Bool(true),
        Json::Bool(false),
        Json::Null,
        Json::Number("9007199254740992".to_string()),
    ]);
    assert!(format_bytes(&field(mixed)).equals(&shown("ff01000000")));
    assert!(format_bytes(&field(Json::Number("5".to_string()))).equals(&shown("")));
    assert!(format_bytes(&field(Json::Bool(true))).equals(&shown("")));
    assert!(format_bytes(&field(Json::Object(vec![]))).equals(&shown("")));
    // a character beyond the basic plane takes two UTF-16 units
    assert!(format_bytes(&field(Json::String("1\u{1f600}".to_string()))).equals(&shown("010000")));
    // values whose copy goes through floating point are kept
    let fraction = field(Json::Array(vec![Json::Number("1.5".to_string())]));
    assert!(format_bytes(&fraction).equals(&fraction));
    let null = field(Json::Null);
    assert!(format_bytes(&null).equals(&null));
}

#[test]
fn initial_data_shows_the_first_root_chain() {
    let data = linera_lite::explorer::Data::initial(Config::default());
    assert!(matches!(data.page, PageRef::Unloaded));
    assert!(data.chains.is_empty());
    assert_eq!(data.chain, ChainId::root(0));
    assert_eq!(data.config.node, "localhost:8080");
}

#[test]
fn json_text_escapes_like_serde_json() {
    for text in ["plain", "a\"b\\c", "line\nbreak\ttab\r", "\u{1}\u{8}\u{c}\u{1f}", "é/ü"] {
        assert_eq!(linera_lite::explorer::json_text(text), serde_json::Value::String(text.to_string()).to_string());
    }
}

#[test]
fn opening_locations() {
    let chain = ChainId(hash(3));
    let c = chain.0.to_hex();
    let q = args(&[("x", "1")]);
    let (page, a) = linera_lite::explorer::init_route("/blocks", "http://n", chain, q.clone());
    assert_eq!(page, Some("blocks".to_string()));
    assert_eq!(a, args(&[("x", "1"), ("chain", &c)]));
    let (page, a) = linera_lite::explorer::init_route("/block/abc", "http://n", chain, vec![]);
    assert_eq!(page, Some("block".to_string()));
    assert_eq!(a, args(&[("chain", &c), ("block", "abc")]));
    let (page, a) = linera_lite::explorer::init_route("/application/app1", "http://n", chain, vec![]);
    assert_eq!(page, Some("application".to_string()));
    let mut map = serde_json::Map::new();
    map.insert("id".to_string(), serde_json::Value::String("app1".to_string()));
    map.insert("link".to_string(), serde_json::Value::String("http://n/applications/app1".to_string()));
    map.insert("description".to_string(), serde_json::Value::String(String::new()));
    let expected = serde_json::Value::Object(map).to_string();
    assert_eq!(a, args(&[("chain", &c), ("app", &expected)]));
    let (page, a) = linera_lite::explorer::init_route("/", "http://n", chain, vec![]);
    assert_eq!(page, None);
    assert_eq!(a, args(&[("chain", &c)]));
}

#[test]
fn route_targets() {
    let h = hash(4);
    let (name, a) = linera_lite::explorer::route_target(None, &PageRef::Block(h), vec![]);
    assert_eq!(name, "block");
    assert_eq!(a, args(&[("block", &h.to_hex())]));
    let (name, a) = linera_lite::explorer::route_target(Some("blocks".to_string()), &PageRef::Block(h), args(&[("y", "2")]));
    assert_eq!(name, "blocks");
    assert_eq!(a, args(&[("y", "2")]));
}

#[test]
fn short_app_id_cuts_utf8_bytes() {
    let mut id = String::from("\u{e9}ab");
    id.push_str(&"0".repeat(60));
    id.push_str("\u{fc}cd");
    id.push_str(&"1".repeat(84));
    id.push_str("wxyz");
    id.push_str("tail");
    assert_eq!(id.len(), 160);
    assert_eq!(short_app_id(id), "\u{e9}ab..\u{fc}cd..wxyz..");
}

#[test]
fn shown_page_falls_back_to_the_error_page() {
    let ok: Result<(u32, String), String> = Ok((7, "/blocks?chain=ab".to_string()));
    match shown_page(ok) {
        (Shown::Page(p), path) => {
            assert_eq!(p, 7);
            assert_eq!(path, "/blocks?chain=ab");
        }
        _ => panic!("expected the loaded page"),
    }
    let err: Result<(u32, String), String> = Err("no such block".to_string());
    match shown_page(err) {
        (Shown::Error(e), path) => {
            assert_eq!(e, "no such block");
            assert_eq!(path, "/error");
        }
        _ => panic!("expected the error page"),
    }
}

#[test]
fn resubscribes_only_when_the_chain_changed() {
    let config = Config { indexer: "localhost:8081".to_string(), node: "localhost:8080".to_string(), tls: true };
    assert_eq!(resubscribe_to(&config, true), Some("wss://localhost:8080".to_string()));
    assert_eq!(resubscribe_to(&config, false), None);
}
