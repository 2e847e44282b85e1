//! The routing logic of the block explorer: addresses, page arguments, which
//! page to load, and how hashes and bytes are shown.
use crate::json::{field_views, json_views, lemma_view, object, Json, JsonValue};
use crate::crypto::{
    bcs_hash_spec, law_hash_text_roundtrip, lemma_hash_bytes, lemma_hex_char, parse_hash_spec, ChainId, CryptoError,
    CryptoHash,
};
use crate::external::{hex_decode_spec, hex_encode, hex_encode_spec, le_bytes};
use vstd::prelude::*;
use vstd::string::{StrSliceExecFns, StringExecFns, StringSliceAdditionalSpecFns};
use vstd::utf8::{decode_utf8, encode_utf8, is_char_boundary, valid_utf8};

verus! {

/// The addresses of the indexer and of the node service, and whether they
/// are reached over TLS.
pub struct Config {
    pub indexer: String,
    pub node: String,
    pub tls: bool,
}

impl Default for Config {
    /// The settings when none was saved: the indexer and the node service on
    /// `localhost`, ports 8081 and 8080, without TLS.
    fn default() -> (r: Self)
        ensures
            r.indexer@ == "localhost:8081"@,
            r.node@ == "localhost:8080"@,
            !r.tls,
    {
        Config { indexer: String::from_str("localhost:8081"), node: String::from_str("localhost:8080"), tls: false }
    }
}

/// The protocol of an address.
pub enum Protocol {
    Http,
    Websocket,
}

/// Which service an address reaches.
pub enum AddressKind {
    Node,
    Indexer,
}

/// The address of a service: the protocol (with `s` under TLS), `://`, and
/// the configured host.
pub open spec fn url_spec(config: &Config, protocol: Protocol, kind: AddressKind) -> Seq<char> {
    (match protocol {
        Protocol::Http => "http"@,
        Protocol::Websocket => "ws"@,
    }) + (if config.tls {
        "s"@
    } else {
        Seq::empty()
    }) + "://"@ + (match kind {
        AddressKind::Node => config.node@,
        AddressKind::Indexer => config.indexer@,
    })
}

/// The address of a service.
pub fn url(config: &Config, protocol: Protocol, kind: AddressKind) -> (r: String)
    ensures
        r@ == url_spec(config, protocol, kind),
{
    let ghost p = protocol;
    let ghost k = kind;
    let mut r = match protocol {
        Protocol::Http => String::from_str("http"),
        Protocol::Websocket => String::from_str("ws"),
    };
    if config.tls {
        r.append("s");
    }
    r.append("://");
    match kind {
        AddressKind::Node => r.append(config.node.as_str()),
        AddressKind::Indexer => r.append(config.indexer.as_str()),
    }
    proof {
        if !config.tls {
            assert(r@ =~= (match p {
                Protocol::Http => "http"@,
                Protocol::Websocket => "ws"@,
            }) + Seq::<char>::empty() + "://"@ + (match k {
                AddressKind::Node => config.node@,
                AddressKind::Indexer => config.indexer@,
            }));
        }
    }
    r
}

/// The chain the explorer shows first: the node's default chain, else the
/// first chain it tracks, else the first root chain.
pub fn default_chain(default: Option<ChainId>, list: &[ChainId]) -> (r: ChainId)
    ensures
        r == match default {
            Some(c) => c,
            None => if list@.len() > 0 {
                list@[0]
            } else {
                ChainId(bcs_hash_spec("ChainDescription::".spec_bytes(), seq![0u8] + le_bytes(0, 4)))
            },
        },
{
    match default {
        Some(c) => c,
        None => {
            if list.len() > 0 {
                list[0]
            } else {
                ChainId::root(0)
            }
        },
    }
}

/// The position of the first argument named `key`, or `None`.
fn find_arg_index(args: &[(String, String)], key: &str) -> (r: Option<usize>)
    ensures
        match r {
            Some(i) => i < args@.len() && args@[i as int].0@ == key@ && forall|j: int|
                0 <= j < i ==> (#[trigger] args@[j]).0@ != key@,
            None => forall|j: int| 0 <= j < args@.len() ==> (#[trigger] args@[j]).0@ != key@,
        },
{
    let k = String::from_str(key);
    let mut i: usize = 0;
    while i < args.len()
        invariant
            i <= args@.len(),
            k@ == key@,
            forall|j: int| 0 <= j < i ==> (#[trigger] args@[j]).0@ != key@,
        decreases args@.len() - i,
    {
        if args[i].0 == k {
            return Some(i);
        }
        i += 1;
    }
    None
}

/// The value of the first argument named `key`.
pub open spec fn arg_spec(args: Seq<(String, String)>, key: Seq<char>) -> Option<Seq<char>> {
    match find_first(args, key) {
        Some(i) => Some(args[i].1@),
        None => None,
    }
}

/// The first argument named `key` read as a hash, if there is one.
pub open spec fn hash_arg_spec(args: Seq<(String, String)>, key: Seq<char>) -> Result<Option<CryptoHash>, CryptoError> {
    match find_first(args, key) {
        None => Ok(None),
        Some(i) => match parse_hash_spec(encode_utf8(args[i].1@)) {
            Ok(h) => Ok(Some(h)),
            Err(e) => Err(e),
        },
    }
}

/// The value of the first argument named `key`.
pub fn find_arg(args: &[(String, String)], key: &str) -> (r: Option<String>)
    ensures
        match r {
            Some(v) => arg_spec(args@, key@) == Some(v@),
            None => arg_spec(args@, key@) is None,
        },
{
    match find_arg_index(args, key) {
        Some(i) => {
            proof {
                lemma_find_first_some(args@, key@, i as int);
            }
            Some(args[i].1.clone())
        },
        None => {
            proof {
                lemma_find_first_none(args@, key@);
            }
            None
        },
    }
}

/// The first argument named `key` read as a hash, if there is one.
pub fn find_hash_arg(args: &[(String, String)], key: &str) -> (r: Result<Option<CryptoHash>, CryptoError>)
    ensures
        r == hash_arg_spec(args@, key@),
{
    match find_arg_index(args, key) {
        None => {
            proof {
                lemma_find_first_none(args@, key@);
            }
            Ok(None)
        },
        Some(i) => {
            proof {
                lemma_find_first_some(args@, key@, i as int);
            }
            match CryptoHash::from_str(args[i].1.as_str()) {
                Ok(h) => Ok(Some(h)),
                Err(e) => Err(e),
            }
        },
    }
}

/// The chain to show: the one named by the `chain` argument if there is one
/// (and whether it differs from `current`, or `init` holds), else `current`
/// (with `init`).
pub fn chain_id_from_args(current: ChainId, args: &[(String, String)], init: bool) -> (r: Result<(ChainId, bool), CryptoError>)
    ensures
        match find_first(args@, "chain"@) {
            None => r == Ok::<(ChainId, bool), CryptoError>((current, init)),
            Some(i) => r == match parse_hash_spec(encode_utf8(args@[i].1@)) {
                Ok(h) => Ok::<(ChainId, bool), CryptoError>((ChainId(h), ChainId(h) != current || init)),
                Err(e) => Err(e),
            },
        },
{
    match find_arg_index(args, "chain") {
        None => {
            proof {
                lemma_find_first_none(args@, "chain"@);
            }
            Ok((current, init))
        },
        Some(i) => {
            proof {
                lemma_find_first_some(args@, "chain"@, i as int);
            }
            match ChainId::from_str(args[i].1.as_str()) {
                Ok(id) => Ok((id, id != current || init)),
                Err(e) => Err(e),
            }
        },
    }
}

/// The position of the first argument named `key`.
pub open spec fn find_first(args: Seq<(String, String)>, key: Seq<char>) -> Option<int>
    decreases args.len(),
{
    if args.len() == 0 {
        None
    } else if args.last().0@ == key && find_first(args.drop_last(), key) is None {
        Some(args.len() - 1)
    } else {
        find_first(args.drop_last(), key)
    }
}

pub proof fn lemma_find_first_none(args: Seq<(String, String)>, key: Seq<char>)
    requires
        forall|j: int| 0 <= j < args.len() ==> (#[trigger] args[j]).0@ != key,
    ensures
        find_first(args, key) is None,
    decreases args.len(),
{
    if args.len() > 0 {
        let d = args.drop_last();
        assert forall|j: int| 0 <= j < d.len() implies (#[trigger] d[j]).0@ != key by {
            assert(d[j] == args[j]);
        }
        lemma_find_first_none(d, key);
    }
}

pub proof fn lemma_find_first_some(args: Seq<(String, String)>, key: Seq<char>, i: int)
    requires
        0 <= i < args.len(),
        args[i].0@ == key,
        forall|j: int| 0 <= j < i ==> (#[trigger] args[j]).0@ != key,
    ensures
        find_first(args, key) == Some(i),
    decreases args.len(),
{
    let d = args.drop_last();
    if i == args.len() - 1 {
        assert forall|j: int| 0 <= j < d.len() implies (#[trigger] d[j]).0@ != key by {
            assert(d[j] == args[j]);
        }
        lemma_find_first_none(d, key);
    } else {
        assert forall|j: int| 0 <= j < i implies (#[trigger] d[j]).0@ != key by {
            assert(d[j] == args[j]);
        }
        assert(d[i] == args[i]);
        lemma_find_first_some(d, key, i);
    }
}

/// A hash shown short: the hexadecimal text of its first eight bytes.
pub open spec fn short_hash_spec(h: CryptoHash) -> Seq<char> {
    hex_encode_spec(h.bytes().subrange(0, 8))
}

/// Shows the hash that the hexadecimal text `s` stands for in short form.
pub fn short_crypto_hash(s: String) -> (r: String)
    requires
        parse_hash_spec(encode_utf8(s@)) is Ok,
    ensures
        r@ == short_hash_spec(parse_hash_spec(encode_utf8(s@))->Ok_0),
{
    let hash = match CryptoHash::from_str(s.as_str()) {
        Ok(h) => h,
        Err(_) => {
            proof {
                assert(false);
            }
            CryptoHash { part1: 0, part2: 0, part3: 0, part4: 0 }
        },
    };
    let bytes = hash.as_bytes();
    let mut head: Vec<u8> = Vec::new();
    let mut i: usize = 0;
    while i < 8
        invariant
            i <= 8,
            bytes@.len() == 32,
            head@ =~= bytes@.subrange(0, i as int),
        decreases 8 - i,
    {
        head.push(bytes[i]);
        i += 1;
    }
    hex_encode(head.as_slice())
}

/// An application identifier shown short: the text of its UTF-8 bytes 0 to
/// 4, 64 to 68 and 152 to 156, each followed by `..`.
pub open spec fn short_app_id_spec(s: Seq<char>) -> Seq<char> {
    let b = encode_utf8(s);
    decode_utf8(b.subrange(0, 4)) + ".."@ + decode_utf8(b.subrange(64, 68)) + ".."@ + decode_utf8(
        b.subrange(152, 156),
    ) + ".."@
}

/// Whether the UTF-8 bytes of `s` can be cut at 4, 64, 68, 152 and 156: each
/// cut is within the text and starts a character.
pub open spec fn short_app_id_cuts(s: Seq<char>) -> bool {
    let b = encode_utf8(s);
    &&& is_char_boundary(b, 4)
    &&& is_char_boundary(b, 64)
    &&& is_char_boundary(b, 68)
    &&& is_char_boundary(b, 152)
    &&& is_char_boundary(b, 156)
}

/// A cut of valid UTF-8 bytes at `j` is still a cut of what follows an
/// earlier cut at `i`.
proof fn lemma_cut_after(b: Seq<u8>, i: int, j: int)
    requires
        valid_utf8(b),
        is_char_boundary(b, i),
        is_char_boundary(b, j),
        0 <= i <= j,
    ensures
        j <= b.len(),
        valid_utf8(b.subrange(i, b.len() as int)),
        is_char_boundary(b.subrange(i, b.len() as int), j - i),
{
    broadcast use vstd::utf8::valid_utf8_split;

    let sub = b.subrange(i, b.len() as int);
    if j > b.len() {
        assert(!is_char_boundary(b, j));
    }
    if i > b.len() {
        assert(!is_char_boundary(b, i));
    }
    assert(valid_utf8(sub));
    if j == b.len() {
        vstd::utf8::is_char_boundary_start_end_of_seq(sub);
    } else {
        vstd::utf8::is_char_boundary_iff_not_is_continuation_byte(b, j);
        vstd::utf8::is_char_boundary_iff_not_is_continuation_byte(sub, j - i);
        assert(sub[j - i] == b[j]);
    }
}

/// The text of the bytes `from..to` of `t`, where both cut `t` between
/// characters.
fn cut_text<'a>(t: &'a str, from: usize, to: usize) -> (r: &'a str)
    requires
        from <= to,
        is_char_boundary(t.spec_bytes(), from as int),
        is_char_boundary(t.spec_bytes(), to as int),
    ensures
        r@ == decode_utf8(t.spec_bytes().subrange(from as int, to as int)),
{
    let ghost b = t.spec_bytes();
    proof {
        vstd::utf8::encode_utf8_valid_utf8(t@);
        lemma_cut_after(b, from as int, to as int);
    }
    let (_, rest) = t.split_at(from);
    let (piece, _) = rest.split_at(to - from);
    proof {
        assert(piece.spec_bytes() =~= b.subrange(from as int, to as int));
        vstd::utf8::encode_utf8_decode_utf8(piece@);
    }
    piece
}

/// Shows an application identifier in short form.
pub fn short_app_id(s: String) -> (r: String)
    requires
        short_app_id_cuts(s@),
    ensures
        r@ == short_app_id_spec(s@),
{
    let t = s.as_str();
    proof {
        vstd::utf8::encode_utf8_valid_utf8(s@);
        vstd::utf8::is_char_boundary_start_end_of_seq(encode_utf8(s@));
    }
    let mut r = String::from_str(cut_text(t, 0, 4));
    r.append("..");
    r.append(cut_text(t, 64, 68));
    r.append("..");
    r.append(cut_text(t, 152, 156));
    r.append("..");
    r
}

/// How bytes are shown: their hexadecimal text, or, when it is longer than
/// 128 digits, its first four digits, `..` and its last four digits.
pub open spec fn elided_hex_spec(b: Seq<u8>) -> Seq<char> {
    let h = hex_encode_spec(b);
    if h.len() > 128 {
        h.subrange(0, 4) + ".."@ + h.subrange(h.len() - 4, h.len() as int)
    } else {
        h
    }
}

/// Shows bytes in hexadecimal, elided in the middle when long.
pub fn format_hex_bytes(b: &[u8]) -> (r: String)
    ensures
        r@ == elided_hex_spec(b@),
{
    let array_hex = hex_encode(b);
    let hex_len = array_hex.as_str().unicode_len();
    if hex_len > 128 {
        let t = array_hex.as_str();
        let mut r = String::from_str(t.substring_char(0, 4));
        r.append("..");
        r.append(t.substring_char(hex_len - 4, hex_len));
        r
    } else {
        array_hex
    }
}

/// A page of the explorer, as routing needs it: the hash of a block or an
/// operation, and for an application its identifier and its JSON text.
pub enum PageRef {
    Unloaded,
    Home,
    Blocks,
    Block(CryptoHash),
    Applications,
    Application { id: String, json: String },
    Operations,
    Operation(CryptoHash),
    Error,
}

/// What the explorer's page holds: its settings, the page shown, the chains
/// that the node tracks and the chain shown.
pub struct Data {
    pub config: Config,
    pub page: PageRef,
    pub chains: Vec<ChainId>,
    pub chain: ChainId,
}

impl Data {
    /// The data before anything is loaded: no page, no chain list, and the
    /// first root chain.
    pub fn initial(config: Config) -> (r: Data)
        ensures
            r.config == config,
            r.page is Unloaded,
            r.chains@.len() == 0,
            r.chain == ChainId(bcs_hash_spec("ChainDescription::".spec_bytes(), seq![0u8] + le_bytes(0, 4))),
    {
        Data { config, page: PageRef::Unloaded, chains: Vec::new(), chain: ChainId::root(0) }
    }
}

/// A list of named arguments, as pairs of character sequences.
pub open spec fn arg_views(v: Seq<(String, String)>) -> Seq<(Seq<char>, Seq<char>)> {
    Seq::new(v.len(), |i: int| (v[i].0@, v[i].1@))
}

/// The name of a page and the arguments that reload it.
pub open spec fn page_name_and_args_spec(page: PageRef) -> (Seq<char>, Seq<(Seq<char>, Seq<char>)>) {
    match page {
        PageRef::Unloaded | PageRef::Home => (""@, Seq::empty()),
        PageRef::Block(h) => ("block"@, seq![("block"@, hex_encode_spec(h.bytes()))]),
        PageRef::Blocks => ("blocks"@, Seq::empty()),
        PageRef::Applications => ("applications"@, Seq::empty()),
        PageRef::Application { id, json } => ("application"@, seq![("app"@, json@)]),
        PageRef::Operations => ("operations"@, Seq::empty()),
        PageRef::Operation(h) => ("operation"@, seq![("operation"@, hex_encode_spec(h.bytes()))]),
        PageRef::Error => ("error"@, Seq::empty()),
    }
}

/// One named argument.
fn single_arg(name: &str, value: String) -> (r: Vec<(String, String)>)
    ensures
        arg_views(r@) == seq![(name@, value@)],
{
    let mut v: Vec<(String, String)> = Vec::new();
    v.push((String::from_str(name), value));
    assert(arg_views(v@) =~= seq![(name@, v@[0].1@)]);
    v
}

/// The name of a page and the arguments that reload it.
pub fn page_name_and_args(page: &PageRef) -> (r: (String, Vec<(String, String)>))
    ensures
        (r.0@, arg_views(r.1@)) == page_name_and_args_spec(*page),
{
    match page {
        PageRef::Unloaded | PageRef::Home => {
            let v: Vec<(String, String)> = Vec::new();
            assert(arg_views(v@) =~= Seq::<(Seq<char>, Seq<char>)>::empty());
            (String::from_str(""), v)
        },
        PageRef::Block(h) => (String::from_str("block"), single_arg("block", h.to_hex())),
        PageRef::Blocks => {
            let v: Vec<(String, String)> = Vec::new();
            assert(arg_views(v@) =~= Seq::<(Seq<char>, Seq<char>)>::empty());
            (String::from_str("blocks"), v)
        },
        PageRef::Applications => {
            let v: Vec<(String, String)> = Vec::new();
            assert(arg_views(v@) =~= Seq::<(Seq<char>, Seq<char>)>::empty());
            (String::from_str("applications"), v)
        },
        PageRef::Application { id, json } => (String::from_str("application"), single_arg("app", json.clone())),
        PageRef::Operations => {
            let v: Vec<(String, String)> = Vec::new();
            assert(arg_views(v@) =~= Seq::<(Seq<char>, Seq<char>)>::empty());
            (String::from_str("operations"), v)
        },
        PageRef::Operation(h) => (String::from_str("operation"), single_arg("operation", h.to_hex())),
        PageRef::Error => {
            let v: Vec<(String, String)> = Vec::new();
            assert(arg_views(v@) =~= Seq::<(Seq<char>, Seq<char>)>::empty());
            (String::from_str("error"), v)
        },
    }
}

/// What a page needs to be loaded.
#[derive(Debug)]
pub enum PageRequest {
    Home,
    Block(Option<CryptoHash>),
    Blocks(Option<u32>),
    Applications,
    /// An application, given by its JSON text.
    Application(String),
    Operation(Option<CryptoHash>),
    Operations,
}

/// Why a page cannot be loaded.
#[derive(Debug)]
pub enum PageError {
    InvalidHash(CryptoError),
    Message(String),
}

/// What a page request holds, over character sequences.
pub enum PageRequestView {
    Home,
    Block(Option<CryptoHash>),
    Blocks(Option<u32>),
    Applications,
    Application(Seq<char>),
    Operation(Option<CryptoHash>),
    Operations,
}

/// What a page error holds, over character sequences.
pub enum PageErrorView {
    InvalidHash(CryptoError),
    Message(Seq<char>),
}

impl View for PageRequest {
    type V = PageRequestView;

    open spec fn view(&self) -> PageRequestView {
        match self {
            PageRequest::Home => PageRequestView::Home,
            PageRequest::Block(h) => PageRequestView::Block(*h),
            PageRequest::Blocks(l) => PageRequestView::Blocks(*l),
            PageRequest::Applications => PageRequestView::Applications,
            PageRequest::Application(a) => PageRequestView::Application(a@),
            PageRequest::Operation(h) => PageRequestView::Operation(*h),
            PageRequest::Operations => PageRequestView::Operations,
        }
    }
}

impl View for PageError {
    type V = PageErrorView;

    open spec fn view(&self) -> PageErrorView {
        match self {
            PageError::InvalidHash(e) => PageErrorView::InvalidHash(*e),
            PageError::Message(m) => PageErrorView::Message(m@),
        }
    }
}

/// What loading the page named `name` with the arguments `args` needs: the
/// hash of a block or operation comes from the argument of that name, an
/// application from the `app` argument, and the error page fails with the
/// `msg` argument.
pub open spec fn page_request_spec(name: Seq<char>, args: Seq<(String, String)>) -> Result<PageRequestView, PageErrorView> {
    if name == ""@ {
        Ok(PageRequestView::Home)
    } else if name == "block"@ {
        match hash_arg_spec(args, "block"@) {
            Ok(h) => Ok(PageRequestView::Block(h)),
            Err(e) => Err(PageErrorView::InvalidHash(e)),
        }
    } else if name == "blocks"@ {
        Ok(PageRequestView::Blocks(Some(20)))
    } else if name == "applications"@ {
        Ok(PageRequestView::Applications)
    } else if name == "application"@ {
        match arg_spec(args, "app"@) {
            None => Err(PageErrorView::Message("unknown application"@)),
            Some(app) => Ok(PageRequestView::Application(app)),
        }
    } else if name == "operation"@ {
        match hash_arg_spec(args, "operation"@) {
            Ok(h) => Ok(PageRequestView::Operation(h)),
            Err(e) => Err(PageErrorView::InvalidHash(e)),
        }
    } else if name == "operations"@ {
        Ok(PageRequestView::Operations)
    } else if name == "error"@ {
        match arg_spec(args, "msg"@) {
            None => Err(PageErrorView::Message("unknown error"@)),
            Some(msg) => Err(PageErrorView::Message(msg)),
        }
    } else {
        Err(PageErrorView::Message("unknown page"@))
    }
}

/// Whether a text is the literal `lit`.
fn is_literal(s: &String, lit: &str) -> (r: bool)
    ensures
        r == (s@ == lit@),
{
    *s == String::from_str(lit)
}

/// What loading the page named `page_name` with the arguments `args` needs.
pub fn page_request(page_name: &str, args: &[(String, String)]) -> (r: Result<PageRequest, PageError>)
    ensures
        match r {
            Ok(p) => page_request_spec(page_name@, args@) == Ok::<PageRequestView, PageErrorView>(p@),
            Err(e) => page_request_spec(page_name@, args@) == Err::<PageRequestView, PageErrorView>(e@),
        },
{
    let name = String::from_str(page_name);
    if is_literal(&name, "") {
        Ok(PageRequest::Home)
    } else if is_literal(&name, "block") {
        match find_hash_arg(args, "block") {
            Ok(h) => Ok(PageRequest::Block(h)),
            Err(e) => Err(PageError::InvalidHash(e)),
        }
    } else if is_literal(&name, "blocks") {
        Ok(PageRequest::Blocks(Some(20)))
    } else if is_literal(&name, "applications") {
        Ok(PageRequest::Applications)
    } else if is_literal(&name, "application") {
        match find_arg(args, "app") {
            None => Err(PageError::Message(String::from_str("unknown application"))),
            Some(app) => Ok(PageRequest::Application(app)),
        }
    } else if is_literal(&name, "operation") {
        match find_hash_arg(args, "operation") {
            Ok(h) => Ok(PageRequest::Operation(h)),
            Err(e) => Err(PageError::InvalidHash(e)),
        }
    } else if is_literal(&name, "operations") {
        Ok(PageRequest::Operations)
    } else if is_literal(&name, "error") {
        match find_arg(args, "msg") {
            None => Err(PageError::Message(String::from_str("unknown error"))),
            Some(msg) => Err(PageError::Message(msg)),
        }
    } else {
        Err(PageError::Message(String::from_str("unknown page")))
    }
}

/// The rest of `s` after `prefix`, if `s` starts with it.
pub fn strip_prefix(s: &str, prefix: &str) -> (r: Option<String>)
    ensures
        match r {
            Some(rest) => prefix@.len() <= s@.len() && s@.subrange(0, prefix@.len() as int) == prefix@
                && rest@ == s@.subrange(prefix@.len() as int, s@.len() as int),
            None => !(prefix@.len() <= s@.len() && s@.subrange(0, prefix@.len() as int) == prefix@),
        },
{
    let n = s.unicode_len();
    let m = prefix.unicode_len();
    if m > n {
        return None;
    }
    let mut i: usize = 0;
    while i < m
        invariant
            m == prefix@.len(),
            n == s@.len(),
            m <= n,
            i <= m,
            forall|j: int| 0 <= j < i ==> s@[j] == prefix@[j],
        decreases m - i,
    {
        if s.get_char(i) != prefix.get_char(i) {
            assert(s@.subrange(0, m as int)[i as int] == s@[i as int]);
            return None;
        }
        i += 1;
    }
    assert(s@.subrange(0, m as int) =~= prefix@);
    Some(String::from_str(s.substring_char(m, n)))
}

/// Where the explorer opens on a location path: the blocks or applications
/// list, a block or an application named in the path, or the default page.
#[derive(Debug)]
pub enum PathRoute {
    Blocks,
    Applications,
    Block(String),
    Application(String),
    Default,
}

/// Where the explorer opens on the location path `p`.
pub open spec fn path_route_spec(p: Seq<char>) -> (Seq<char>, Seq<char>) {
    if p == "/blocks"@ {
        ("blocks"@, Seq::empty())
    } else if p == "/applications"@ {
        ("applications"@, Seq::empty())
    } else if "/block/"@.len() <= p.len() && p.subrange(0, 7) == "/block/"@ {
        ("block"@, p.subrange(7, p.len() as int))
    } else if "/application/"@.len() <= p.len() && p.subrange(0, 13) == "/application/"@ {
        ("application"@, p.subrange(13, p.len() as int))
    } else {
        (Seq::empty(), Seq::empty())
    }
}

impl PathRoute {
    /// The page name and the text that a route carries (empty for the
    /// default page and the lists).
    pub open spec fn parts(self) -> (Seq<char>, Seq<char>) {
        match self {
            PathRoute::Blocks => ("blocks"@, Seq::empty()),
            PathRoute::Applications => ("applications"@, Seq::empty()),
            PathRoute::Block(h) => ("block"@, h@),
            PathRoute::Application(a) => ("application"@, a@),
            PathRoute::Default => (Seq::empty(), Seq::empty()),
        }
    }
}

/// Where the explorer opens on the location path `pathname`.
pub fn path_route(pathname: &str) -> (r: PathRoute)
    ensures
        r.parts() == path_route_spec(pathname@),
{
    proof {
        reveal_strlit("/block/");
        reveal_strlit("/application/");
        reveal_strlit("blocks");
        reveal_strlit("applications");
    }
    let p = String::from_str(pathname);
    if is_literal(&p, "/blocks") {
        return PathRoute::Blocks;
    }
    if is_literal(&p, "/applications") {
        return PathRoute::Applications;
    }
    match strip_prefix(pathname, "/block/") {
        Some(hash) => PathRoute::Block(hash),
        None => match strip_prefix(pathname, "/application/") {
            Some(app) => PathRoute::Application(app),
            None => PathRoute::Default,
        },
    }
}

/// The location path of a loaded page (none for the page not yet loaded).
pub open spec fn page_path_spec(page: PageRef, chain: ChainId) -> Option<Seq<char>> {
    let c = hex_encode_spec(chain.0.bytes());
    match page {
        PageRef::Unloaded => None,
        PageRef::Home => Some("/?chain="@ + c),
        PageRef::Blocks => Some("/blocks?chain="@ + c),
        PageRef::Block(h) => Some("/block/"@ + hex_encode_spec(h.bytes()) + "?chain="@ + c),
        PageRef::Applications => Some("/applications?chain="@ + c),
        PageRef::Application { id, json } => Some("/application/"@ + id@),
        PageRef::Operations => Some("/operations?chain="@ + c),
        PageRef::Operation(h) => Some("/operation/"@ + hex_encode_spec(h.bytes()) + "?chain="@ + c),
        PageRef::Error => Some("/error"@),
    }
}

/// The location path of a loaded page.
pub fn page_path(page: &PageRef, chain_id: ChainId) -> (r: Option<String>)
    ensures
        match r {
            Some(p) => page_path_spec(*page, chain_id) == Some(p@),
            None => page_path_spec(*page, chain_id) is None,
        },
{
    let c = chain_id.0.to_hex();
    match page {
        PageRef::Unloaded => None,
        PageRef::Home => {
            let mut p = String::from_str("/?chain=");
            p.append(c.as_str());
            Some(p)
        },
        PageRef::Blocks => {
            let mut p = String::from_str("/blocks?chain=");
            p.append(c.as_str());
            Some(p)
        },
        PageRef::Block(h) => {
            let mut p = String::from_str("/block/");
            p.append(h.to_hex().as_str());
            p.append("?chain=");
            p.append(c.as_str());
            Some(p)
        },
        PageRef::Applications => {
            let mut p = String::from_str("/applications?chain=");
            p.append(c.as_str());
            Some(p)
        },
        PageRef::Application { id, json } => {
            let mut p = String::from_str("/application/");
            p.append(id.as_str());
            Some(p)
        },
        PageRef::Operations => {
            let mut p = String::from_str("/operations?chain=");
            p.append(c.as_str());
            Some(p)
        },
        PageRef::Operation(h) => {
            let mut p = String::from_str("/operation/");
            p.append(h.to_hex().as_str());
            p.append("?chain=");
            p.append(c.as_str());
            Some(p)
        },
        PageRef::Error => Some(String::from_str("/error")),
    }
}

/// What reloading a page asks for: the page itself (a block or an operation
/// by its hash, an application by its text), the error page failing with
/// its default message.
pub open spec fn reload_spec(page: PageRef) -> Result<PageRequestView, PageErrorView> {
    match page {
        PageRef::Unloaded | PageRef::Home => Ok(PageRequestView::Home),
        PageRef::Block(h) => Ok(PageRequestView::Block(Some(h))),
        PageRef::Blocks => Ok(PageRequestView::Blocks(Some(20))),
        PageRef::Applications => Ok(PageRequestView::Applications),
        PageRef::Application { id, json } => Ok(PageRequestView::Application(json@)),
        PageRef::Operations => Ok(PageRequestView::Operations),
        PageRef::Operation(h) => Ok(PageRequestView::Operation(Some(h))),
        PageRef::Error => Err(PageErrorView::Message("unknown error"@)),
    }
}

/// The names of the pages differ from each other.
proof fn lemma_page_names()
    ensures
        ""@.len() == 0,
        "block"@.len() == 5 && "block"@[0] == 'b',
        "blocks"@.len() == 6,
        "applications"@.len() == 12,
        "application"@.len() == 11,
        "operation"@.len() == 9,
        "operations"@.len() == 10,
        "error"@.len() == 5 && "error"@[0] == 'e',
{
    reveal_strlit("");
    reveal_strlit("block");
    reveal_strlit("blocks");
    reveal_strlit("applications");
    reveal_strlit("application");
    reveal_strlit("operation");
    reveal_strlit("operations");
    reveal_strlit("error");
}

/// The location path of a page starts with `/` and the name that reloading
/// it asks for: a page that lists things (and the home page, whose name is
/// empty) is at `/`, its name, `?chain=` and the chain's hexadecimal text;
/// the page of one block or one operation is at `/`, its name, `/`, the
/// hexadecimal text of the hash, `?chain=` and the chain's text.
pub proof fn law_page_path_names(page: PageRef, chain: ChainId)
    ensures
        ({
            let c = hex_encode_spec(chain.0.bytes());
            let name = page_name_and_args_spec(page).0;
            &&& (page is Home || page is Blocks || page is Applications || page is Operations) ==> page_path_spec(
                page,
                chain,
            ) == Some("/"@ + name + "?chain="@ + c)
            &&& (page matches PageRef::Block(h) ==> page_path_spec(page, chain) == Some(
                "/"@ + name + "/"@ + hex_encode_spec(h.bytes()) + "?chain="@ + c,
            ))
            &&& (page matches PageRef::Operation(h) ==> page_path_spec(page, chain) == Some(
                "/"@ + name + "/"@ + hex_encode_spec(h.bytes()) + "?chain="@ + c,
            ))
            &&& (page matches PageRef::Application { id, json } ==> page_path_spec(page, chain) == Some(
                "/"@ + name + "/"@ + id@,
            ))
            &&& (page is Error ==> page_path_spec(page, chain) == Some("/"@ + name))
            &&& (page is Unloaded <==> page_path_spec(page, chain) is None)
        }),
{
    reveal_strlit("");
    reveal_strlit("/");
    reveal_strlit("?chain=");
    reveal_strlit("/?chain=");
    reveal_strlit("blocks");
    reveal_strlit("/blocks?chain=");
    reveal_strlit("applications");
    reveal_strlit("/applications?chain=");
    reveal_strlit("operations");
    reveal_strlit("/operations?chain=");
    reveal_strlit("block");
    reveal_strlit("/block/");
    reveal_strlit("operation");
    reveal_strlit("/operation/");
    reveal_strlit("application");
    reveal_strlit("/application/");
    reveal_strlit("error");
    reveal_strlit("/error");
    let c = hex_encode_spec(chain.0.bytes());
    match page {
        PageRef::Home => {
            assert("/?chain="@ + c =~= "/"@ + ""@ + "?chain="@ + c);
        },
        PageRef::Blocks => {
            assert("/blocks?chain="@ + c =~= "/"@ + "blocks"@ + "?chain="@ + c);
        },
        PageRef::Applications => {
            assert("/applications?chain="@ + c =~= "/"@ + "applications"@ + "?chain="@ + c);
        },
        PageRef::Operations => {
            assert("/operations?chain="@ + c =~= "/"@ + "operations"@ + "?chain="@ + c);
        },
        PageRef::Block(h) => {
            let x = hex_encode_spec(h.bytes());
            assert("/block/"@ + x + "?chain="@ + c =~= "/"@ + "block"@ + "/"@ + x + "?chain="@ + c);
        },
        PageRef::Operation(h) => {
            let x = hex_encode_spec(h.bytes());
            assert("/operation/"@ + x + "?chain="@ + c =~= "/"@ + "operation"@ + "/"@ + x + "?chain="@ + c);
        },
        PageRef::Application { id, json } => {
            assert("/application/"@ + id@ =~= "/"@ + "application"@ + "/"@ + id@);
        },
        PageRef::Error => {
            assert("/error"@ =~= "/"@ + "error"@);
        },
        _ => {},
    }
}

/// Loading a page from the name and the arguments that `page_name_and_args`
/// gives for it asks for that same page.
pub proof fn law_page_reload(page: PageRef, args: Seq<(String, String)>)
    requires
        arg_views(args) == page_name_and_args_spec(page).1,
    ensures
        page_request_spec(page_name_and_args_spec(page).0, args) == reload_spec(page),
{
    lemma_page_names();
    reveal_strlit("app");
    reveal_strlit("msg");
    let a = page_name_and_args_spec(page).1;
    assert(args.len() == a.len());
    if a.len() == 0 {
        lemma_find_first_none(args, "msg"@);
    } else {
        assert(arg_views(args)[0] == (args[0].0@, args[0].1@));
        lemma_find_first_some(args, a[0].0, 0);
    }
    match page {
        PageRef::Block(h) => {
            law_hash_text_roundtrip(h);
        },
        PageRef::Operation(h) => {
            law_hash_text_roundtrip(h);
        },
        _ => {},
    }
}

/// The location of a block page is its path and then its query: the path,
/// which holds no `?`, routes back to the block page with the hexadecimal
/// text of the hash, and that text reads back as the hash.
pub proof fn law_block_location(h: CryptoHash, chain: ChainId)
    ensures
        page_path_spec(PageRef::Block(h), chain) == Some(
            ("/block/"@ + hex_encode_spec(h.bytes())) + ("?chain="@ + hex_encode_spec(chain.0.bytes())),
        ),
        !("/block/"@ + hex_encode_spec(h.bytes())).contains('?'),
        path_route_spec("/block/"@ + hex_encode_spec(h.bytes())) == ("block"@, hex_encode_spec(h.bytes())),
        parse_hash_spec(encode_utf8(hex_encode_spec(h.bytes()))) == Ok::<CryptoHash, CryptoError>(h),
{
    reveal_strlit("/block/");
    reveal_strlit("/blocks");
    reveal_strlit("/applications");
    reveal_strlit("?chain=");
    let x = hex_encode_spec(h.bytes());
    let p = "/block/"@ + x;
    law_hash_text_roundtrip(h);
    lemma_hash_bytes(h);
    assert(x.len() == 64);
    assert(p.len() == 71);
    assert forall|i: int| 0 <= i < p.len() implies p[i] != '?' by {
        if i >= 7 {
            assert(p[i] == x[i - 7]);
            lemma_hex_char(h.bytes()[(i - 7) / 2] / 16);
            lemma_hex_char(h.bytes()[(i - 7) / 2] % 16);
        }
    }
    assert(p.subrange(0, 7) =~= "/block/"@);
    assert(p.subrange(7, p.len() as int) =~= x);
    assert(p != "/blocks"@);
    assert(p != "/applications"@);
    let c = hex_encode_spec(chain.0.bytes());
    assert(("/block/"@ + x + "?chain="@ + c) =~= (p + ("?chain="@ + c)));
}

/// Whether a text is made of decimal digits only, and is not empty.
pub open spec fn is_decimal(s: Seq<char>) -> bool {
    s.len() > 0 && forall|i: int| 0 <= i < s.len() ==> '0' <= #[trigger] s[i] <= '9'
}

/// The value of a text of decimal digits.
pub open spec fn decimal_value(s: Seq<char>) -> nat
    decreases s.len(),
{
    if s.len() == 0 {
        0
    } else {
        decimal_value(s.drop_last()) * 10 + (s.last() as int - 48) as nat
    }
}

/// Two to the 53rd: a whole number up to this size is held exactly by a
/// JavaScript number.
pub open spec fn exact_limit() -> int {
    0x20_0000_0000_0000
}

/// The whole number that the text of a JSON number writes in plain decimal
/// notation (an optional minus sign, then digits), if it does.
pub open spec fn integer_of_text(s: Seq<char>) -> Option<int> {
    if s.len() > 0 && s[0] == '-' {
        if is_decimal(s.drop_first()) {
            Some(-decimal_value(s.drop_first()))
        } else {
            None
        }
    } else if is_decimal(s) {
        Some(decimal_value(s) as int)
    } else {
        None
    }
}

/// The byte that an element of a `bytes` list becomes when the list is
/// copied into a byte array: a whole number (held exactly) taken modulo 256,
/// one for `true`, zero for `false` and `null`. Other elements (texts,
/// lists, objects, numbers with a fraction or an exponent, or beyond
/// `exact_limit`) go through JavaScript's conversion of text to floating
/// point, and are not covered.
pub open spec fn element_byte(e: JsonValue) -> Option<u8> {
    match e {
        JsonValue::Number(t) => match integer_of_text(t) {
            Some(v) => if -exact_limit() <= v <= exact_limit() {
                Some((v % 256) as u8)
            } else {
                None
            },
            None => None,
        },
        JsonValue::Bool(b) => Some(if b { 1u8 } else { 0u8 }),
        JsonValue::Null => Some(0u8),
        _ => None,
    }
}

/// The bytes that a JSON list becomes, when each of its elements is covered
/// by `element_byte`.
pub open spec fn byte_list(a: Seq<JsonValue>) -> Option<Seq<u8>> {
    if forall|i: int| 0 <= i < a.len() ==> #[trigger] element_byte(a[i]) is Some {
        Some(Seq::new(a.len(), |i: int| element_byte(a[i])->0))
    } else {
        None
    }
}

/// The bytes one character of a text becomes when the text is copied into a
/// byte array: its value if it is a decimal digit, else zero, once for each
/// UTF-16 unit it takes.
pub open spec fn char_units(c: char) -> Seq<u8> {
    if '0' <= c <= '9' {
        seq![(c as int - 48) as u8]
    } else if c as int >= 0x10000 {
        seq![0u8, 0u8]
    } else {
        seq![0u8]
    }
}

/// The bytes a text becomes when copied into a byte array.
pub open spec fn text_units(s: Seq<char>) -> Seq<u8>
    decreases s.len(),
{
    if s.len() == 0 {
        Seq::empty()
    } else {
        text_units(s.drop_last()) + char_units(s.last())
    }
}

/// How the value of a `bytes` field is shown: the bytes it becomes when
/// copied into a byte array, in hexadecimal, elided in the middle when
/// long. A list gives the bytes of its elements; a text, those of its
/// characters; a number, a boolean or an object without a `length` field
/// has no length and gives none. A list with an element that
/// `element_byte` does not cover, an object with a `length` field, and
/// `null` (which has no length to read, so the copy fails on it) are kept as
/// they are.
pub open spec fn shown_bytes(v: JsonValue) -> JsonValue {
    match v {
        JsonValue::Array(a) => match byte_list(a) {
            Some(b) => JsonValue::Str(elided_hex_spec(b)),
            None => v,
        },
        JsonValue::Str(t) => JsonValue::Str(elided_hex_spec(text_units(t))),
        JsonValue::Null => v,
        JsonValue::Object(names, _) => if names.contains("length"@) {
            v
        } else {
            JsonValue::Str(elided_hex_spec(Seq::empty()))
        },
        _ => JsonValue::Str(elided_hex_spec(Seq::empty())),
    }
}

/// A page's data with the value of every `bytes` field, at any depth, shown
/// as hexadecimal text.
pub open spec fn format_bytes_spec(v: JsonValue) -> JsonValue
    decreases v,
{
    match v {
        JsonValue::Array(a) => JsonValue::Array(
            Seq::new(
                a.len(),
                |i: int|
                    if 0 <= i < a.len() {
                        format_bytes_spec(a[i])
                    } else {
                        JsonValue::Null
                    },
            ),
        ),
        JsonValue::Object(names, values) => JsonValue::Object(
            names,
            Seq::new(
                values.len(),
                |i: int|
                    if 0 <= i < values.len() {
                        if i < names.len() && names[i] == "bytes"@ {
                            shown_bytes(values[i])
                        } else {
                            format_bytes_spec(values[i])
                        }
                    } else {
                        JsonValue::Null
                    },
            ),
        ),
        _ => v,
    }
}

/// A longer text of digits has a value at least as large.
proof fn lemma_decimal_grows(s: Seq<char>, j: int, k: int)
    requires
        0 <= j <= k <= s.len(),
        forall|i: int| 0 <= i < s.len() ==> '0' <= #[trigger] s[i] <= '9',
    ensures
        decimal_value(s.subrange(0, j)) <= decimal_value(s.subrange(0, k)),
    decreases k - j,
{
    if j < k {
        lemma_decimal_grows(s, j, k - 1);
        assert(s.subrange(0, k).drop_last() =~= s.subrange(0, k - 1));
    }
}

/// The byte that the text of a JSON number becomes, if `element_byte`
/// covers it.
fn number_byte(n: &String) -> (r: Option<u8>)
    ensures
        r == element_byte(JsonValue::Number(n@)),
{
    let t = n.as_str();
    let len = t.unicode_len();
    let neg = len > 0 && t.get_char(0) == '-';
    let first: usize = if neg { 1 } else { 0 };
    let ghost digits = n@.subrange(first as int, len as int);
    proof {
        if neg {
            assert(digits =~= n@.drop_first());
        } else {
            assert(digits =~= n@);
        }
    }
    if first >= len {
        return None;
    }
    let mut v: u64 = 0;
    let mut i: usize = first;
    while i < len
        invariant
            len == n@.len(),
            t@ == n@,
            first <= i <= len,
            first == (if neg { 1usize } else { 0usize }),
            neg ==> n@.len() > 0 && n@[0] == '-' && digits == n@.drop_first(),
            !neg ==> !(n@.len() > 0 && n@[0] == '-') && digits == n@,
            digits == n@.subrange(first as int, len as int),
            v <= exact_limit(),
            v == decimal_value(digits.subrange(0, i - first)),
            forall|j: int| 0 <= j < i - first ==> '0' <= #[trigger] digits[j] <= '9',
        decreases len - i,
    {
        let c = t.get_char(i);
        assert(digits[i - first] == c);
        if !('0' <= c && c <= '9') {
            assert(!is_decimal(digits));
            return None;
        }
        assert(digits.subrange(0, i + 1 - first).drop_last() =~= digits.subrange(0, i - first));
        v = v * 10 + (c as u32 - 48) as u64;
        if v > 0x20_0000_0000_0000 {
            proof {
                if is_decimal(digits) {
                    lemma_decimal_grows(digits, i + 1 - first, digits.len() as int);
                    assert(digits.subrange(0, digits.len() as int) =~= digits);
                    assert(decimal_value(digits) > exact_limit());
                }
            }
            return None;
        }
        i += 1;
    }
    assert(digits.subrange(0, len - first) =~= digits);
    if neg {
        let m: u64 = v % 256;
        let b: u64 = if m == 0 { 0 } else { 256 - m };
        assert(b == (-(v as int)) % 256) by (nonlinear_arith)
            requires
                m == v % 256,
                b == if m == 0 { 0 } else { 256 - m },
        ;
        Some(b as u8)
    } else {
        Some((v % 256) as u8)
    }
}

/// The byte that an element of a `bytes` list becomes, if `element_byte`
/// covers it.
fn element_byte_of(e: &Json) -> (r: Option<u8>)
    ensures
        r == element_byte(e@),
{
    proof {
        lemma_view(*e);
    }
    match e {
        Json::Number(n) => number_byte(n),
        Json::Bool(b) => Some(if *b { 1u8 } else { 0u8 }),
        Json::Null => Some(0u8),
        _ => None,
    }
}

/// The bytes that a JSON list becomes, if each element is covered.
fn byte_list_of(a: &Vec<Json>) -> (r: Option<Vec<u8>>)
    ensures
        match r {
            Some(b) => byte_list(json_views(a@)) == Some(b@),
            None => byte_list(json_views(a@)) is None,
        },
{
    let ghost av = json_views(a@);
    let mut b: Vec<u8> = Vec::new();
    let mut i: usize = 0;
    while i < a.len()
        invariant
            i <= a@.len(),
            av == json_views(a@),
            b@.len() == i,
            forall|j: int| 0 <= j < i ==> #[trigger] element_byte(av[j]) == Some(b@[j]),
        decreases a@.len() - i,
    {
        assert(av[i as int] == a@[i as int]@);
        match element_byte_of(&a[i]) {
            Some(x) => {
                b.push(x);
            },
            None => {
                assert(!(element_byte(av[i as int]) is Some));
                return None;
            },
        }
        i += 1;
    }
    assert(Seq::new(av.len(), |i: int| element_byte(av[i])->0) =~= b@);
    Some(b)
}

/// The bytes a text becomes when copied into a byte array.
fn text_bytes(s: &String) -> (r: Vec<u8>)
    ensures
        r@ == text_units(s@),
{
    let t = s.as_str();
    let len = t.unicode_len();
    let mut r: Vec<u8> = Vec::new();
    let mut i: usize = 0;
    assert(s@.subrange(0, 0) =~= Seq::<char>::empty());
    while i < len
        invariant
            len == s@.len(),
            t@ == s@,
            i <= len,
            r@ == text_units(s@.subrange(0, i as int)),
        decreases len - i,
    {
        let c = t.get_char(i);
        assert(s@.subrange(0, i + 1).drop_last() =~= s@.subrange(0, i as int));
        assert(s@.subrange(0, i + 1).last() == c);
        if '0' <= c && c <= '9' {
            r.push((c as u32 - 48) as u8);
        } else if c as u32 >= 0x10000 {
            r.push(0);
            r.push(0);
        } else {
            r.push(0);
        }
        assert(r@ =~= text_units(s@.subrange(0, i + 1)));
        i += 1;
    }
    assert(s@.subrange(0, len as int) =~= s@);
    r
}

/// Whether one of the fields `o` is named `length`.
fn has_length_field(o: &Vec<(String, Json)>) -> (r: bool)
    ensures
        r == object(field_views(o@))->Object_0.contains("length"@),
{
    let ghost names = object(field_views(o@))->Object_0;
    let mut i: usize = 0;
    while i < o.len()
        invariant
            i <= o@.len(),
            names == object(field_views(o@))->Object_0,
            names.len() == o@.len(),
            forall|j: int| 0 <= j < i ==> names[j] != "length"@,
        decreases o@.len() - i,
    {
        assert(names[i as int] == o@[i as int].0@);
        if is_literal(&o[i].0, "length") {
            assert(names[i as int] == "length"@);
            return true;
        }
        i += 1;
    }
    false
}

/// How the value of a `bytes` field is shown.
fn show_bytes(v: &Json) -> (r: Json)
    ensures
        r@ == shown_bytes(v@),
{
    proof {
        lemma_view(*v);
    }
    match v {
        Json::Array(a) => match byte_list_of(a) {
            Some(b) => Json::String(format_hex_bytes(b.as_slice())),
            None => v.duplicate(),
        },
        Json::String(t) => {
            let b = text_bytes(t);
            Json::String(format_hex_bytes(b.as_slice()))
        },
        Json::Null => v.duplicate(),
        Json::Object(o) => if has_length_field(o) {
            v.duplicate()
        } else {
            let none: Vec<u8> = Vec::new();
            Json::String(format_hex_bytes(none.as_slice()))
        },
        _ => {
            let none: Vec<u8> = Vec::new();
            Json::String(format_hex_bytes(none.as_slice()))
        },
    }
}

/// The data of a page with the value of every `bytes` field, at any depth,
/// shown as hexadecimal text (elided in the middle when long).
#[verifier::spinoff_prover]
pub fn format_bytes(v: &Json) -> (r: Json)
    ensures
        r@ == format_bytes_spec(v@),
    decreases v,
{
    match v {
        Json::Array(a) => {
            let mut r: Vec<Json> = Vec::new();
            let mut i: usize = 0;
            while i < a.len()
                invariant
                    *v == Json::Array(*a),
                    i <= a@.len(),
                    r@.len() == i,
                    forall|j: int| 0 <= j < i ==> #[trigger] r@[j]@ == format_bytes_spec(a@[j]@),
                decreases a@.len() - i,
            {
                proof {
                    let ghost sv = *v;
                    let ghost av = *a;
                    assert(sv == Json::Array(av));
                    assert(decreases_to!(sv => sv->Array_0));
                    assert(decreases_to!(sv => av));
                    assert(decreases_to!(av => av[i as int]));
                }
                r.push(format_bytes(&a[i]));
                i += 1;
            }
            let out = Json::Array(r);
            proof {
                lemma_view(out);
                lemma_view(*v);
                assert(v@ == JsonValue::Array(json_views(a@)));
                assert(format_bytes_spec(v@) is Array);
                assert(format_bytes_spec(v@)->Array_0 =~= json_views(r@));
            }
            out
        },
        Json::Object(o) => {
            let mut r: Vec<(String, Json)> = Vec::new();
            let mut i: usize = 0;
            let key = String::from_str("bytes");
            while i < o.len()
                invariant
                    *v == Json::Object(*o),
                    key@ == "bytes"@,
                    i <= o@.len(),
                    r@.len() == i,
                    forall|j: int|
                        0 <= j < i ==> #[trigger] r@[j].0@ == o@[j].0@ && r@[j].1@ == (if o@[j].0@ == "bytes"@ {
                            shown_bytes(o@[j].1@)
                        } else {
                            format_bytes_spec(o@[j].1@)
                        }),
                decreases o@.len() - i,
            {
                proof {
                    let ghost sv = *v;
                    let ghost ov = *o;
                    assert(sv == Json::Object(ov));
                    assert(decreases_to!(sv => sv->Object_0));
                    assert(decreases_to!(sv => ov));
                    assert(decreases_to!(ov => ov[i as int]));
                    assert(decreases_to!(ov[i as int] => ov[i as int].1));
                }
                let value = if o[i].0 == key {
                    show_bytes(&o[i].1)
                } else {
                    format_bytes(&o[i].1)
                };
                let ghost before = r@;
                r.push((o[i].0.clone(), value));
                proof {
                    assert forall|j: int| 0 <= j < i + 1 implies #[trigger] r@[j].0@ == o@[j].0@ && r@[j].1@ == (if o@[j].0@
                        == "bytes"@ {
                        shown_bytes(o@[j].1@)
                    } else {
                        format_bytes_spec(o@[j].1@)
                    }) by {
                        if j < i {
                            assert(r@[j] == before[j]);
                        }
                    }
                }
                i += 1;
            }
            let out = Json::Object(r);
            proof {
                lemma_view(out);
                lemma_view(*v);
                let fo = field_views(o@);
                let fr = field_views(r@);
                assert(object(fr) == format_bytes_spec(object(fo))) by {
                    assert(object(fr)->Object_0 =~= object(fo)->Object_0);
                    assert(object(fr)->Object_1 =~= format_bytes_spec(object(fo))->Object_1);
                }
            }
            out
        },
        _ => v.duplicate(),
    }
}

/// A character as a JSON string writes it: quote and backslash escaped, the
/// control characters below 0x20 escaped (by their short form where JSON
/// has one, else as `\u00` and two lower-case hexadecimal digits).
pub open spec fn escape_char(c: char) -> Seq<char> {
    if c == '"' {
        seq!['\\', '"']
    } else if c == '\\' {
        seq!['\\', '\\']
    } else if c == '\n' {
        seq!['\\', 'n']
    } else if c == '\r' {
        seq!['\\', 'r']
    } else if c == '\t' {
        seq!['\\', 't']
    } else if c == '\u{8}' {
        seq!['\\', 'b']
    } else if c == '\u{c}' {
        seq!['\\', 'f']
    } else if (c as u32) < 0x20 {
        seq!['\\', 'u', '0', '0', crate::external::hex_char(((c as u32) / 16) as u8), crate::external::hex_char(((c as u32) % 16) as u8)]
    } else {
        seq![c]
    }
}

/// A text with each character escaped as a JSON string writes it.
pub open spec fn escape_text(s: Seq<char>) -> Seq<char>
    decreases s.len(),
{
    if s.len() == 0 {
        Seq::empty()
    } else {
        escape_text(s.drop_last()) + escape_char(s.last())
    }
}

/// A text as a JSON string: between quotes, escaped.
pub open spec fn json_text_spec(s: Seq<char>) -> Seq<char> {
    seq!['"'] + escape_text(s) + seq!['"']
}

/// Appends the character at `i` of `s` as a JSON string writes it.
fn push_escaped(out: &mut String, s: &str, i: usize)
    requires
        i < s@.len() <= usize::MAX,
    ensures
        final(out)@ == old(out)@ + escape_char(s@[i as int]),
{
    let c = s.get_char(i);
    if c == '"' {
        out.append("\\\"");
        proof { reveal_strlit("\\\""); }
    } else if c == '\\' {
        out.append("\\\\");
        proof { reveal_strlit("\\\\"); }
    } else if c == '\n' {
        out.append("\\n");
        proof { reveal_strlit("\\n"); }
    } else if c == '\r' {
        out.append("\\r");
        proof { reveal_strlit("\\r"); }
    } else if c == '\t' {
        out.append("\\t");
        proof { reveal_strlit("\\t"); }
    } else if c == '\u{8}' {
        out.append("\\b");
        proof { reveal_strlit("\\b"); }
    } else if c == '\u{c}' {
        out.append("\\f");
        proof { reveal_strlit("\\f"); }
    } else if (c as u32) < 0x20 {
        out.append("\\u00");
        proof { reveal_strlit("\\u00"); }
        let b: u8 = (c as u32) as u8;
        let mut one: Vec<u8> = Vec::new();
        one.push(b);
        let digits = hex_encode(one.as_slice());
        assert(digits@ =~= seq![crate::external::hex_char(((c as u32) / 16) as u8), crate::external::hex_char(((c as u32) % 16) as u8)]);
        out.append(digits.as_str());
    } else {
        out.append(s.substring_char(i, i + 1));
    }
    assert(out@ =~= old(out)@ + escape_char(c));
}

/// A text as a JSON string writes it: between quotes, escaped.
pub fn json_text(s: &str) -> (r: String)
    ensures
        r@ == json_text_spec(s@),
{
    let mut out = String::from_str("\"");
    proof { reveal_strlit("\""); }
    let len = s.unicode_len();
    let mut i: usize = 0;
    assert(s@.subrange(0, 0) =~= Seq::<char>::empty());
    while i < len
        invariant
            len == s@.len(),
            i <= len,
            out@ == seq!['"'] + escape_text(s@.subrange(0, i as int)),
        decreases len - i,
    {
        push_escaped(&mut out, s, i);
        assert(s@.subrange(0, i + 1).drop_last() =~= s@.subrange(0, i as int));
        assert(out@ =~= seq!['"'] + escape_text(s@.subrange(0, i + 1)));
        i += 1;
    }
    out.append("\"");
    assert(s@.subrange(0, len as int) =~= s@);
    assert(out@ =~= json_text_spec(s@));
    out
}

/// The JSON text with which the explorer opens an application named in the
/// location: its identifier, the link to its service under the node's
/// address, and an empty description (fields in the order of their names).
pub open spec fn app_json_spec(id: Seq<char>, address: Seq<char>) -> Seq<char> {
    "{\"description\":\"\",\"id\":"@ + json_text_spec(id) + ",\"link\":"@ + json_text_spec(
        address + "/applications/"@ + id,
    ) + "}"@
}

/// What the explorer opens first on the location path `pathname`: the page
/// to load (none for the default page) and the arguments: those of the
/// location's query, then the default chain, then the block's hash or the
/// application's JSON text that the path names.
pub open spec fn init_route_spec(
    pathname: Seq<char>,
    address: Seq<char>,
    chain: ChainId,
    query: Seq<(Seq<char>, Seq<char>)>,
) -> (Option<Seq<char>>, Seq<(Seq<char>, Seq<char>)>) {
    let base = query.push(("chain"@, hex_encode_spec(chain.0.bytes())));
    let (name, text) = path_route_spec(pathname);
    if name == "block"@ {
        (Some(name), base.push(("block"@, text)))
    } else if name == "application"@ {
        (Some(name), base.push(("app"@, app_json_spec(text, address))))
    } else if name.len() == 0 {
        (None, base)
    } else {
        (Some(name), base)
    }
}

/// What the explorer opens first on the location path `pathname`.
pub fn init_route(pathname: &str, address: &str, chain: ChainId, query: Vec<(String, String)>) -> (r: (
    Option<String>,
    Vec<(String, String)>,
))
    ensures
        match init_route_spec(pathname@, address@, chain, arg_views(query@)) {
            (name, args) => arg_views(r.1@) == args && match name {
                Some(n) => r.0 matches Some(m) && m@ == n,
                None => r.0 is None,
            },
        },
{
    proof {
        lemma_page_names();
    }
    let mut args = query;
    let ghost q = arg_views(args@);
    args.push((String::from_str("chain"), chain.0.to_hex()));
    let ghost base = q.push(("chain"@, hex_encode_spec(chain.0.bytes())));
    assert(arg_views(args@) =~= base);
    let route = path_route(pathname);
    match route {
        PathRoute::Blocks => (Some(String::from_str("blocks")), args),
        PathRoute::Applications => (Some(String::from_str("applications")), args),
        PathRoute::Block(h) => {
            let ghost hv = h@;
            args.push((String::from_str("block"), h));
            assert(arg_views(args@) =~= base.push(("block"@, hv)));
            (Some(String::from_str("block")), args)
        },
        PathRoute::Application(a) => {
            let mut link = String::from_str(address);
            link.append("/applications/");
            link.append(a.as_str());
            let mut text = String::from_str("{\"description\":\"\",\"id\":");
            text.append(json_text(a.as_str()).as_str());
            text.append(",\"link\":");
            text.append(json_text(link.as_str()).as_str());
            text.append("}");
            let ghost tv = text@;
            assert(tv == app_json_spec(a@, address@));
            args.push((String::from_str("app"), text));
            assert(arg_views(args@) =~= base.push(("app"@, tv)));
            (Some(String::from_str("application")), args)
        },
        PathRoute::Default => (None, args),
    }
}

/// Which page a route loads, and with which arguments: the page named in
/// the path, with the given arguments, else the page shown, reloaded.
pub fn route_target(path: Option<String>, page: &PageRef, args: Vec<(String, String)>) -> (r: (
    String,
    Vec<(String, String)>,
))
    ensures
        match path {
            Some(p) => r.0@ == p@ && r.1@ == args@,
            None => (r.0@, arg_views(r.1@)) == page_name_and_args_spec(*page),
        },
{
    match path {
        Some(p) => (p, args),
        None => page_name_and_args(page),
    }
}

/// What routing shows: the page that was loaded, or the error page with the
/// message of what failed.
pub enum Shown<P> {
    Page(P),
    Error(String),
}

/// The page routing shows and its location path: the loaded page at its
/// path, or, when the chain or the page could not be had, the error page at
/// `/error`.
pub fn shown_page<P>(result: Result<(P, String), String>) -> (r: (Shown<P>, String))
    ensures
        match result {
            Ok((p, path)) => r.0 == Shown::Page(p) && r.1@ == path@,
            Err(e) => r.0 == Shown::<P>::Error(e) && r.1@ == "/error"@,
        },
{
    match result {
        Ok((p, path)) => (Shown::Page(p), path),
        Err(e) => (Shown::Error(e), String::from_str("/error")),
    }
}

/// Where routing subscribes anew: the node's websocket address when the
/// shown chain changed, nowhere otherwise.
pub fn resubscribe_to(config: &Config, chain_changed: bool) -> (r: Option<String>)
    ensures
        match r {
            Some(a) => chain_changed && a@ == url_spec(config, Protocol::Websocket, AddressKind::Node),
            None => !chain_changed,
        },
{
    if chain_changed {
        Some(url(config, Protocol::Websocket, AddressKind::Node))
    } else {
        None
    }
}

} // verus!
