//! The tracker exchange: the announce request URL and the compact peer
//! list of the response.
use vstd::prelude::*;
use vstd::string::StrSliceExecFns;
use url::Url;
use url_builder::URLBuilder;
use crate::bencode::{
    decimal, decode, dict_get, enc, is_prefix, lookup, push_decimal, BencodeError, BencodeValue,
};

verus! {

/// A peer address: an IPv4 address and a port.
#[derive(Debug, PartialEq, Eq, Clone, Copy)]
pub struct Peer {
    pub host: [u8; 4],
    pub port: u16,
}

/// The address in record `i` of a compact peer list: four address bytes,
/// then the port big-endian.
pub open spec fn peer_at(peers: Seq<u8>, i: int) -> Peer {
    Peer {
        host: [peers[6 * i], peers[6 * i + 1], peers[6 * i + 2], peers[6 * i + 3]],
        port: (peers[6 * i + 4] as nat * 256 + peers[6 * i + 5] as nat) as u16,
    }
}

/// Decodes a compact peer list, six bytes per peer. Trailing bytes that do
/// not fill a whole record are dropped.
pub fn parse_peers(peers: &[u8]) -> (r: Vec<Peer>)
    ensures
        r@.len() == peers@.len() / 6,
        forall|i: int| 0 <= i < r@.len() ==> #[trigger] r@[i] == peer_at(peers@, i),
{
    let n = peers.len() / 6;
    let mut r: Vec<Peer> = Vec::new();
    let mut i: usize = 0;
    while i < n
        invariant
            n == peers@.len() / 6,
            i <= n,
            r@.len() == i,
            forall|j: int| 0 <= j < i ==> #[trigger] r@[j] == peer_at(peers@, j),
        decreases n - i,
    {
        assert(6 * i + 6 <= peers.len());
        let b = 6 * i;
        let host: [u8; 4] = [peers[b], peers[b + 1], peers[b + 2], peers[b + 3]];
        let port: u16 = peers[b + 4] as u16 * 256 + peers[b + 5] as u16;
        let p = Peer { host, port };
        assert(p.host@ =~= peer_at(peers@, i as int).host@);
        r.push(p);
        i += 1;
    }
    r
}


/// A tracker's answer: how long to wait before announcing again, and the
/// peers it offers.
#[derive(Debug, PartialEq, Eq)]
pub struct TrackerResponse {
    pub interval: i64,
    pub peers: Vec<Peer>,
}

/// Why a tracker's answer gives nothing to connect to.
#[derive(Debug, PartialEq, Eq, Clone, Copy)]
pub enum TrackerError {
    /// The body is not bencoded.
    Bencode(BencodeError),
    /// The body is not a dictionary.
    NotADictionary,
    /// The body holds no compact peer list with at least one peer.
    NoPeersAvailable,
}

pub open spec fn key_peers() -> Seq<u8> {
    seq![112u8, 101, 101, 114, 115]
}

pub open spec fn key_interval() -> Seq<u8> {
    seq![105u8, 110, 116, 101, 114, 118, 97, 108]
}

/// What a decoded tracker answer `root` yields: an error, or the interval
/// (zero where none is given) and the compact peer list.
pub open spec fn response_error(root: BencodeValue) -> Option<TrackerError> {
    match root {
        BencodeValue::Dict(d) => match lookup(d@, key_peers()) {
            Some(BencodeValue::Bytes(p)) => if p@.len() < 6 {
                Some(TrackerError::NoPeersAvailable)
            } else {
                None
            },
            _ => Some(TrackerError::NoPeersAvailable),
        },
        _ => Some(TrackerError::NotADictionary),
    }
}

/// The interval of a decoded tracker answer, zero where none is given.
pub open spec fn interval_of(root: BencodeValue) -> int {
    match lookup(root->Dict_0@, key_interval()) {
        Some(BencodeValue::Int(i)) => i as int,
        _ => 0,
    }
}

/// The compact peer list of a decoded tracker answer.
pub open spec fn peer_bytes_of(root: BencodeValue) -> Seq<u8> {
    lookup(root->Dict_0@, key_peers())->Some_0->Bytes_0@
}

/// Reads the peers and the interval out of a decoded tracker answer.
pub fn response_from_value(root: &BencodeValue) -> (r: Result<TrackerResponse, TrackerError>)
    ensures
        response_error(*root) matches Some(e) ==> r == Err::<TrackerResponse, TrackerError>(e),
        response_error(*root) is None ==> (r matches Ok(t) && t.interval == interval_of(*root)
            && t.peers@.len() == peer_bytes_of(*root).len() / 6 && t.peers@.len() > 0 && forall|
            i: int,
        | 0 <= i < t.peers@.len() ==> #[trigger] t.peers@[i] == peer_at(peer_bytes_of(*root), i)),
{
    let d = match root {
        BencodeValue::Dict(d) => d,
        _ => {
            return Err(TrackerError::NotADictionary);
        },
    };
    let k_peers: [u8; 5] = [112, 101, 101, 114, 115];
    let k_interval: [u8; 8] = [105, 110, 116, 101, 114, 118, 97, 108];
    assert(k_peers@ =~= key_peers());
    assert(k_interval@ =~= key_interval());
    let peers = match dict_get(d, k_peers.as_slice()) {
        Some(BencodeValue::Bytes(p)) => p,
        _ => {
            return Err(TrackerError::NoPeersAvailable);
        },
    };
    if peers.len() < 6 {
        return Err(TrackerError::NoPeersAvailable);
    }
    let interval = match dict_get(d, k_interval.as_slice()) {
        Some(BencodeValue::Int(i)) => *i,
        _ => 0,
    };
    let peers = parse_peers(peers.as_slice());
    Ok(TrackerResponse { interval, peers })
}

/// Decodes a tracker's bencoded answer. It fails with a bencode error
/// exactly when the body does not begin with a bencoded value.
pub fn parse_tracker_response(body: &[u8]) -> (r: Result<TrackerResponse, TrackerError>)
    ensures
        r matches Ok(t) ==> exists|root: BencodeValue, n: int|
            #![trigger body@.take(n), enc(root)]
            0 < n <= body@.len() && body@.take(n) == enc(root) && response_error(root) is None
                && t.interval == interval_of(root) && t.peers@.len() == peer_bytes_of(root).len()
                / 6,
        r matches Err(TrackerError::Bencode(_)) <==> forall|root: BencodeValue|
            !is_prefix(#[trigger] enc(root), body@),
        (r is Err && !(r->Err_0 is Bencode)) ==> exists|root: BencodeValue|
            is_prefix(#[trigger] enc(root), body@) && response_error(root) == Some(r->Err_0),
        body@.len() == 0 ==> r == Err::<TrackerResponse, TrackerError>(
            TrackerError::Bencode(BencodeError::UnexpectedEof),
        ),
{
    match decode(body) {
        Ok((root, n)) => {
            let r = response_from_value(&root);
            proof {
                assert(body@.take(n as int) == enc(root));
                assert(is_prefix(enc(root), body@));
            }
            r
        },
        Err(e) => Err(TrackerError::Bencode(e)),
    }
}


#[verifier::external_type_specification]
#[verifier::external_body]
pub struct ExURLBuilder(URLBuilder);

/// What a URL builder holds: protocol, host, port (0 for none), query
/// parameters and route segments.
pub uninterp spec fn builder_parts(b: URLBuilder) -> (
    Seq<char>,
    Seq<char>,
    u16,
    Map<Seq<char>, Seq<char>>,
    Seq<Seq<char>>,
);

/// Scheme, host, explicit port and path of a URL, where it parses and names
/// a host.
pub uninterp spec fn url_parts_of(s: Seq<char>) -> Option<
    (Seq<char>, Seq<char>, Option<u16>, Seq<char>),
>;

/// The text of a byte sequence read as UTF-8, with each invalid sequence
/// replaced by U+FFFD.
pub uninterp spec fn utf8_lossy_of(b: Seq<u8>) -> Seq<char>;

/// Each byte as the character with that code.
pub open spec fn ascii_chars(b: Seq<u8>) -> Seq<char> {
    b.map_values(|x: u8| x as char)
}

pub open spec fn is_ascii_bytes(b: Seq<u8>) -> bool {
    forall|i: int| 0 <= i < b.len() ==> #[trigger] b[i] < 128
}

/// Relies on `url::Url::parse` and its `scheme`, `host_str`, `port` and
/// `path` accessors.
#[verifier::external_body]
fn parse_url(s: &str) -> (r: Option<(String, String, Option<u16>, String)>)
    ensures
        r matches Some((a, b, c, d)) ==> url_parts_of(s@) == Some((a@, b@, c, d@)),
        r is None ==> url_parts_of(s@) is None,
{
    let u = Url::parse(s).ok()?;
    let host = u.host_str()?.to_string();
    Some((u.scheme().to_string(), host, u.port(), u.path().to_string()))
}

/// Relies on `String::from_utf8_lossy`: valid UTF-8, as ASCII is, comes
/// back unchanged.
#[verifier::external_body]
fn utf8_lossy(b: &[u8]) -> (r: String)
    ensures
        r@ == utf8_lossy_of(b@),
        is_ascii_bytes(b@) ==> r@ == ascii_chars(b@),
{
    String::from_utf8_lossy(b).into_owned()
}

/// Relies on `url_builder::URLBuilder::new`: everything empty, no port.
#[verifier::external_body]
fn builder_new() -> (r: URLBuilder)
    ensures
        builder_parts(r) == (
            Seq::<char>::empty(),
            Seq::<char>::empty(),
            0u16,
            Map::<Seq<char>, Seq<char>>::empty(),
            Seq::<Seq<char>>::empty(),
        ),
{
    URLBuilder::new()
}

/// Relies on `URLBuilder::set_protocol`: replaces the protocol.
#[verifier::external_body]
fn builder_set_protocol(b: &mut URLBuilder, protocol: &str)
    ensures
        builder_parts(*final(b)) == (
            protocol@,
            builder_parts(*old(b)).1,
            builder_parts(*old(b)).2,
            builder_parts(*old(b)).3,
            builder_parts(*old(b)).4,
        ),
{
    b.set_protocol(protocol);
}

/// Relies on `URLBuilder::set_host`: replaces the host.
#[verifier::external_body]
fn builder_set_host(b: &mut URLBuilder, host: &str)
    ensures
        builder_parts(*final(b)) == (
            builder_parts(*old(b)).0,
            host@,
            builder_parts(*old(b)).2,
            builder_parts(*old(b)).3,
            builder_parts(*old(b)).4,
        ),
{
    b.set_host(host);
}

/// Relies on `URLBuilder::set_port`: replaces the port.
#[verifier::external_body]
fn builder_set_port(b: &mut URLBuilder, port: u16)
    ensures
        builder_parts(*final(b)) == (
            builder_parts(*old(b)).0,
            builder_parts(*old(b)).1,
            port,
            builder_parts(*old(b)).3,
            builder_parts(*old(b)).4,
        ),
{
    b.set_port(port);
}

/// Relies on `URLBuilder::add_route`: appends a route segment.
#[verifier::external_body]
fn builder_add_route(b: &mut URLBuilder, route: &str)
    ensures
        builder_parts(*final(b)) == (
            builder_parts(*old(b)).0,
            builder_parts(*old(b)).1,
            builder_parts(*old(b)).2,
            builder_parts(*old(b)).3,
            builder_parts(*old(b)).4.push(route@),
        ),
{
    b.add_route(route);
}

/// Relies on `URLBuilder::add_param`: sets a query parameter, replacing an
/// earlier value under the same name.
#[verifier::external_body]
fn builder_add_param(b: &mut URLBuilder, name: &str, value: &str)
    ensures
        builder_parts(*final(b)) == (
            builder_parts(*old(b)).0,
            builder_parts(*old(b)).1,
            builder_parts(*old(b)).2,
            builder_parts(*old(b)).3.insert(name@, value@),
            builder_parts(*old(b)).4,
        ),
{
    b.add_param(name, value);
}

/// Relies on `URLBuilder::build`: `<protocol>://<host>[:<port>]`, then
/// `/<route>` for each route, then `?` and the `<name>=<value>` pairs joined
/// by `&`, in the order in which its hash map yields them.
#[verifier::external_body]
fn builder_build(b: URLBuilder) -> (r: String)
    ensures
        is_built_url(r@, builder_parts(b)),
{
    b.build()
}

/// `u` is what a builder holding `parts` writes, its parameters in some
/// order.
pub open spec fn is_built_url(
    u: Seq<char>,
    parts: (Seq<char>, Seq<char>, u16, Map<Seq<char>, Seq<char>>, Seq<Seq<char>>),
) -> bool {
    exists|order: Seq<(Seq<char>, Seq<char>)>|
        is_param_order(order, parts.3) && u == #[trigger] built_url(parts, order)
}

/// `order` lists each parameter of `params` once.
pub open spec fn is_param_order(
    order: Seq<(Seq<char>, Seq<char>)>,
    params: Map<Seq<char>, Seq<char>>,
) -> bool {
    &&& order.len() == params.dom().len()
    &&& forall|i: int|
        0 <= i < order.len() ==> params.contains_key(#[trigger] order[i].0) && params[order[i].0]
            == order[i].1
    &&& forall|i: int, j: int| 0 <= i < j < order.len() ==> order[i].0 != order[j].0
}

/// `/<route>` for each route.
pub open spec fn routes_text(routes: Seq<Seq<char>>) -> Seq<char>
    decreases routes.len(),
{
    if routes.len() == 0 {
        Seq::empty()
    } else {
        routes_text(routes.drop_last()) + seq!['/'] + routes.last()
    }
}

/// The `<name>=<value>` pairs joined by `&`.
pub open spec fn params_text(order: Seq<(Seq<char>, Seq<char>)>) -> Seq<char>
    decreases order.len(),
{
    if order.len() == 0 {
        Seq::empty()
    } else if order.len() == 1 {
        order[0].0 + seq!['='] + order[0].1
    } else {
        params_text(order.drop_last()) + seq!['&'] + order.last().0 + seq!['='] + order.last().1
    }
}

/// The URL that a builder holding `parts` writes, with its parameters in
/// the order `order`.
pub open spec fn built_url(
    parts: (Seq<char>, Seq<char>, u16, Map<Seq<char>, Seq<char>>, Seq<Seq<char>>),
    order: Seq<(Seq<char>, Seq<char>)>,
) -> Seq<char> {
    let port = if parts.2 == 0 {
        Seq::empty()
    } else {
        seq![':'] + ascii_chars(decimal(parts.2 as nat))
    };
    parts.0 + seq![':', '/', '/'] + parts.1 + port + routes_text(parts.4) + query_text(order)
}

/// `?` and the `<name>=<value>` pairs, or nothing where there are none.
pub open spec fn query_text(order: Seq<(Seq<char>, Seq<char>)>) -> Seq<char> {
    if order.len() == 0 {
        Seq::empty()
    } else {
        seq!['?'] + params_text(order)
    }
}

/// The routes that carry a URL path: the path without its leading `/`, or
/// none for an empty path.
pub open spec fn route_of(path: Seq<char>) -> Seq<Seq<char>> {
    if path.len() == 0 {
        Seq::empty()
    } else if path[0] == '/' {
        seq![path.drop_first()]
    } else {
        seq![path]
    }
}

/// The URL with the parts `u`, up to its query:
/// `<scheme>://<host>[:<port>]<path>`.
pub open spec fn url_base(u: (Seq<char>, Seq<char>, Option<u16>, Seq<char>)) -> Seq<char> {
    let port = match u.2 {
        Some(p) => if p == 0 {
            Seq::empty()
        } else {
            seq![':'] + ascii_chars(decimal(p as nat))
        },
        None => Seq::empty(),
    };
    u.0 + seq![':', '/', '/'] + u.1 + port + u.3
}


/// The lowercase hexadecimal digit for `d < 16`, as a byte.
pub open spec fn hex_byte(d: u8) -> u8 {
    if d < 10 {
        (d + 48) as u8
    } else {
        (d + 87) as u8
    }
}

/// `%` and two lowercase hexadecimal digits for each byte.
pub open spec fn percent_bytes(b: Seq<u8>) -> Seq<u8>
    decreases b.len(),
{
    if b.len() == 0 {
        Seq::empty()
    } else {
        percent_bytes(b.drop_last()) + seq![37u8, hex_byte(b.last() / 16), hex_byte(b.last() % 16)]
    }
}

proof fn lemma_decimal_ascii(n: nat)
    ensures
        is_ascii_bytes(decimal(n)),
    decreases n,
{
    if n >= 10 {
        lemma_decimal_ascii(n / 10);
    }
}

proof fn lemma_percent_ascii(b: Seq<u8>)
    ensures
        is_ascii_bytes(percent_bytes(b)),
    decreases b.len(),
{
    if b.len() > 0 {
        lemma_percent_ascii(b.drop_last());
    }
}

/// The decimal text of `n`.
fn number_text(n: u64) -> (r: String)
    ensures
        r@ == ascii_chars(decimal(n as nat)),
{
    let mut digits: Vec<u8> = Vec::new();
    push_decimal(&mut digits, n);
    proof {
        assert(digits@ =~= decimal(n as nat));
        lemma_decimal_ascii(n as nat);
    }
    utf8_lossy(digits.as_slice())
}

/// `%xx` for each byte, lowercase.
fn percent_encode(b: &[u8]) -> (r: String)
    ensures
        r@ == ascii_chars(percent_bytes(b@)),
{
    let mut out: Vec<u8> = Vec::new();
    let mut i: usize = 0;
    while i < b.len()
        invariant
            i <= b@.len(),
            out@ == percent_bytes(b@.take(i as int)),
        decreases b.len() - i,
    {
        let x = b[i];
        let hi = x / 16;
        let lo = x % 16;
        out.push(37u8);
        out.push(if hi < 10 { hi + 48 } else { hi + 87 });
        out.push(if lo < 10 { lo + 48 } else { lo + 87 });
        assert(b@.take(i as int + 1).drop_last() =~= b@.take(i as int));
        assert(out@ =~= percent_bytes(b@.take(i as int + 1)));
        i += 1;
    }
    proof {
        assert(b@.take(b@.len() as int) =~= b@);
        lemma_percent_ascii(b@);
    }
    utf8_lossy(out.as_slice())
}

/// A request to a tracker to announce this client and ask for peers.
#[derive(Debug, PartialEq, Eq)]
pub struct TrackerRequest {
    pub tracker_url: String,
    pub info_hash: [u8; 20],
    pub peer_id: [u8; 20],
    pub port: u16,
    pub uploaded: u32,
    pub downloaded: u32,
    pub left: u32,
    pub compact: u8,
}

/// The query parameters of an announce.
pub open spec fn announce_params(r: TrackerRequest) -> Map<Seq<char>, Seq<char>> {
    Map::empty().insert("info_hash"@, ascii_chars(percent_bytes(r.info_hash@))).insert(
        "peer_id"@,
        ascii_chars(percent_bytes(r.peer_id@)),
    ).insert("port"@, ascii_chars(decimal(r.port as nat))).insert(
        "uploaded"@,
        ascii_chars(decimal(r.uploaded as nat)),
    ).insert("downloaded"@, ascii_chars(decimal(r.downloaded as nat))).insert(
        "left"@,
        ascii_chars(decimal(r.left as nat)),
    ).insert("compact"@, ascii_chars(decimal(r.compact as nat)))
}

/// What the builder holds for an announce to the tracker whose URL has the
/// parts `u`: its scheme, host and port, the route that carries its path,
/// and the announce parameters.
pub open spec fn announce_parts(
    u: (Seq<char>, Seq<char>, Option<u16>, Seq<char>),
    params: Map<Seq<char>, Seq<char>>,
) -> (Seq<char>, Seq<char>, u16, Map<Seq<char>, Seq<char>>, Seq<Seq<char>>) {
    let port = match u.2 {
        Some(p) => p,
        None => 0u16,
    };
    (u.0, u.1, port, params, route_of(u.3))
}

/// With a path that is empty or starts with `/`, the builder writes the
/// URL's own base and then the query.
proof fn lemma_announce_base(
    u: (Seq<char>, Seq<char>, Option<u16>, Seq<char>),
    params: Map<Seq<char>, Seq<char>>,
    order: Seq<(Seq<char>, Seq<char>)>,
)
    requires
        u.3.len() == 0 || u.3[0] == '/',
    ensures
        built_url(announce_parts(u, params), order) == url_base(u) + query_text(order),
{
    let r = route_of(u.3);
    if u.3.len() == 0 {
        assert(routes_text(r) =~= u.3);
    } else {
        assert(r.drop_last() =~= Seq::<Seq<char>>::empty());
        assert(routes_text(r.drop_last()) == Seq::<char>::empty());
        assert(r.last() == u.3.drop_first());
        assert(routes_text(r) == seq!['/'] + u.3.drop_first());
        assert(routes_text(r) =~= u.3);
    }
    assert(built_url(announce_parts(u, params), order) =~= url_base(u) + query_text(order));
}

impl TrackerRequest {
    /// An announce from port 6881 that has uploaded and downloaded nothing
    /// yet and asks for a compact peer list.
    pub fn new(tracker_url: String, info_hash: [u8; 20], peer_id: [u8; 20], left: u32) -> (r:
        TrackerRequest)
        ensures
            r.tracker_url@ == tracker_url@,
            r.info_hash@ == info_hash@,
            r.peer_id@ == peer_id@,
            r.left == left,
            r.port == 6881,
            r.uploaded == 0,
            r.downloaded == 0,
            r.compact == 1,
    {
        TrackerRequest {
            tracker_url,
            info_hash,
            peer_id,
            left,
            port: 6881,
            uploaded: 0,
            downloaded: 0,
            compact: 1,
        }
    }

    /// The info hash percent-encoded: `%xx` for each byte, lowercase.
    pub fn url_encode_info_hash(&self) -> (r: String)
        ensures
            r@ == ascii_chars(percent_bytes(self.info_hash@)),
    {
        percent_encode(self.info_hash.as_slice())
    }

    /// The announce URL: the tracker's scheme, host, port and path, then
    /// the query parameters `info_hash`, `peer_id`, `port`, `uploaded`,
    /// `downloaded`, `left` and `compact`, the two ids percent-encoded.
    /// `None` where the tracker URL does not parse or names no host.
    pub fn url_encode(&self) -> (r: Option<String>)
        ensures
            r is None <==> url_parts_of(self.tracker_url@) is None,
            r matches Some(u) ==> is_built_url(
                u@,
                announce_parts(url_parts_of(self.tracker_url@)->Some_0, announce_params(*self)),
            ),
            r matches Some(u) ==> ({
                let parts = url_parts_of(self.tracker_url@)->Some_0;
                (parts.3.len() == 0 || parts.3[0] == '/') ==> exists|
                    order: Seq<(Seq<char>, Seq<char>)>,
                |
                    is_param_order(order, announce_params(*self)) && u@ == url_base(parts)
                        + #[trigger] query_text(order)
            }),
    {
        let (protocol, host, port, path) = match parse_url(self.tracker_url.as_str()) {
            Some(parts) => parts,
            None => {
                return None;
            },
        };
        let mut ub = builder_new();
        builder_set_protocol(&mut ub, protocol.as_str());
        builder_set_host(&mut ub, host.as_str());
        if let Some(p) = port {
            builder_set_port(&mut ub, p);
        }
        let p = path.as_str();
        let n = p.unicode_len();
        if n > 0 {
            if p.get_char(0) == '/' {
                builder_add_route(&mut ub, p.substring_char(1, n));
                assert(p@.subrange(1, n as int) =~= p@.drop_first());
            } else {
                builder_add_route(&mut ub, p);
            }
        }
        let info_hash = self.url_encode_info_hash();
        let peer_id = percent_encode(self.peer_id.as_slice());
        let port_text = number_text(self.port as u64);
        let uploaded = number_text(self.uploaded as u64);
        let downloaded = number_text(self.downloaded as u64);
        let left = number_text(self.left as u64);
        let compact = number_text(self.compact as u64);
        builder_add_param(&mut ub, "info_hash", info_hash.as_str());
        builder_add_param(&mut ub, "peer_id", peer_id.as_str());
        builder_add_param(&mut ub, "port", port_text.as_str());
        builder_add_param(&mut ub, "uploaded", uploaded.as_str());
        builder_add_param(&mut ub, "downloaded", downloaded.as_str());
        builder_add_param(&mut ub, "left", left.as_str());
        builder_add_param(&mut ub, "compact", compact.as_str());
        proof {
            assert(builder_parts(ub).3 =~= announce_params(*self));
            assert(builder_parts(ub).4 =~= route_of(path@));
            assert(builder_parts(ub) == announce_parts(
                url_parts_of(self.tracker_url@)->Some_0,
                announce_params(*self),
            ));
        }
        let u = builder_build(ub);
        proof {
            let parts = url_parts_of(self.tracker_url@)->Some_0;
            if parts.3.len() == 0 || parts.3[0] == '/' {
                let order = choose|order: Seq<(Seq<char>, Seq<char>)>|
                    is_param_order(order, announce_params(*self)) && u@ == #[trigger] built_url(
                        announce_parts(parts, announce_params(*self)),
                        order,
                    );
                lemma_announce_base(parts, announce_params(*self), order);
            }
        }
        Some(u)
    }
}

} // verus!
