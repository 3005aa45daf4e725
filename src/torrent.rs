//! The torrent descriptor: a typed view over a decoded metainfo dictionary.
use vstd::prelude::*;
use crate::bencode::{
    keys_ascending, lemma_canon_when_ascending, canon, copy_range, decode, dict_get, enc, encode, is_prefix, lookup, BencodeError,
    BencodeValue,
};
use crate::digest::{sha1_bytes, sha1_of};

verus! {

/// One file of a multi-file torrent.
#[derive(Debug, PartialEq, Eq)]
pub struct File {
    /// The path components.
    pub path: Vec<Vec<u8>>,
    pub length: u32,
}

/// The `info` block of a torrent.
#[derive(Debug, PartialEq, Eq)]
pub struct Info {
    pub name: Vec<u8>,
    /// The concatenated 20-byte SHA-1 digests, one per piece.
    pub pieces: Vec<u8>,
    /// Bytes per piece; the last piece may be shorter.
    pub piece_length: u32,
    /// Total length of the content in bytes: the `length` entry, or else
    /// the sum of the file lengths.
    pub length: u32,
    /// The per-file length list of a multi-file torrent.
    pub files: Option<Vec<File>>,
}

/// A DHT node that the torrent names: host and port.
#[derive(Debug, PartialEq, Eq)]
pub struct Node(pub Vec<u8>, pub i64);

/// A parsed torrent file.
#[derive(Debug, PartialEq, Eq)]
pub struct Torrent {
    pub announce: Option<Vec<u8>>,
    pub nodes: Option<Vec<Node>>,
    pub info: Info,
    /// The bencoding of the `info` dictionary, from which the info hash is
    /// computed.
    pub info_bencoded: Vec<u8>,
}

/// Why a metainfo file is not a usable torrent descriptor.
#[derive(Debug, PartialEq, Eq, Clone, Copy)]
pub enum TorrentError {
    /// The file is not bencoded.
    Bencode(BencodeError),
    /// The file, or its `info` entry, is not a dictionary.
    NotADictionary,
    /// `info`, `info.pieces` or `info.piece length` is absent.
    MissingField,
    /// A field holds a value of the wrong kind or out of range.
    InvalidField,
    /// The digest table does not hold one 20-byte digest per piece.
    InvalidPieceTable,
}

pub open spec fn key_info() -> Seq<u8> {
    seq![105u8, 110, 102, 111]
}

pub open spec fn key_announce() -> Seq<u8> {
    seq![97u8, 110, 110, 111, 117, 110, 99, 101]
}

pub open spec fn key_name() -> Seq<u8> {
    seq![110u8, 97, 109, 101]
}

pub open spec fn key_pieces() -> Seq<u8> {
    seq![112u8, 105, 101, 99, 101, 115]
}

pub open spec fn key_piece_length() -> Seq<u8> {
    seq![112u8, 105, 101, 99, 101, 32, 108, 101, 110, 103, 116, 104]
}

pub open spec fn key_length() -> Seq<u8> {
    seq![108u8, 101, 110, 103, 116, 104]
}

pub open spec fn key_nodes() -> Seq<u8> {
    seq![110u8, 111, 100, 101, 115]
}

/// A node entry: a list of a host byte string and an integer port.
pub open spec fn node_ok(v: BencodeValue) -> bool {
    v matches BencodeValue::List(l) && l@.len() == 2 && l@[0] is Bytes && l@[1] is Int
}

pub open spec fn nodes_ok(s: Seq<BencodeValue>) -> bool {
    forall|i: int| 0 <= i < s.len() ==> node_ok(#[trigger] s[i])
}

/// A list of node entries.
pub open spec fn nodes_valid(o: Option<BencodeValue>) -> bool {
    match o {
        Some(BencodeValue::List(n)) => nodes_ok(n@),
        _ => false,
    }
}

/// `x` holds what the node entry `v` says.
pub open spec fn node_describes(x: Node, v: BencodeValue) -> bool {
    x.0@ == v->List_0@[0]->Bytes_0@ && x.1 == v->List_0@[1]->Int_0
}

pub open spec fn key_files() -> Seq<u8> {
    seq![102u8, 105, 108, 101, 115]
}

pub open spec fn key_path() -> Seq<u8> {
    seq![112u8, 97, 116, 104]
}

/// A list of byte strings.
pub open spec fn is_path(o: Option<BencodeValue>) -> bool {
    match o {
        Some(BencodeValue::List(p)) => forall|i: int| 0 <= i < p@.len() ==> (#[trigger] p@[i]) is Bytes,
        _ => false,
    }
}

/// A file entry: a dictionary with a `length` in `0..=u32::MAX` and a
/// `path` that is a list of byte strings.
pub open spec fn file_ok(v: BencodeValue) -> bool {
    &&& v is Dict
    &&& is_u32_at_least(lookup(v->Dict_0@, key_length()), 0)
    &&& is_path(lookup(v->Dict_0@, key_path()))
}

/// The sum of the lengths of the file entries.
pub open spec fn files_total(s: Seq<BencodeValue>) -> int
    decreases s.len(),
{
    if s.len() == 0 {
        0
    } else {
        files_total(s.drop_last()) + int_or_zero(lookup(s.last()->Dict_0@, key_length()))
    }
}

/// A list of file entries whose lengths sum to at most `u32::MAX`.
pub open spec fn files_valid(o: Option<BencodeValue>) -> bool {
    match o {
        Some(BencodeValue::List(f)) => (forall|i: int| 0 <= i < f@.len() ==> file_ok(#[trigger] f@[i]))
            && files_total(f@) <= u32::MAX,
        _ => false,
    }
}

/// The total length that the `info` dictionary `d` gives: its `length`, or
/// else the sum of its file lengths.
pub open spec fn total_length(d: Seq<(Vec<u8>, BencodeValue)>) -> int {
    if lookup(d, key_length()) is Some {
        int_or_zero(lookup(d, key_length()))
    } else {
        match lookup(d, key_files()) {
            Some(BencodeValue::List(f)) => files_total(f@),
            _ => 0,
        }
    }
}

/// `x` holds what the file entry `v` says.
pub open spec fn file_describes(x: File, v: BencodeValue) -> bool {
    let p = lookup(v->Dict_0@, key_path())->Some_0->List_0@;
    &&& x.length == int_or_zero(lookup(v->Dict_0@, key_length()))
    &&& x.path@.len() == p.len()
    &&& forall|j: int| 0 <= j < p.len() ==> (#[trigger] x.path@[j])@ == p[j]->Bytes_0@
}

/// `fs` holds what the file entries `f` say, in order.
pub open spec fn files_describe(fs: Seq<File>, f: Seq<BencodeValue>) -> bool {
    fs.len() == f.len() && forall|i: int| 0 <= i < f.len() ==> file_describes(#[trigger] fs[i], f[i])
}

/// `ceil(a / b)`, for `b > 0`.
pub open spec fn ceil_div(a: nat, b: nat) -> nat
    recommends
        b > 0,
{
    ((a + b - 1) as nat) / b
}

/// One 20-byte digest for each of the `ceil(length / piece_length)` pieces.
pub open spec fn valid_piece_table(pieces_len: nat, length: nat, piece_length: nat) -> bool {
    &&& piece_length > 0
    &&& pieces_len % 20 == 0
    &&& pieces_len / 20 == ceil_div(length, piece_length)
}

pub open spec fn is_bytes(v: Option<BencodeValue>) -> bool {
    v matches Some(BencodeValue::Bytes(_))
}

/// An integer in `lo..=u32::MAX`.
pub open spec fn is_u32_at_least(v: Option<BencodeValue>, lo: int) -> bool {
    v matches Some(BencodeValue::Int(i)) && lo <= i <= u32::MAX
}

pub open spec fn bytes_or_empty(v: Option<BencodeValue>) -> Seq<u8> {
    match v {
        Some(BencodeValue::Bytes(b)) => b@,
        _ => Seq::empty(),
    }
}

pub open spec fn int_or_zero(v: Option<BencodeValue>) -> int {
    match v {
        Some(BencodeValue::Int(i)) => i as int,
        _ => 0,
    }
}

/// The first rule of the `info` dictionary `d` that fails, if any.
pub open spec fn info_error(d: Seq<(Vec<u8>, BencodeValue)>) -> Option<TorrentError> {
    let pieces = lookup(d, key_pieces());
    let piece_length = lookup(d, key_piece_length());
    let length = lookup(d, key_length());
    let name = lookup(d, key_name());
    let files = lookup(d, key_files());
    if pieces is None || piece_length is None {
        Some(TorrentError::MissingField)
    } else if !is_bytes(pieces) || !is_u32_at_least(piece_length, 1) || (length is Some
        && !is_u32_at_least(length, 0)) || (name is Some && !is_bytes(name)) || (files is Some
        && !files_valid(files)) {
        Some(TorrentError::InvalidField)
    } else if !valid_piece_table(
        bytes_or_empty(pieces).len(),
        total_length(d) as nat,
        int_or_zero(piece_length) as nat,
    ) {
        Some(TorrentError::InvalidPieceTable)
    } else {
        None
    }
}

/// The first rule of the metainfo dictionary `root` that fails, if any.
pub open spec fn torrent_error(root: BencodeValue) -> Option<TorrentError> {
    match root {
        BencodeValue::Dict(d) => {
            let announce = lookup(d@, key_announce());
            let nodes = lookup(d@, key_nodes());
            match lookup(d@, key_info()) {
                None => Some(TorrentError::MissingField),
                Some(BencodeValue::Dict(i)) => {
                    if info_error(i@) is Some {
                        info_error(i@)
                    } else if (announce is Some && !is_bytes(announce)) || (nodes is Some
                        && !nodes_valid(nodes)) {
                        Some(TorrentError::InvalidField)
                    } else {
                        None
                    }
                },
                Some(_) => Some(TorrentError::NotADictionary),
            }
        },
        _ => Some(TorrentError::NotADictionary),
    }
}


/// `t` holds what the metainfo dictionary `root` says.
pub open spec fn describes(t: Torrent, root: BencodeValue) -> bool {
    let d = root->Dict_0@;
    let info = lookup(d, key_info())->Some_0->Dict_0@;
    &&& t.info.pieces@ == bytes_or_empty(lookup(info, key_pieces()))
    &&& t.info.piece_length == int_or_zero(lookup(info, key_piece_length()))
    &&& t.info.length == total_length(info)
    &&& (t.info.files is None <==> lookup(info, key_files()) is None)
    &&& (t.info.files matches Some(fs) ==> files_describe(
        fs@,
        lookup(info, key_files())->Some_0->List_0@,
    ))
    &&& t.info.name@ == bytes_or_empty(lookup(info, key_name()))
    &&& t.info_bencoded@ == canon(lookup(d, key_info())->Some_0)
    &&& (t.announce matches Some(a) ==> a@ == bytes_or_empty(lookup(d, key_announce())))
    &&& (t.announce is None <==> lookup(d, key_announce()) is None)
    &&& (t.nodes is None <==> lookup(d, key_nodes()) is None)
    &&& (t.nodes matches Some(ns) ==> {
        let n = lookup(d, key_nodes())->Some_0->List_0@;
        ns@.len() == n.len() && forall|i: int| 0 <= i < n.len() ==> node_describes(#[trigger] ns@[i], n[i])
    })
    &&& t.info.wf()
}

/// The value as a `u32` no smaller than `lo`, if it is one.
fn int_as_u32(v: &BencodeValue, lo: u32) -> (r: Option<u32>)
    ensures
        r matches Some(n) ==> is_u32_at_least(Some(*v), lo as int) && n == int_or_zero(Some(*v)),
        r is None ==> !is_u32_at_least(Some(*v), lo as int),
{
    match v {
        BencodeValue::Int(i) => {
            if *i >= lo as i64 && *i <= 4294967295i64 {
                Some(*i as u32)
            } else {
                None
            }
        },
        _ => None,
    }
}

/// Reads one file entry.
fn file_from_value(v: &BencodeValue) -> (r: Option<File>)
    ensures
        r is None <==> !file_ok(*v),
        r matches Some(x) ==> file_describes(x, *v),
{
    let d = match v {
        BencodeValue::Dict(d) => d,
        _ => {
            return None;
        },
    };
    let k_length: [u8; 6] = [108, 101, 110, 103, 116, 104];
    let k_path: [u8; 4] = [112, 97, 116, 104];
    assert(k_length@ =~= key_length());
    assert(k_path@ =~= key_path());
    let length = match dict_get(d, k_length.as_slice()) {
        Some(x) => match int_as_u32(x, 0) {
            Some(n) => n,
            None => {
                return None;
            },
        },
        None => {
            return None;
        },
    };
    let p = match dict_get(d, k_path.as_slice()) {
        Some(BencodeValue::List(p)) => p,
        _ => {
            return None;
        },
    };
    let mut path: Vec<Vec<u8>> = Vec::new();
    let mut j: usize = 0;
    while j < p.len()
        invariant
            j <= p@.len(),
            path@.len() == j,
            *v == BencodeValue::Dict(*d),
            lookup(d@, key_path()) == Some(BencodeValue::List(*p)),
            is_u32_at_least(lookup(d@, key_length()), 0),
            length == int_or_zero(lookup(d@, key_length())),
            forall|t: int| 0 <= t < j ==> (#[trigger] p@[t]) is Bytes,
            forall|t: int| 0 <= t < j ==> (#[trigger] path@[t])@ == p@[t]->Bytes_0@,
        decreases p.len() - j,
    {
        match &p[j] {
            BencodeValue::Bytes(b) => {
                path.push(copy_range(b.as_slice(), 0, b.len()));
            },
            _ => {
                assert(!(p@[j as int] is Bytes));
                return None;
            },
        }
        j += 1;
    }
    Some(File { path, length })
}

proof fn lemma_files_total_grows(s: Seq<BencodeValue>, k: int)
    requires
        0 <= k <= s.len(),
        forall|i: int| 0 <= i < s.len() ==> file_ok(#[trigger] s[i]),
    ensures
        files_total(s.take(k)) <= files_total(s),
    decreases s.len(),
{
    if k < s.len() {
        let t = s.drop_last();
        assert(t.take(k) =~= s.take(k));
        assert forall|i: int| 0 <= i < t.len() implies file_ok(#[trigger] t[i]) by {
            assert(t[i] == s[i]);
        }
        lemma_files_total_grows(t, k);
        assert(file_ok(s[s.len() - 1]));
    } else {
        assert(s.take(k) =~= s);
    }
}

/// Reads the per-file length list and sums the lengths.
fn files_from_value(v: &BencodeValue) -> (r: Option<(Vec<File>, u32)>)
    ensures
        r is None <==> !files_valid(Some(*v)),
        r matches Some((fs, total)) ==> files_describe(fs@, v->List_0@) && total == files_total(
            v->List_0@,
        ),
{
    let f = match v {
        BencodeValue::List(f) => f,
        _ => {
            return None;
        },
    };
    let mut fs: Vec<File> = Vec::new();
    let mut total: u64 = 0;
    let mut i: usize = 0;
    while i < f.len()
        invariant
            i <= f@.len(),
            fs@.len() == i,
            *v == BencodeValue::List(*f),
            forall|t: int| 0 <= t < i ==> file_ok(#[trigger] f@[t]),
            forall|t: int| 0 <= t < i ==> file_describes(#[trigger] fs@[t], f@[t]),
            total == files_total(f@.take(i as int)),
            total <= u32::MAX,
        decreases f.len() - i,
    {
        let x = match file_from_value(&f[i]) {
            Some(x) => x,
            None => {
                assert(!file_ok(f@[i as int]));
                return None;
            },
        };
        assert(f@.take(i as int + 1).drop_last() =~= f@.take(i as int));
        assert(f@.take(i as int + 1).last() == f@[i as int]);
        assert(files_total(f@.take(i as int + 1)) == total + x.length);
        total = total + x.length as u64;
        if total > 4294967295u64 {
            proof {
                if forall|t: int| 0 <= t < f@.len() ==> file_ok(#[trigger] f@[t]) {
                    lemma_files_total_grows(f@, i as int + 1);
                }
            }
            return None;
        }
        fs.push(x);
        i += 1;
    }
    assert(f@.take(f@.len() as int) =~= f@);
    Some((fs, total as u32))
}

/// Reads the list of DHT nodes.
fn nodes_from_value(v: &BencodeValue) -> (r: Option<Vec<Node>>)
    ensures
        r is None <==> !nodes_valid(Some(*v)),
        r matches Some(ns) ==> ns@.len() == v->List_0@.len() && forall|i: int|
            0 <= i < ns@.len() ==> node_describes(#[trigger] ns@[i], v->List_0@[i]),
{
    let n = match v {
        BencodeValue::List(n) => n,
        _ => {
            return None;
        },
    };
    let mut ns: Vec<Node> = Vec::new();
    let mut i: usize = 0;
    while i < n.len()
        invariant
            i <= n@.len(),
            ns@.len() == i,
            *v == BencodeValue::List(*n),
            forall|t: int| 0 <= t < i ==> node_ok(#[trigger] n@[t]),
            forall|t: int| 0 <= t < i ==> node_describes(#[trigger] ns@[t], n@[t]),
        decreases n.len() - i,
    {
        let node = match &n[i] {
            BencodeValue::List(pair) => {
                if pair.len() != 2 {
                    assert(!node_ok(n@[i as int]));
                    assert(!nodes_ok(n@));
                    return None;
                }
                match (&pair[0], &pair[1]) {
                    (BencodeValue::Bytes(host), BencodeValue::Int(port)) => {
                        let node = Node(copy_range(host.as_slice(), 0, host.len()), *port);
                        assert(n@[i as int] == BencodeValue::List(*pair));
                        assert(pair@[0] == BencodeValue::Bytes(*host));
                        assert(pair@[1] == BencodeValue::Int(*port));
                        assert(node.0@ =~= host@);
                        assert(node_describes(node, n@[i as int]));
                        node
                    },
                    _ => {
                        assert(!node_ok(n@[i as int]));
                        assert(!nodes_ok(n@));
                        return None;
                    },
                }
            },
            _ => {
                assert(!node_ok(n@[i as int]));
                assert(!nodes_ok(n@));
                return None;
            },
        };
        ns.push(node);
        i += 1;
    }
    Some(ns)
}

/// Builds the descriptor from a decoded metainfo dictionary, checking that
/// the fields it needs are there and that the digest table matches the
/// length.
pub fn torrent_from_value(root: &BencodeValue) -> (r: Result<Torrent, TorrentError>)
    ensures
        torrent_error(*root) matches Some(e) ==> r == Err::<Torrent, TorrentError>(e),
        torrent_error(*root) is None ==> (r matches Ok(t) && describes(t, *root)),
{
    let d = match root {
        BencodeValue::Dict(d) => d,
        _ => {
            return Err(TorrentError::NotADictionary);
        },
    };
    let k_info: [u8; 4] = [105, 110, 102, 111];
    let k_announce: [u8; 8] = [97, 110, 110, 111, 117, 110, 99, 101];
    let k_name: [u8; 4] = [110, 97, 109, 101];
    let k_pieces: [u8; 6] = [112, 105, 101, 99, 101, 115];
    let k_piece_length: [u8; 12] = [112, 105, 101, 99, 101, 32, 108, 101, 110, 103, 116, 104];
    let k_length: [u8; 6] = [108, 101, 110, 103, 116, 104];
    let k_files: [u8; 5] = [102, 105, 108, 101, 115];
    assert(k_files@ =~= key_files());
    assert(k_info@ =~= key_info());
    assert(k_announce@ =~= key_announce());
    assert(k_name@ =~= key_name());
    assert(k_pieces@ =~= key_pieces());
    assert(k_piece_length@ =~= key_piece_length());
    assert(k_length@ =~= key_length());
    let info_value = match dict_get(d, k_info.as_slice()) {
        Some(v) => v,
        None => {
            return Err(TorrentError::MissingField);
        },
    };
    let info = match info_value {
        BencodeValue::Dict(i) => i,
        _ => {
            return Err(TorrentError::NotADictionary);
        },
    };
    let pieces = dict_get(info, k_pieces.as_slice());
    let piece_length = dict_get(info, k_piece_length.as_slice());
    let length = dict_get(info, k_length.as_slice());
    let has_length = length.is_some();
    let name = dict_get(info, k_name.as_slice());
    let (pieces, piece_length) = match (pieces, piece_length) {
        (Some(p), Some(l)) => (p, l),
        _ => {
            return Err(TorrentError::MissingField);
        },
    };
    let pieces = match pieces {
        BencodeValue::Bytes(b) => b,
        _ => {
            return Err(TorrentError::InvalidField);
        },
    };
    let piece_length = match int_as_u32(piece_length, 1) {
        Some(n) => n,
        None => {
            return Err(TorrentError::InvalidField);
        },
    };
    let length = match length {
        Some(v) => match int_as_u32(v, 0) {
            Some(n) => n,
            None => {
                return Err(TorrentError::InvalidField);
            },
        },
        None => 0,
    };
    let name = match name {
        Some(BencodeValue::Bytes(b)) => copy_range(b.as_slice(), 0, b.len()),
        Some(_) => {
            return Err(TorrentError::InvalidField);
        },
        None => Vec::new(),
    };
    let (files, files_total) = match dict_get(info, k_files.as_slice()) {
        Some(v) => match files_from_value(v) {
            Some((fs, total)) => (Some(fs), total),
            None => {
                return Err(TorrentError::InvalidField);
            },
        },
        None => (None, 0),
    };
    let length = if has_length {
        length
    } else {
        files_total
    };
    let count = (length as u64 + piece_length as u64 - 1) / piece_length as u64;
    if pieces.len() % 20 != 0 || (pieces.len() / 20) as u64 != count {
        return Err(TorrentError::InvalidPieceTable);
    }
    let announce = match dict_get(d, k_announce.as_slice()) {
        Some(BencodeValue::Bytes(a)) => Some(copy_range(a.as_slice(), 0, a.len())),
        Some(_) => {
            return Err(TorrentError::InvalidField);
        },
        None => None,
    };
    let k_nodes: [u8; 5] = [110, 111, 100, 101, 115];
    assert(k_nodes@ =~= key_nodes());
    let nodes = match dict_get(d, k_nodes.as_slice()) {
        Some(v) => match nodes_from_value(v) {
            Some(ns) => Some(ns),
            None => {
                return Err(TorrentError::InvalidField);
            },
        },
        None => None,
    };
    let info_bencoded = encode(info_value);
    let pieces = copy_range(pieces.as_slice(), 0, pieces.len());
    proof {
        assert(pieces@ =~= bytes_or_empty(lookup(info@, key_pieces())));
        assert(ceil_div(length as nat, piece_length as nat) == count);
        assert(valid_piece_table(pieces@.len(), length as nat, piece_length as nat));
        let dd = root->Dict_0@;
        let ii = lookup(dd, key_info())->Some_0->Dict_0@;
        assert(ii == info@);
        assert(name@ == bytes_or_empty(lookup(ii, key_name())));
        assert(length == total_length(ii));
        assert(piece_length == int_or_zero(lookup(ii, key_piece_length())));
        assert(info_bencoded@ == canon(lookup(dd, key_info())->Some_0));
        assert(announce matches Some(a) ==> a@ == bytes_or_empty(lookup(dd, key_announce())));
        assert(announce is None <==> lookup(dd, key_announce()) is None);
    }
    Ok(Torrent {
        announce,
        nodes,
        info: Info { name, pieces, piece_length, length, files },
        info_bencoded,
    })
}

/// Decodes a metainfo file and builds its descriptor. It fails with a
/// bencode error exactly when the file does not begin with a bencoded
/// value; any other error is the first rule that the decoded value breaks.
pub fn parse_torrent_file(data: &[u8]) -> (r: Result<Torrent, TorrentError>)
    ensures
        r matches Ok(t) ==> exists|root: BencodeValue, n: int|
            #![trigger describes(t, root), data@.take(n)]
            0 < n <= data@.len() && data@.take(n) == enc(root) && torrent_error(root) is None
                && describes(t, root),
        r matches Err(TorrentError::Bencode(_)) <==> forall|root: BencodeValue|
            !is_prefix(#[trigger] enc(root), data@),
        (r is Err && !(r->Err_0 is Bencode)) ==> exists|root: BencodeValue|
            is_prefix(#[trigger] enc(root), data@) && torrent_error(root) == Some(r->Err_0),
        data@.len() == 0 ==> r == Err::<Torrent, TorrentError>(
            TorrentError::Bencode(BencodeError::UnexpectedEof),
        ),
{
    match decode(data) {
        Ok((root, n)) => {
            let r = torrent_from_value(&root);
            proof {
                assert(data@.take(n as int) == enc(root));
                assert(is_prefix(enc(root), data@));
                if r is Ok {
                    assert(describes(r->Ok_0, root));
                }
            }
            r
        },
        Err(e) => Err(TorrentError::Bencode(e)),
    }
}

impl Info {
    /// Positive piece length, and one digest per piece.
    pub open spec fn wf(&self) -> bool {
        valid_piece_table(self.pieces@.len(), self.length as nat, self.piece_length as nat)
    }
}


impl Torrent {
    /// The number of pieces: `ceil(length / piece_length)`.
    pub fn number_of_pieces(&self) -> (r: u32)
        requires
            self.info.wf(),
        ensures
            r == ceil_div(self.info.length as nat, self.info.piece_length as nat),
            r == self.info.pieces@.len() / 20,
    {
        proof {
            lemma_ceil_at_most(self.info.length as nat, self.info.piece_length as nat);
        }
        (self.info.pieces.len() / 20) as u32
    }

    /// The length of piece `index`: the piece length, but for a shorter last
    /// piece, which holds what is left of the content.
    pub fn piece_size(&self, index: u32) -> (r: u32)
        requires
            self.info.wf(),
            (index as nat) < self.info.pieces@.len() / 20,
        ensures
            r == piece_size_of(self.info.length as nat, self.info.piece_length as nat, index as nat),
    {
        proof {
            lemma_piece_count(self.info);
            lemma_piece_start(
                index as nat,
                self.info.pieces@.len() / 20,
                self.info.piece_length as nat,
                self.info.length as nat,
            );
        }
        let start = index as u64 * self.info.piece_length as u64;
        let rest = self.info.length as u64 - start;
        if rest < self.info.piece_length as u64 {
            rest as u32
        } else {
            self.info.piece_length
        }
    }

    /// The expected 20-byte digest of piece `index`.
    pub fn piece_hash(&self, index: u32) -> (r: Vec<u8>)
        requires
            self.info.wf(),
            (index as nat) < self.info.pieces@.len() / 20,
        ensures
            r@ == piece_hash_of(self.info.pieces@, index as nat),
    {
        proof {
            lemma_table_entry(index as nat, self.info.pieces@.len());
            assert(20 * (index as usize) + 20 <= self.info.pieces.len());
        }
        let start = 20 * (index as usize);
        copy_range(self.info.pieces.as_slice(), start, start + 20)
    }

    /// The table of expected piece digests, one 20-byte entry per piece.
    pub fn piece_hashes(&self) -> (r: Vec<Vec<u8>>)
        requires
            self.info.wf(),
        ensures
            r@.len() == ceil_div(self.info.length as nat, self.info.piece_length as nat),
            forall|i: int|
                0 <= i < r@.len() ==> #[trigger] r@[i]@ == piece_hash_of(self.info.pieces@, i as nat),
    {
        let n = self.number_of_pieces();
        let mut r: Vec<Vec<u8>> = Vec::new();
        let mut i: u32 = 0;
        while i < n
            invariant
                self.info.wf(),
                i <= n,
                n == self.info.pieces@.len() / 20,
                r@.len() == i,
                forall|j: int|
                    0 <= j < i ==> #[trigger] r@[j]@ == piece_hash_of(self.info.pieces@, j as nat),
            decreases n - i,
        {
            r.push(self.piece_hash(i));
            i += 1;
        }
        r
    }

    /// The info hash: the SHA-1 digest of the bencoded `info` dictionary.
    pub fn info_hash(&self) -> (r: [u8; 20])
        ensures
            r@ == sha1_of(self.info_bencoded@),
    {
        let bytes = copy_range(self.info_bencoded.as_slice(), 0, self.info_bencoded.len());
        assert(bytes@ =~= self.info_bencoded@);
        sha1_bytes(bytes)
    }
}

proof fn lemma_ceil_at_most(l: nat, p: nat)
    requires
        p > 0,
    ensures
        ceil_div(l, p) <= l,
{
    assert(((l + p - 1) as nat) / p <= l) by (nonlinear_arith)
        requires
            p > 0,
    ;
}

proof fn lemma_piece_start(index: nat, n: nat, p: nat, l: nat)
    requires
        index < n,
        n > 0 ==> (n - 1) * p < l,
    ensures
        index * p < l,
{
    assert(index * p <= (n - 1) * p) by (nonlinear_arith)
        requires
            index <= n - 1,
    ;
}

proof fn lemma_table_entry(index: nat, len: nat)
    requires
        index < len / 20,
    ensures
        20 * index + 20 <= len,
{
}

/// The digest of piece `index` in the concatenated table `pieces`.
pub open spec fn piece_hash_of(pieces: Seq<u8>, index: nat) -> Seq<u8> {
    pieces.subrange(20 * index as int, 20 * index as int + 20)
}

/// The length of piece `index` of content of `length` bytes cut into
/// pieces of `piece_length` bytes.
pub open spec fn piece_size_of(length: nat, piece_length: nat, index: nat) -> nat {
    let rest = length - index * piece_length;
    if rest < piece_length {
        rest as nat
    } else {
        piece_length
    }
}

/// A valid descriptor has `ceil(length / piece_length)` pieces, one entry
/// per piece in its digest table, and pieces that together cover the
/// content: all but the last are whole, the last is not empty.
pub proof fn lemma_piece_count(info: Info)
    requires
        info.wf(),
    ensures
        info.pieces@.len() / 20 == ceil_div(info.length as nat, info.piece_length as nat),
        ({
            let n = ceil_div(info.length as nat, info.piece_length as nat);
            let l = info.length as nat;
            let p = info.piece_length as nat;
            n * p >= l && (n > 0 ==> (n - 1) * p < l)
        }),
{
    let n = ceil_div(info.length as nat, info.piece_length as nat);
    let l = info.length as int;
    let p = info.piece_length as int;
    assert(n * p >= l && (n > 0 ==> (n - 1) * p < l)) by (nonlinear_arith)
        requires
            p > 0,
            l >= 0,
            n == (l + p - 1) / p,
    ;
}

/// A descriptor built from a metainfo dictionary whose `info` entry lists
/// its keys in ascending order at every level keeps exactly the bytes of
/// that entry: re-encoding the decoded `info` reproduces the file's bytes,
/// so the info hash is the digest of the bytes as written.
pub proof fn lemma_info_bytes_as_written(t: Torrent, root: BencodeValue)
    requires
        describes(t, root),
        keys_ascending(lookup(root->Dict_0@, key_info())->Some_0),
    ensures
        t.info_bencoded@ == enc(lookup(root->Dict_0@, key_info())->Some_0),
{
    lemma_canon_when_ascending(lookup(root->Dict_0@, key_info())->Some_0);
}

} // verus!
