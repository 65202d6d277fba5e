//! Server types: the greeting server, and which server of a cluster holds what.

use vstd::prelude::*;
use vstd::slice::*;
use vstd::string::*;
use vstd::utf8::*;

use crate::reply;
use crate::reply::BEARER;
use crate::reply::BodyRead;
use crate::reply::Reply;
use crate::text;

verus! {

/// The token that greeting requests are authorized by.
pub const TOKEN: &'static str = "your_secure_secret_token";

/// Why an authorization header is refused, if it is.
pub open spec fn token_refusal(auth_header: Option<Seq<u8>>) -> Option<Seq<char>> {
    match auth_header {
        None => Some("Error: Missing Authorization header."@),
        Some(value) => match reply::header_text(value) {
            None => Some("Error: Invalid header encoding."@),
            Some(words) => if !text::starts_with(words, BEARER@) {
                Some("Error: Authorization format must be 'Bearer <token>'."@)
            } else if words.skip(BEARER@.len() as int) != TOKEN@ {
                Some("Error: Invalid or expired token."@)
            } else {
                None
            },
        },
    }
}

/// Build a response with the given status code and words, without a content
/// type.
fn resp_words(code: u16, words: &str) -> (r: Reply)
    ensures
        r@ == reply::plain_reply(code, encode_utf8(words@)),
{
    let mut body: Vec<u8> = Vec::new();
    body.extend_from_slice(words.as_bytes());
    assert(body@ =~= encode_utf8(words@));
    reply::resp(code, body)
}

/// Check the authorization header of a greeting request.
pub fn validate_token(auth_header: Option<&[u8]>) -> (res: Result<(), Reply>)
    ensures
        match token_refusal(
            match auth_header {
                Some(value) => Some(value@),
                None => None,
            },
        ) {
            None => res is Ok,
            Some(words) => res is Err && res->Err_0@ == reply::plain_reply(
                reply::UNAUTHORIZED,
                encode_utf8(words),
            ),
        },
{
    let value = match auth_header {
        Some(value) => value,
        None => {
            return Err(
                resp_words(reply::UNAUTHORIZED, "Error: Missing Authorization header."),
            );
        },
    };
    let words = match reply::header_str(value) {
        Some(words) => words,
        None => {
            return Err(resp_words(reply::UNAUTHORIZED, "Error: Invalid header encoding."));
        },
    };
    let chars = text::chars_of(words.as_str());
    let bearer = text::chars_of(BEARER);
    if !text::has_prefix(chars.as_slice(), bearer.as_slice()) {
        return Err(
            resp_words(
                reply::UNAUTHORIZED,
                "Error: Authorization format must be 'Bearer <token>'.",
            ),
        );
    }
    let token = text::text_of(slice_subrange(chars.as_slice(), bearer.len(), chars.len()));
    assert(token@ =~= words@.skip(BEARER@.len() as int));
    if !text::same_text(token.as_str(), TOKEN) {
        return Err(resp_words(reply::UNAUTHORIZED, "Error: Invalid or expired token."));
    }
    Ok(())
}

/// One header value is accepted, and no other.
pub proof fn lemma_token_accepts(value: Seq<u8>)
    ensures
        token_refusal(Some(value)) is None <==> reply::header_text(value) == Some(BEARER@ + TOKEN@),
{
    if reply::header_text(value) is Some {
        let words = reply::header_text(value)->0;
        let n = BEARER@.len() as int;
        if text::starts_with(words, BEARER@) {
            assert(words =~= words.take(n) + words.skip(n));
        }
        assert((BEARER@ + TOKEN@).take(n) =~= BEARER@);
        assert((BEARER@ + TOKEN@).skip(n) =~= TOKEN@);
    }
}

/// Reply to what came of reading the body of a greeting request: its length, or
/// why it could not be read.
pub open spec fn greeting(body: BodyRead) -> reply::ReplyView {
    match body {
        BodyRead::Whole(bytes) => reply::plain_reply(
            reply::OK,
            encode_utf8("Hello over HTTP/2! "@ + text::dec_nat(bytes@.len()) + "\n"@),
        ),
        BodyRead::TooLarge => reply::plain_reply(
            reply::PAYLOAD_TOO_LARGE,
            encode_utf8("Error: Payload exceeds maximum size limit."@),
        ),
        BodyRead::Failed => reply::plain_reply(
            reply::BAD_REQUEST,
            encode_utf8("Error: Failed to read stream or malformed payload."@),
        ),
    }
}

/// Reply to what came of reading the body of a greeting request.
pub fn greet(body: BodyRead) -> (r: Reply)
    ensures
        r@ == greeting(body),
{
    match body {
        BodyRead::Whole(bytes) => {
            let mut words = "Hello over HTTP/2! ".to_owned();
            text::push_dec(&mut words, bytes.len() as u64);
            words.append("\n");
            resp_words(reply::OK, words.as_str())
        },
        BodyRead::TooLarge => resp_words(
            reply::PAYLOAD_TOO_LARGE,
            "Error: Payload exceeds maximum size limit.",
        ),
        BodyRead::Failed => resp_words(
            reply::BAD_REQUEST,
            "Error: Failed to read stream or malformed payload.",
        ),
    }
}

/// First multiplier of the shard hash.
pub const C1: u32 = 0xcc9e2d51;

/// Second multiplier of the shard hash.
pub const C2: u32 = 0x1b873593;

/// What the shard hash starts from.
pub const SEED: u32 = 0xadc83b19;

/// Bits turned to the left, the topmost coming in again at the bottom.
pub open spec fn turned_left(x: u32, by: u32) -> u32 {
    (x << by) | (x >> ((32 - by) as u32))
}

/// Product, of which the low 32 bits are kept.
pub open spec fn times(x: u32, y: u32) -> u32 {
    ((x * y) % 0x1_0000_0000) as u32
}

/// Number whose bytes, least significant first, are the given ones.
pub open spec fn le_word(bytes: Seq<u8>) -> u32
    decreases bytes.len(),
{
    if bytes.len() == 0 {
        0
    } else {
        (le_word(bytes.drop_first()) << 8) | (bytes.first() as u32)
    }
}

/// A word, scrambled before it is taken into the hash.
pub open spec fn scrambled(word: u32) -> u32 {
    times(turned_left(times(word, C1), 15), C2)
}

/// The hash after the first `n` words of four bytes were taken into it.
pub open spec fn words_hash(data: Seq<u8>, n: nat) -> u32
    decreases n,
{
    if n == 0 {
        SEED
    } else {
        let word = le_word(data.subrange(4 * (n - 1), 4 * n as int));
        let hash = turned_left(words_hash(data, (n - 1) as nat) ^ scrambled(word), 13);
        ((times(hash, 5) + 0xe6546b64) % 0x1_0000_0000) as u32
    }
}

/// The hash after the bytes behind the last whole word were taken into it.
pub open spec fn data_hash(data: Seq<u8>) -> u32 {
    let n = data.len() / 4;
    let rest = data.skip(4 * n as int);
    if rest.len() == 0 {
        words_hash(data, n)
    } else {
        words_hash(data, n) ^ scrambled(le_word(rest))
    }
}

/// The hash with its bits spread.
pub open spec fn spread(hash: u32) -> u32 {
    let a = times(hash ^ (hash >> 16), 0x85ebca6b);
    let b = times(a ^ (a >> 13), 0xc2b2ae35);
    b ^ (b >> 16)
}

/// The shard hash of an identifier.
pub open spec fn shard_hash(data: Seq<u8>) -> u32 {
    spread(data_hash(data) ^ (data.len() as u32))
}

/// Which of `total` servers an identifier belongs to.
pub open spec fn shard_index(data: Seq<u8>, total: int) -> int {
    if total == 0 {
        0
    } else {
        shard_hash(data) as int % total
    }
}

fn turn_left(x: u32, by: u32) -> (out: u32)
    requires
        0 < by < 32,
    ensures
        out == turned_left(x, by),
{
    (x << by) | (x >> (32 - by))
}

fn mul_low(x: u32, y: u32) -> (out: u32)
    ensures
        out == times(x, y),
{
    x.wrapping_mul(y)
}

fn word_of(bytes: &[u8]) -> (word: u32)
    ensures
        word == le_word(bytes@),
{
    let mut word: u32 = 0;
    let mut i: usize = bytes.len();
    assert(bytes@.skip(bytes@.len() as int).len() == 0);
    while i > 0
        invariant
            i <= bytes@.len(),
            word == le_word(bytes@.skip(i as int)),
        decreases i,
    {
        i = i - 1;
        assert(bytes@.skip(i as int).drop_first() =~= bytes@.skip(i + 1));
        word = (word << 8) | (bytes[i] as u32);
    }
    assert(bytes@.skip(0) =~= bytes@);
    word
}

fn scramble(word: u32) -> (out: u32)
    ensures
        out == scrambled(word),
{
    mul_low(turn_left(mul_low(word, C1), 15), C2)
}

/// Which of `total_servers` servers the given data belongs to.
pub fn gen_shard_index(data: &[u8], total_servers: usize) -> (index: usize)
    ensures
        index == shard_index(data@, total_servers as int),
        total_servers > 0 ==> index < total_servers,
{
    if total_servers == 0 {
        return 0;
    }
    let mut hash: u32 = SEED;
    let words: usize = data.len() / 4;
    for i in 0..words
        invariant
            words == data@.len() / 4,
            data@.len() <= usize::MAX,
            hash == words_hash(data@, i as nat),
    {
        let word: u32 = word_of(slice_subrange(data, i * 4, i * 4 + 4));
        hash = hash ^ scramble(word);
        hash = turn_left(hash, 13);
        hash = mul_low(hash, 5).wrapping_add(0xe6546b64);
    }
    let rest = slice_subrange(data, words * 4, data.len());
    assert(rest@ =~= data@.skip(4 * (data@.len() / 4) as int));
    if rest.len() > 0 {
        hash = hash ^ scramble(word_of(rest));
    }
    hash = hash ^ #[verifier::truncate] (data.len() as u32);
    hash = hash ^ (hash >> 16);
    hash = mul_low(hash, 0x85ebca6b);
    hash = hash ^ (hash >> 13);
    hash = mul_low(hash, 0xc2b2ae35);
    hash = hash ^ (hash >> 16);
    hash as usize % total_servers
}

/// Address of a server: an IP address and a port.
#[derive(Clone, Copy, Debug, PartialEq, Eq, Structural)]
pub enum ServerAddr {
    /// an IPv4 address
    V4 {
        /// address, its first octet the most significant
        ip: u32,
        /// port
        port: u16,
    },
    /// an IPv6 address
    V6 {
        /// address, its first octet the most significant
        ip6: u128,
        /// port
        port: u16,
        /// flow information
        flowinfo: u32,
        /// scope
        scope_id: u32,
    },
}

/// Place of an address in the order of all addresses: IPv4 before IPv6, and
/// within each by address, port, flow information and scope.
pub open spec fn rank(addr: ServerAddr) -> int {
    match addr {
        ServerAddr::V4 { ip, port } => ip * 0x1_0000 + port,
        ServerAddr::V6 { ip6, port, flowinfo, scope_id } => 0x1_0000_0000_0000 + ((ip6 * 0x1_0000
            + port) * 0x1_0000_0000 + flowinfo) * 0x1_0000_0000 + scope_id,
    }
}

/// Different addresses have different places in the order.
pub proof fn lemma_rank_injective(a: ServerAddr, b: ServerAddr)
    requires
        rank(a) == rank(b),
    ensures
        a == b,
{
}

/// Does `a` come before `b` in the order of addresses?
fn comes_before(a: &ServerAddr, b: &ServerAddr) -> (res: bool)
    ensures
        res == (rank(*a) < rank(*b)),
{
    match (a, b) {
        (ServerAddr::V4 { ip: ip1, port: port1 }, ServerAddr::V4 { ip: ip2, port: port2 }) => *ip1
            < *ip2 || (*ip1 == *ip2 && *port1 < *port2),
        (ServerAddr::V4 { .. }, ServerAddr::V6 { .. }) => true,
        (ServerAddr::V6 { .. }, ServerAddr::V4 { .. }) => false,
        (
            ServerAddr::V6 { ip6: ip1, port: port1, flowinfo: flow1, scope_id: scope1 },
            ServerAddr::V6 { ip6: ip2, port: port2, flowinfo: flow2, scope_id: scope2 },
        ) => *ip1 < *ip2 || (*ip1 == *ip2 && (*port1 < *port2 || (*port1 == *port2 && (*flow1
            < *flow2 || (*flow1 == *flow2 && *scope1 < *scope2))))),
    }
}

/// Are the addresses in order, none of them twice?
pub open spec fn in_order(addrs: Seq<ServerAddr>) -> bool {
    forall|i: int, j: int| 0 <= i < j < addrs.len() ==> rank(addrs[i]) < rank(addrs[j])
}

/// Cluster info.
pub struct ClusterInfo {
    srv_set: Vec<ServerAddr>,
}

impl ClusterInfo {
    /// The known servers, in the order of their addresses.
    pub closed spec fn view(&self) -> Seq<ServerAddr> {
        self.srv_set@
    }

    /// The known servers.
    pub open spec fn members(&self) -> Set<ServerAddr> {
        self@.to_set()
    }

    /// Every known server is listed once.
    #[verifier::type_invariant]
    spec fn listed_once(&self) -> bool {
        in_order(self.srv_set@)
    }

    /// A cluster without servers.
    pub fn new() -> (cluster: Self)
        ensures
            cluster@ == Seq::<ServerAddr>::empty(),
    {
        ClusterInfo { srv_set: Vec::new() }
    }

    /// Add a known server to the cluster list.
    pub fn add_server(&mut self, addr: ServerAddr)
        ensures
            in_order(final(self)@),
            final(self).members() == old(self).members().insert(addr),
            final(self)@.len() > 0,
    {
        proof {
            use_type_invariant(&*self);
        }
        let ghost before = self.srv_set@;
        let mut at: usize = 0;
        while at < self.srv_set.len() && comes_before(&self.srv_set[at], &addr)
            invariant
                self.srv_set@ == before,
                at <= before.len(),
                forall|i: int| 0 <= i < at ==> rank(#[trigger] before[i]) < rank(addr),
            decreases before.len() - at,
        {
            at = at + 1;
        }
        if at < self.srv_set.len() && self.srv_set[at] == addr {
            assert(before.to_set().insert(addr) =~= before.to_set()) by {
                assert(before[at as int] == addr);
            }
            return;
        }
        proof {
            if at < before.len() && rank(before[at as int]) == rank(addr) {
                lemma_rank_injective(before[at as int], addr);
            }
            let after = before.insert(at as int, addr);
            assert(in_order(after)) by {
                assert forall|i: int, j: int| 0 <= i < j < after.len() implies rank(after[i])
                    < rank(after[j]) by {
                    let x = if i < at { i } else { i - 1 };
                    let y = if j < at { j } else { j - 1 };
                    if i == at {
                        assert(after[j] == before[y]);
                        assert(rank(before[at as int]) <= rank(before[y]));
                    } else if j == at {
                        assert(after[i] == before[x]);
                    } else {
                        assert(after[i] == before[x] && after[j] == before[y]);
                    }
                }
            }
            assert(after.to_set() =~= before.to_set().insert(addr)) by {
                assert forall|a: ServerAddr| after.contains(a) == (before.contains(a) || a
                    == addr) by {
                    if before.contains(a) {
                        let i = choose|i: int| 0 <= i < before.len() && before[i] == a;
                        assert(after[if i < at { i } else { i + 1 }] == a);
                    }
                    if a == addr {
                        assert(after[at as int] == a);
                    }
                    if after.contains(a) && a != addr {
                        let i = choose|i: int| 0 <= i < after.len() && after[i] == a;
                        assert(before[if i < at { i } else { i - 1 }] == a);
                    }
                }
            }
        }
        let mut srv_set: Vec<ServerAddr> = Vec::new();
        std::mem::swap(&mut srv_set, &mut self.srv_set);
        srv_set.insert(at, addr);
        self.srv_set = srv_set;
    }

    /// Pick server for given identifier.
    pub fn server_for_id(&self, id: &[u8]) -> (addr: ServerAddr)
        requires
            self@.len() > 0,
        ensures
            in_order(self@),
            addr == self@[shard_index(id@, self@.len() as int)],
            self.members().contains(addr),
    {
        proof {
            use_type_invariant(self);
        }
        let index: usize = gen_shard_index(id, self.srv_set.len());
        self.srv_set[index]
    }
}

impl Default for ClusterInfo {
    fn default() -> (cluster: Self)
        ensures
            cluster@ == Seq::<ServerAddr>::empty(),
    {
        ClusterInfo::new()
    }
}

/// An identifier belongs to a server that there is.
pub proof fn lemma_shard_index_within(data: Seq<u8>, total: int)
    requires
        total > 0,
    ensures
        0 <= shard_index(data, total) < total,
{
}

/// Clusters that know the same servers list them the same, in whatever order
/// they were added, and so pick the same server for every identifier.
pub proof fn lemma_members_decide(a: Seq<ServerAddr>, b: Seq<ServerAddr>)
    requires
        in_order(a),
        in_order(b),
        a.to_set() == b.to_set(),
    ensures
        a == b,
    decreases a.len(),
{
    if a.len() == 0 {
        if b.len() > 0 {
            assert(b.to_set().contains(b[0]));
            assert(a.contains(b[0]));
        }
        assert(a =~= b);
    } else if b.len() == 0 {
        assert(a.to_set().contains(a[0]));
        assert(b.contains(a[0]));
    } else {
        assert(a.to_set().contains(a.last()));
        assert(b.to_set().contains(b.last()));
        let i = choose|i: int| 0 <= i < b.len() && b[i] == a.last();
        let j = choose|j: int| 0 <= j < a.len() && a[j] == b.last();
        assert(rank(b[i]) <= rank(b.last()));
        assert(rank(a[j]) <= rank(a.last()));
        lemma_rank_injective(a.last(), b.last());
        let (x, y) = (a.drop_last(), b.drop_last());
        assert forall|s: ServerAddr| x.contains(s) == y.contains(s) by {
            lemma_rest_contains(a, s);
            lemma_rest_contains(b, s);
            assert(a.to_set().contains(s) == a.contains(s));
            assert(b.to_set().contains(s) == b.contains(s));
        }
        assert(x.to_set() =~= y.to_set());
        lemma_members_decide(x, y);
        assert(a =~= x.push(a.last()));
        assert(b =~= y.push(b.last()));
    }
}

/// All but the last of a list in order are those that are not the last.
proof fn lemma_rest_contains(a: Seq<ServerAddr>, s: ServerAddr)
    requires
        in_order(a),
        a.len() > 0,
    ensures
        a.drop_last().contains(s) == (a.contains(s) && s != a.last()),
{
    let x = a.drop_last();
    if x.contains(s) {
        let i = choose|i: int| 0 <= i < x.len() && x[i] == s;
        assert(a[i] == s);
        assert(rank(a[i]) < rank(a.last()));
    }
    if a.contains(s) && s != a.last() {
        let i = choose|i: int| 0 <= i < a.len() && a[i] == s;
        assert(x[i] == s);
    }
}

/// Multiplying by an odd number loses nothing: it is undone by multiplying by the
/// inverse of that number.
proof fn lemma_times_undone(x: u32, c: u32, inverse: u32, k: int)
    requires
        c * inverse == 1 + k * 0x1_0000_0000,
    ensures
        times(times(x, c), inverse) == x,
{
    let m: int = 0x1_0000_0000;
    vstd::arithmetic::div_mod::lemma_mul_mod_noop_left(x * c, inverse as int, m);
    assert((x * c) * inverse == m * (x * k) + x) by (nonlinear_arith)
        requires
            c * inverse == 1 + k * 0x1_0000_0000,
            m == 0x1_0000_0000,
    ;
    vstd::arithmetic::div_mod::lemma_mod_multiples_vanish(x * k, x as int, m);
    vstd::arithmetic::div_mod::lemma_small_mod(x as nat, m as nat);
    assert(((x * c) % m) as u32 as int == (x * c) % m);
}

/// Multiplying by a multiplier of the hash, or of its spreading, loses nothing.
proof fn lemma_times_injective(x: u32, y: u32, c: u32)
    requires
        c == 0xcc9e2d51u32 || c == 0x1b873593u32 || c == 5 || c == 0x85ebca6bu32 || c
            == 0xc2b2ae35u32,
        times(x, c) == times(y, c),
    ensures
        x == y,
{
    let (inverse, k): (u32, int) = if c == 0xcc9e2d51u32 {
        (0xdee13bb1u32, 2988782088)
    } else if c == 0x1b873593u32 {
        (0x56ed309bu32, 156822886)
    } else if c == 5 {
        (0xcccccccdu32, 4)
    } else if c == 0x85ebca6bu32 {
        (0xa5cb9243u32, 1455126516)
    } else {
        (0x7ed1b41du32, 1618177690)
    };
    lemma_times_undone(x, c, inverse, k);
    lemma_times_undone(y, c, inverse, k);
}

/// Turning bits, and combining a number with its upper bits, loses nothing.
proof fn lemma_bits_injective(x: u32, y: u32)
    ensures
        turned_left(x, 15) == turned_left(y, 15) ==> x == y,
        turned_left(x, 13) == turned_left(y, 13) ==> x == y,
        x ^ (x >> 16) == y ^ (y >> 16) ==> x == y,
        x ^ (x >> 13) == y ^ (y >> 13) ==> x == y,
{
    assert((x << 15) | (x >> 17) == (y << 15) | (y >> 17) ==> x == y) by (bit_vector);
    assert((x << 13) | (x >> 19) == (y << 13) | (y >> 19) ==> x == y) by (bit_vector);
    assert(x ^ (x >> 16) == y ^ (y >> 16) ==> x == y) by (bit_vector);
    assert(x ^ (x >> 13) == y ^ (y >> 13) ==> x == y) by (bit_vector);
}

/// Words that differ are scrambled into words that differ.
proof fn lemma_scrambled_injective(x: u32, y: u32)
    requires
        scrambled(x) == scrambled(y),
    ensures
        x == y,
{
    let (a, b) = (times(x, C1), times(y, C1));
    lemma_times_injective(turned_left(a, 15), turned_left(b, 15), C2);
    lemma_bits_injective(a, b);
    lemma_times_injective(x, y, C1);
}

/// Hashes that differ are spread into hashes that differ.
proof fn lemma_spread_injective(x: u32, y: u32)
    requires
        spread(x) == spread(y),
    ensures
        x == y,
{
    let (a, b) = (times(x ^ (x >> 16), 0x85ebca6b), times(y ^ (y >> 16), 0x85ebca6b));
    let (c, d) = (times(a ^ (a >> 13), 0xc2b2ae35), times(b ^ (b >> 13), 0xc2b2ae35));
    lemma_bits_injective(c, d);
    lemma_times_injective(a ^ (a >> 13), b ^ (b >> 13), 0xc2b2ae35);
    lemma_bits_injective(a, b);
    lemma_times_injective(x ^ (x >> 16), y ^ (y >> 16), 0x85ebca6b);
    lemma_bits_injective(x, y);
}

/// Up to four bytes that differ are words that differ.
proof fn lemma_le_word_injective(a: Seq<u8>, b: Seq<u8>)
    requires
        a.len() == b.len(),
        a.len() <= 4,
        le_word(a) == le_word(b),
    ensures
        a == b,
    decreases a.len(),
{
    if a.len() > 0 {
        let (x, y) = (le_word(a.drop_first()), le_word(b.drop_first()));
        let (p, q) = (a.first(), b.first());
        lemma_le_word_bound(a.drop_first());
        lemma_le_word_bound(b.drop_first());
        assert((x << 8) | (p as u32) == (y << 8) | (q as u32) && x < 0x100_0000 && y < 0x100_0000
            ==> x == y && p == q) by (bit_vector);
        lemma_le_word_injective(a.drop_first(), b.drop_first());
        assert(a =~= seq![p] + a.drop_first());
        assert(b =~= seq![q] + b.drop_first());
    } else {
        assert(a =~= b);
    }
}

/// Up to three bytes are a number of 24 bits.
proof fn lemma_le_word_bound(a: Seq<u8>)
    requires
        a.len() <= 3,
    ensures
        le_word(a) < 0x100_0000,
{
    reveal_with_fuel(le_word, 4);
    if a.len() > 0 {
        let rest = a.drop_first();
        let p = a.first();
        if a.len() == 1 {
            assert((0u32 << 8) | (p as u32) < 0x100_0000) by (bit_vector);
        } else if a.len() == 2 {
            let q = rest.first();
            assert((((0u32 << 8) | (q as u32)) << 8) | (p as u32) < 0x100_0000) by (bit_vector);
        } else {
            let q = rest.first();
            let r = rest.drop_first().first();
            assert((((((0u32 << 8) | (r as u32)) << 8) | (q as u32)) << 8) | (p as u32)
                < 0x100_0000) by (bit_vector);
        }
    }
}

/// The words of data do not depend on what follows them.
proof fn lemma_words_hash_prefix(data: Seq<u8>, more: Seq<u8>, n: nat)
    requires
        4 * n <= data.len(),
    ensures
        words_hash(data + more, n) == words_hash(data, n),
    decreases n,
{
    if n > 0 {
        lemma_words_hash_prefix(data, more, (n - 1) as nat);
        let (from, to) = (4 * (n - 1), 4 * n as int);
        assert((data + more).subrange(from, to) =~= data.subrange(from, to));
    }
}

/// The hash after up to four more bytes, from what it was before.
proof fn lemma_more_hashed(a: Seq<u8>, w: Seq<u8>)
    requires
        a.len() % 4 == 0,
        0 < w.len() <= 4,
    ensures
        data_hash(a + w) == if w.len() == 4 {
            mixed(data_hash(a) ^ scrambled(le_word(w)))
        } else {
            data_hash(a) ^ scrambled(le_word(w))
        },
{
    let n = a.len() / 4;
    lemma_words_hash_prefix(a, w, n);
    assert(a.skip(4 * n as int).len() == 0);
    let x = a + w;
    if w.len() == 4 {
        assert(x.len() / 4 == n + 1);
        assert(x.skip(4 * (n + 1) as int).len() == 0);
        assert(x.subrange(4 * n as int, 4 * (n + 1) as int) =~= w);
    } else {
        assert(x.len() / 4 == n);
        assert(x.skip(4 * n as int) =~= w);
    }
}

/// What becomes of the hash once a whole word was combined with it.
spec fn mixed(h: u32) -> u32 {
    ((times(turned_left(h, 13), 5) + 0xe6546b64) % 0x1_0000_0000) as u32
}

/// Hashes that differ are mixed into hashes that differ.
proof fn lemma_mixed_injective(h: u32, g: u32)
    requires
        mixed(h) == mixed(g),
    ensures
        h == g,
{
    let (s, t) = (turned_left(h, 13), turned_left(g, 13));
    lemma_times_injective(s, t, 5);
    lemma_bits_injective(h, g);
}

/// The hash of an identifier is a running one: how it goes on depends on nothing but
/// what it has come to. And nothing is lost on the way. Identifiers of one length and
/// of whole words that hash the same go on to hash the same exactly with the same
/// further bytes, up to a word of them, and those that hash differently never do.
///
/// The whole hash is the index among `2^32` servers.
pub proof fn lemma_hash_runs(
    a: &[u8],
    b: &[u8],
    w: Seq<u8>,
    v: Seq<u8>,
    more_a: &[u8],
    more_b: &[u8],
    all: usize,
    hash_a: usize,
    hash_b: usize,
    then_a: usize,
    then_b: usize,
)
    requires
        all == 0x1_0000_0000,
        a@.len() == b@.len() && a@.len() % 4 == 0,
        w.len() == v.len() && 0 < w.len() <= 4,
        more_a@ == a@ + w && more_b@ == b@ + v,
        call_ensures(gen_shard_index, (a, all), hash_a),
        call_ensures(gen_shard_index, (b, all), hash_b),
        call_ensures(gen_shard_index, (more_a, all), then_a),
        call_ensures(gen_shard_index, (more_b, all), then_b),
    ensures
        hash_a == hash_b ==> (then_a == then_b <==> w == v),
        hash_a != hash_b && w == v ==> then_a != then_b,
{
    let (x, y) = (data_hash(a@), data_hash(b@));
    let (s, t) = (scrambled(le_word(w)), scrambled(le_word(v)));
    lemma_whole_hash(a@, b@);
    lemma_whole_hash(a@ + w, b@ + v);
    lemma_more_hashed(a@, w);
    lemma_more_hashed(b@, v);
    if mixed(x ^ s) == mixed(y ^ t) {
        lemma_mixed_injective(x ^ s, y ^ t);
    }
    if s == t {
        lemma_scrambled_injective(le_word(w), le_word(v));
        lemma_le_word_injective(w, v);
    }
    assert(x == y && x ^ s == y ^ t ==> s == t) by (bit_vector);
    assert(s == t && x ^ s == y ^ t ==> x == y) by (bit_vector);
}

/// Identifiers of one length have the same index among `2^32` servers exactly where
/// they hash the same.
proof fn lemma_whole_hash(a: Seq<u8>, b: Seq<u8>)
    requires
        a.len() == b.len(),
    ensures
        shard_index(a, 0x1_0000_0000) == shard_index(b, 0x1_0000_0000) <==> data_hash(a)
            == data_hash(b),
{
    let n = a.len() as u32;
    let (x, y) = (data_hash(a), data_hash(b));
    if spread(x ^ n) == spread(y ^ n) {
        lemma_spread_injective(x ^ n, y ^ n);
        assert(x ^ n == y ^ n ==> x == y) by (bit_vector);
    }
}

/// The index among any number of servers is what the whole hash, which is the index
/// among `2^32` of them, leaves over when divided by that number.
pub proof fn lemma_index_of_hash(
    data: &[u8],
    all: usize,
    hash: usize,
    total: usize,
    index: usize,
)
    requires
        all == 0x1_0000_0000,
        call_ensures(gen_shard_index, (data, all), hash),
        call_ensures(gen_shard_index, (data, total), index),
    ensures
        hash < 0x1_0000_0000,
        total == 0 ==> index == 0,
        total > 0 ==> index == hash as int % total as int,
{
}

/// A cluster picks the server for an identifier by its index in the list of servers.
pub proof fn lemma_server_picked(
    cluster: &ClusterInfo,
    id: &[u8],
    addr: ServerAddr,
    total: usize,
    index: usize,
)
    requires
        cluster@.len() > 0,
        total == cluster@.len(),
        call_ensures(ClusterInfo::server_for_id, (cluster, id), addr),
        call_ensures(gen_shard_index, (id, total), index),
    ensures
        index < cluster@.len(),
        addr == cluster@[index as int],
        forall|i: int, j: int| 0 <= i < j < cluster@.len() ==> listed_before(
            #[trigger] cluster@[i],
            #[trigger] cluster@[j],
        ),
{
    assert forall|i: int, j: int| 0 <= i < j < cluster@.len() implies listed_before(
        #[trigger] cluster@[i],
        #[trigger] cluster@[j],
    ) by {
        lemma_rank_orders(cluster@[i], cluster@[j]);
    }
}

/// Does an address come before another in the list of a cluster: IPv4 before IPv6,
/// then by address, then by port, then by flow information, then by scope?
pub open spec fn listed_before(a: ServerAddr, b: ServerAddr) -> bool {
    match (a, b) {
        (ServerAddr::V4 { ip, port }, ServerAddr::V4 { ip: ip2, port: port2 }) => ip < ip2 || (ip
            == ip2 && port < port2),
        (ServerAddr::V4 { .. }, ServerAddr::V6 { .. }) => true,
        (ServerAddr::V6 { .. }, ServerAddr::V4 { .. }) => false,
        (
            ServerAddr::V6 { ip6, port, flowinfo, scope_id },
            ServerAddr::V6 { ip6: ip2, port: port2, flowinfo: flow2, scope_id: scope2 },
        ) => ip6 < ip2 || (ip6 == ip2 && (port < port2 || (port == port2 && (flowinfo < flow2 || (
        flowinfo == flow2 && scope_id < scope2))))),
    }
}

/// The place of an address in the order is what the list goes by.
pub proof fn lemma_rank_orders(a: ServerAddr, b: ServerAddr)
    ensures
        rank(a) < rank(b) <==> listed_before(a, b),
{
}

/// Adding a server leaves all others in the cluster, and has it there once.
pub proof fn lemma_server_added(cluster: &mut ClusterInfo, addr: ServerAddr, other: ServerAddr)
    requires
        call_ensures(ClusterInfo::add_server, (cluster, addr), ()),
    ensures
        final(cluster)@.contains(other) <==> other == addr || old(cluster)@.contains(other),
        final(cluster)@.no_duplicates(),
{
    let (was, is) = (old(cluster)@, final(cluster)@);
    assert(final(cluster).members().contains(other) == is.contains(other));
    assert(old(cluster).members().insert(addr).contains(other) == (other == addr || was.contains(
        other,
    )));
    assert forall|i: int, j: int| 0 <= i < is.len() && 0 <= j < is.len() && i != j implies is[i]
        != is[j] by {
        if i < j {
            assert(rank(is[i]) < rank(is[j]));
        } else {
            assert(rank(is[j]) < rank(is[i]));
        }
    }
}

/// A greeting request is let in exactly where its header reads `Bearer` and the
/// token. Otherwise it is refused with 401.
pub proof fn lemma_token_decides(
    header: Option<&[u8]>,
    words: Option<String>,
    res: Result<(), Reply>,
)
    requires
        call_ensures(validate_token, (header,), res),
        header is Some ==> call_ensures(reply::header_str, (header->0,), words),
    ensures
        res is Ok <==> header is Some && words is Some && words->0@ == "Bearer "@
            + "your_secure_secret_token"@,
        res is Err ==> res->Err_0.status == 401 && !res->Err_0.plain_text,
        header is None ==> res->Err_0.body@ == encode_utf8(
            "Error: Missing Authorization header."@,
        ),
        header is Some && words is None ==> res->Err_0.body@ == encode_utf8(
            "Error: Invalid header encoding."@,
        ),
{
    if header is Some {
        lemma_token_accepts(header->0@);
    }
}

/// A greeting says how many bytes were sent, in decimal. A body over the limit is
/// answered with 413, and one that could not be read with 400.
pub proof fn lemma_greeting(body: BodyRead, r: Reply)
    requires
        call_ensures(greet, (body,), r),
    ensures
        match body {
            BodyRead::Whole(bytes) => r.status == 200 && r.body@ == encode_utf8(
                "Hello over HTTP/2! "@ + text::dec_nat(bytes@.len()) + "\n"@,
            ),
            BodyRead::TooLarge => r.status == 413 && r.body@ == encode_utf8(
                "Error: Payload exceeds maximum size limit."@,
            ),
            BodyRead::Failed => r.status == 400 && r.body@ == encode_utf8(
                "Error: Failed to read stream or malformed payload."@,
            ),
        },
        !r.plain_text && r.retry_after is None,
{
}

/// A header that reads as something else than `Bearer` and a token, or as another
/// token, is told so.
pub proof fn lemma_token_refused(
    header: &[u8],
    words: Option<String>,
    res: Result<(), Reply>,
)
    requires
        call_ensures(validate_token, (Some(header),), res),
        call_ensures(reply::header_str, (header,), words),
        words is Some,
        res is Err,
    ensures
        text::starts_with(words->0@, "Bearer "@) ==> res->Err_0.body@ == encode_utf8(
            "Error: Invalid or expired token."@,
        ),
        !text::starts_with(words->0@, "Bearer "@) ==> res->Err_0.body@ == encode_utf8(
            "Error: Authorization format must be 'Bearer <token>'."@,
        ),
{
}

} // verus!
