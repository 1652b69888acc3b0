//! Rules of the wire protocol that do not depend on the encoding library:
//! game constants, the fixed-size player-name field and the packet size limit.
use vstd::prelude::*;
use vstd::utf8::*;
use vstd::string::*;

verus! {

/// Maximum size of a single UDP packet payload in bytes.
pub const MAX_PACKET_SIZE: usize = 2048;

/// Default server port.
pub const DEFAULT_SERVER_PORT: u16 = 7878;

/// Server tick rate (ticks per second).
pub const TICK_RATE: u32 = 60;

/// Starting health.
pub const MAX_HEALTH: u8 = 100;

/// Damage dealt by a single hitscan shot.
pub const WEAPON_DAMAGE: u8 = 25;

/// Number of ticks between allowed shots (e.g. 30 ticks = 0.5 sec at 60Hz).
pub const WEAPON_COOLDOWN_TICKS: u32 = 30;

/// Length in bytes of the player-name field of a player snapshot.
pub const NAME_LEN: usize = 24;

/// An encoded packet may be sent only if it fits the packet size limit.
pub open spec fn packet_fits(bytes: Seq<u8>) -> bool {
    bytes.len() <= MAX_PACKET_SIZE
}

/// Accepts an encoded packet for sending: returns it unchanged when it is at
/// most `MAX_PACKET_SIZE` bytes long, and `None` when it is too large.
pub fn fit_packet(bytes: Vec<u8>) -> (r: Option<Vec<u8>>)
    ensures
        packet_fits(bytes@) ==> r == Some(bytes),
        !packet_fits(bytes@) ==> r is None,
{
    if bytes.len() > MAX_PACKET_SIZE {
        None
    } else {
        Some(bytes)
    }
}

/// The name field holding the given UTF-8 bytes: the first 24 bytes of the
/// name, padded with zero bytes.
pub open spec fn name_field(bytes: Seq<u8>) -> Seq<u8> {
    Seq::new(24, |i: int| if i < bytes.len() { bytes[i] } else { 0u8 })
}

/// A character sequence with its trailing NUL characters removed.
pub open spec fn trim_trailing_nul(cs: Seq<char>) -> Seq<char>
    decreases cs.len(),
{
    if cs.len() > 0 && cs.last() == '\0' {
        trim_trailing_nul(cs.drop_last())
    } else {
        cs
    }
}

/// The name held by a name field: its bytes read as UTF-8 with trailing NUL
/// characters removed, or the empty name when the bytes are not UTF-8.
pub open spec fn field_name(buf: Seq<u8>) -> Seq<char> {
    if valid_utf8(buf) {
        trim_trailing_nul(decode_utf8(buf))
    } else {
        seq![]
    }
}

/// Packs a player name into the fixed 24-byte field of a snapshot: its UTF-8
/// bytes, cut after 24 bytes, then zero bytes.
pub fn encode_name(name: &str) -> (buf: [u8; 24])
    ensures
        buf@ == name_field(name.spec_bytes()),
{
    let mut buf = [0u8; 24];
    let bytes = name.as_bytes();
    let len = if bytes.len() < 24 { bytes.len() } else { 24 };
    let mut i: usize = 0;
    while i < len
        invariant
            len <= 24,
            len <= bytes@.len(),
            bytes@ == name.spec_bytes(),
            i <= len,
            buf@.len() == 24,
            forall|k: int| 0 <= k < i ==> buf@[k] == bytes@[k],
            forall|k: int| i <= k < 24 ==> buf@[k] == 0,
        decreases len - i,
    {
        buf[i] = bytes[i];
        i += 1;
    }
    assert(buf@ =~= name_field(name.spec_bytes()));
    buf
}

/// Calls `std::str::from_utf8`, which succeeds exactly on valid UTF-8 and
/// then returns a string slice over the same bytes.
#[verifier::external_body]
fn utf8_str(bytes: &[u8]) -> (r: Option<&str>)
    ensures
        r is Some <==> valid_utf8(bytes@),
        r matches Some(s) ==> s.spec_bytes() == bytes@,
{
    std::str::from_utf8(bytes).ok()
}

/// The prefix of `s` left after removing its trailing NUL characters.
fn trim_nul_end(s: &str) -> (r: &str)
    ensures
        r@ == trim_trailing_nul(s@),
{
    let n = s.unicode_len();
    let mut k = n;
    assert(s@.subrange(0, k as int) =~= s@);
    while k > 0 && s.get_char(k - 1) == '\0'
        invariant
            n == s@.len(),
            k <= n,
            trim_trailing_nul(s@) == trim_trailing_nul(s@.subrange(0, k as int)),
        decreases k,
    {
        assert(s@.subrange(0, k as int).drop_last() =~= s@.subrange(0, k - 1));
        k -= 1;
    }
    s.substring_char(0, k)
}

/// Reads a player name back from its 24-byte field: the bytes as UTF-8 with
/// trailing NUL characters removed; a field that is not UTF-8 reads as the
/// empty name.
pub fn decode_name(buf: &[u8; 24]) -> (r: &str)
    ensures
        r@ == field_name(buf@),
{
    match utf8_str(buf.as_slice()) {
        Some(s) => {
            proof {
                encode_utf8_decode_utf8(s@);
            }
            trim_nul_end(s)
        },
        None => {
            let e = "";
            proof {
                reveal_strlit("");
            }
            e
        },
    }
}

} // verus!

verus! {

/// `n` NUL characters.
pub open spec fn nul_chars(n: nat) -> Seq<char> {
    Seq::new(n, |i: int| '\0')
}

proof fn lemma_encode_utf8_concat(a: Seq<char>, b: Seq<char>)
    ensures
        encode_utf8(a + b) == encode_utf8(a) + encode_utf8(b),
    decreases a.len(),
{
    if a.len() > 0 {
        assert((a + b).drop_first() =~= a.drop_first() + b);
        lemma_encode_utf8_concat(a.drop_first(), b);
        assert(encode_utf8(a + b) =~= encode_utf8(a) + encode_utf8(b));
    } else {
        assert(a + b =~= b);
    }
}

proof fn lemma_encode_nuls(n: nat)
    ensures
        encode_utf8(nul_chars(n)) == Seq::new(n, |i: int| 0u8),
    decreases n,
{
    if n > 0 {
        assert(nul_chars(n).drop_first() =~= nul_chars((n - 1) as nat));
        lemma_encode_nuls((n - 1) as nat);
        assert(('\0' as u32) == 0);
        assert(encode_scalar(0u32) == seq![0u8]) by {
            assert((0u32 & 0x7Fu32) == 0u32) by (bit_vector);
        }
        assert(encode_utf8(nul_chars(n)) =~= Seq::new(n, |i: int| 0u8));
    } else {
        assert(encode_utf8(nul_chars(n)) =~= Seq::new(n, |i: int| 0u8));
    }
}

proof fn lemma_trim_nuls(cs: Seq<char>, n: nat)
    ensures
        trim_trailing_nul(cs + nul_chars(n)) == trim_trailing_nul(cs),
    decreases n,
{
    if n > 0 {
        assert((cs + nul_chars(n)).drop_last() =~= cs + nul_chars((n - 1) as nat));
        lemma_trim_nuls(cs, (n - 1) as nat);
    } else {
        assert(cs + nul_chars(n) =~= cs);
    }
}

/// A name whose UTF-8 encoding has at most 24 bytes reads back from its
/// name field unchanged, except that trailing NUL characters are dropped.
pub proof fn lemma_name_round_trip(name: Seq<char>)
    requires
        encode_utf8(name).len() <= NAME_LEN,
    ensures
        field_name(name_field(encode_utf8(name))) == trim_trailing_nul(name),
{
    let bytes = encode_utf8(name);
    let pad = (24 - bytes.len()) as nat;
    lemma_encode_nuls(pad);
    lemma_encode_utf8_concat(name, nul_chars(pad));
    assert(name_field(bytes) =~= encode_utf8(name + nul_chars(pad)));
    encode_utf8_valid_utf8(name + nul_chars(pad));
    encode_utf8_decode_utf8(name + nul_chars(pad));
    lemma_trim_nuls(name, pad);
}

} // verus!

verus! {

/// Snapshot of one player's state, broadcast by the server. `pose` holds the
/// player's position and facing, which this library carries without
/// looking into.
#[derive(Debug, Clone, Copy)]
pub struct PlayerState<P> {
    pub id: u32,
    pub name: [u8; 24],
    pub pose: P,
    pub health: u8,
    pub frags: u32,
    pub is_game_over: bool,
}

} // verus!
