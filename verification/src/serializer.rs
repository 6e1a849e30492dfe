//! The game's peer-to-peer messages and their binary wire format.
//!
//! Every message starts with a tag byte. Numbers are big-endian; the game's
//! coordinates and directions travel as the bit patterns of their `f64`
//! values (eight bytes each), a bullet's age in milliseconds as sixteen
//! bytes, and a peer address as six bytes (four address bytes, then the
//! port).

use vstd::prelude::*;
use crate::bytes::{
    be_bytes, be_value, lemma_be_bytes_len, lemma_be_bytes_of_value, lemma_be_roundtrip,
    lemma_be_value_bound, lemma_pow256_facts, push_be, read_be,
};
use crate::ip::{ip_bytes, ip_string, parse_ip, ip_string_at, lemma_ip_roundtrip};

verus! {

/// A message between two players.
///
/// `Pos`, `Bullet`, `Fort` and `FortConnection` carry positions and
/// directions as `f64` bit patterns (`f64::to_bits`).
#[derive(Clone, Debug, PartialEq, Eq)]
pub enum Message {
    /// A new player asks to join; the flag says whether it is the first
    /// contact, and the text is its address `a.b.c.d:port`.
    Join(bool, String),
    /// The addresses of the players already in the game.
    CurrPlayers(Vec<String>),
    /// The sender's helicopter is at `(x, y)`.
    Pos(u64, u64),
    /// The sender fired a bullet at `(x, y)` going `(dx, dy)`, of the given
    /// age in milliseconds.
    Bullet(u64, u64, u64, u64, u128),
    /// The sender's helicopter died or came back to life.
    Death,
    /// The sender built or lost a fort at `(x, y)`.
    Fort(u64, u64),
    /// The sender joined the fort at `(x1, y1)` to the one at `(x2, y2)`.
    FortConnection(u64, u64, u64, u64),
}

/// The mathematical value of a message: texts as character sequences.
pub enum MessageModel {
    Join(bool, Seq<char>),
    CurrPlayers(Seq<Seq<char>>),
    Pos(u64, u64),
    Bullet(u64, u64, u64, u64, u128),
    Death,
    Fort(u64, u64),
    FortConnection(u64, u64, u64, u64),
}

impl View for Message {
    type V = MessageModel;

    open spec fn view(&self) -> MessageModel {
        match self {
            Message::Join(f, ip) => MessageModel::Join(*f, ip@),
            Message::CurrPlayers(ips) => MessageModel::CurrPlayers(ips@.map_values(|s: String| s@)),
            Message::Pos(x, y) => MessageModel::Pos(*x, *y),
            Message::Bullet(x, y, dx, dy, age) => MessageModel::Bullet(*x, *y, *dx, *dy, *age),
            Message::Death => MessageModel::Death,
            Message::Fort(x, y) => MessageModel::Fort(*x, *y),
            Message::FortConnection(x1, y1, x2, y2) => MessageModel::FortConnection(
                *x1,
                *y1,
                *x2,
                *y2,
            ),
        }
    }
}

/// The value of an optional message.
pub open spec fn option_view(m: Option<Message>) -> Option<MessageModel> {
    match m {
        Some(m) => Some(m@),
        None => None,
    }
}

/// A message that can be written: every address in it is well-formed.
pub open spec fn serializable(m: MessageModel) -> bool {
    match m {
        MessageModel::Join(_, ip) => ip_bytes(ip) is Some,
        MessageModel::CurrPlayers(ips) => forall|i: int|
            0 <= i < ips.len() ==> ip_bytes(#[trigger] ips[i]) is Some,
        _ => true,
    }
}

/// The six-byte forms of a list of addresses, one after the other.
pub open spec fn ips_bytes(ips: Seq<Seq<char>>) -> Seq<u8>
    decreases ips.len(),
{
    if ips.len() == 0 {
        seq![]
    } else {
        ips_bytes(ips.drop_last()) + ip_bytes(ips.last()).unwrap()
    }
}

/// The eight big-endian bytes of a 64-bit value.
pub open spec fn be8(v: u64) -> Seq<u8> {
    be_bytes(v as nat, 8)
}

/// The wire form of a message. A player list writes its length modulo 256
/// in one byte, as the game's `as u8` does.
pub open spec fn serialized(m: MessageModel) -> Seq<u8> {
    match m {
        MessageModel::Join(f, ip) => seq![0u8, if f { 1u8 } else { 0u8 }] + ip_bytes(ip).unwrap(),
        MessageModel::CurrPlayers(ips) => seq![1u8, (ips.len() % 256) as u8] + ips_bytes(ips),
        MessageModel::Pos(x, y) => seq![2u8] + be8(x) + be8(y),
        MessageModel::Bullet(x, y, dx, dy, age) => seq![3u8] + be8(x) + be8(y) + be8(dx) + be8(dy)
            + be_bytes(age as nat, 16),
        MessageModel::Death => seq![4u8],
        MessageModel::Fort(x, y) => seq![5u8] + be8(x) + be8(y),
        MessageModel::FortConnection(x1, y1, x2, y2) => seq![6u8] + be8(x1) + be8(y1) + be8(x2)
            + be8(y2),
    }
}

/// How many bytes the message that starts `b` takes, read from its tag (and,
/// for a player list, its count byte); one byte for an unknown tag.
pub open spec fn frame_size(b: Seq<u8>) -> nat {
    if b[0] == 0 {
        8
    } else if b[0] == 1 {
        2 + 6 * (b[1] as nat)
    } else if b[0] == 2 {
        17
    } else if b[0] == 3 {
        49
    } else if b[0] == 4 {
        1
    } else if b[0] == 5 {
        17
    } else if b[0] == 6 {
        33
    } else {
        1
    }
}

/// The bytes hold a whole message, or start with an unknown tag: reading
/// them does not run past their end.
pub open spec fn can_deserialize(b: Seq<u8>) -> bool {
    &&& b.len() >= 1
    &&& b[0] == 1 ==> b.len() >= 2
    &&& b.len() >= frame_size(b)
}

/// The eight bytes of `b` at `off` as a 64-bit value.
pub open spec fn u64_at(b: Seq<u8>, off: int) -> u64 {
    be_value(b.subrange(off, off + 8)) as u64
}

/// The message that the bytes `b` start with, or `None` for an unknown tag.
/// Bytes after the message are not read.
pub open spec fn deserialized(b: Seq<u8>) -> Option<MessageModel> {
    if b[0] == 0 {
        Some(MessageModel::Join(b[1] != 0, ip_string(b.subrange(2, 8))))
    } else if b[0] == 1 {
        Some(
            MessageModel::CurrPlayers(
                Seq::new(b[1] as nat, |i: int| ip_string(b.subrange(2 + 6 * i, 8 + 6 * i))),
            ),
        )
    } else if b[0] == 2 {
        Some(MessageModel::Pos(u64_at(b, 1), u64_at(b, 9)))
    } else if b[0] == 3 {
        Some(
            MessageModel::Bullet(
                u64_at(b, 1),
                u64_at(b, 9),
                u64_at(b, 17),
                u64_at(b, 25),
                be_value(b.subrange(33, 49)) as u128,
            ),
        )
    } else if b[0] == 4 {
        Some(MessageModel::Death)
    } else if b[0] == 5 {
        Some(MessageModel::Fort(u64_at(b, 1), u64_at(b, 9)))
    } else if b[0] == 6 {
        Some(MessageModel::FortConnection(u64_at(b, 1), u64_at(b, 9), u64_at(b, 17), u64_at(b, 25)))
    } else {
        None
    }
}

/// The number of bytes that the game's `len` counts for a message.
pub open spec fn message_len(m: MessageModel) -> nat {
    match m {
        MessageModel::Join(..) => 8,
        MessageModel::CurrPlayers(ips) => 2 + 6 * (ips.len() % 256),
        MessageModel::Pos(..) => 17,
        MessageModel::Bullet(..) => 49,
        MessageModel::Death => 1,
        MessageModel::Fort(..) => 17,
        MessageModel::FortConnection(..) => 33,
    }
}

/// `len` computes in a `u8` without overflow: a player list counts at most
/// 42 players (modulo 256).
pub open spec fn len_fits(m: MessageModel) -> bool {
    match m {
        MessageModel::CurrPlayers(ips) => ips.len() % 256 <= 42,
        _ => true,
    }
}

/// The address text that the wire form of an address reads back as.
pub open spec fn canonical_ip(ip: Seq<char>) -> Seq<char> {
    ip_string(ip_bytes(ip).unwrap())
}

/// The message that reading back a written message gives: addresses in
/// their canonical text, and a player list cut to its length modulo 256.
pub open spec fn normalized(m: MessageModel) -> MessageModel {
    match m {
        MessageModel::Join(f, ip) => MessageModel::Join(f, canonical_ip(ip)),
        MessageModel::CurrPlayers(ips) => MessageModel::CurrPlayers(
            Seq::new(ips.len() % 256, |i: int| canonical_ip(ips[i])),
        ),
        _ => m,
    }
}


/// The six-byte wire form of the address text `ip`.
pub fn serialize_ip(ip: &str) -> (r: Vec<u8>)
    requires
        ip_bytes(ip@) is Some,
    ensures
        r@ == ip_bytes(ip@).unwrap(),
{
    match parse_ip(ip) {
        Some(v) => v,
        None => Vec::new(),
    }
}

/// The address text `a.b.c.d:port` of the first six bytes of `ip_bytes`.
pub fn deserialize_ip(ip_bytes: &[u8]) -> (r: String)
    requires
        ip_bytes.len() >= 6,
    ensures
        r@ == ip_string(ip_bytes@),
{
    let r = ip_string_at(ip_bytes, 0);
    assert(ip_string(ip_bytes@.subrange(0, 6)) == ip_string(ip_bytes@));
    r
}

impl Message {
    /// The wire form of the message.
    pub fn serialize(&self) -> (r: Vec<u8>)
        requires
            serializable(self@),
        ensures
            r@ == serialized(self@),
    {
        match self {
            Message::Join(is_first, ip) => {
                let mut join: Vec<u8> = Vec::new();
                join.push(0);
                join.push(if *is_first { 1 } else { 0 });
                let mut ip_part = serialize_ip(ip.as_str());
                join.append(&mut ip_part);
                join
            },
            Message::CurrPlayers(ips) => {
                let mut players: Vec<u8> = Vec::new();
                players.push(1);
                players.push((ips.len() % 256) as u8);
                let ghost model = ips@.map_values(|s: String| s@);
                let mut i: usize = 0;
                while i < ips.len()
                    invariant
                        i <= ips.len(),
                        model == ips@.map_values(|s: String| s@),
                        forall|k: int| 0 <= k < model.len() ==> ip_bytes(#[trigger] model[k]) is Some,
                        players@ == seq![1u8, (ips.len() % 256) as u8] + ips_bytes(
                            model.take(i as int),
                        ),
                    decreases ips.len() - i,
                {
                    assert(model[i as int] == ips@[i as int]@);
                    let mut ip_part = serialize_ip(ips[i].as_str());
                    players.append(&mut ip_part);
                    proof {
                        assert(model.take(i + 1).drop_last() == model.take(i as int));
                    }
                    i += 1;
                }
                assert(model.take(ips.len() as int) == model);
                players
            },
            Message::Pos(x, y) => {
                let mut pos: Vec<u8> = Vec::new();
                pos.push(2);
                push_be(&mut pos, *x as u128, 8);
                push_be(&mut pos, *y as u128, 8);
                pos
            },
            Message::Bullet(x, y, dx, dy, age) => {
                let mut bullet: Vec<u8> = Vec::new();
                bullet.push(3);
                push_be(&mut bullet, *x as u128, 8);
                push_be(&mut bullet, *y as u128, 8);
                push_be(&mut bullet, *dx as u128, 8);
                push_be(&mut bullet, *dy as u128, 8);
                push_be(&mut bullet, *age, 16);
                bullet
            },
            Message::Death => {
                let mut death: Vec<u8> = Vec::new();
                death.push(4);
                death
            },
            Message::Fort(x, y) => {
                let mut fort: Vec<u8> = Vec::new();
                fort.push(5);
                push_be(&mut fort, *x as u128, 8);
                push_be(&mut fort, *y as u128, 8);
                fort
            },
            Message::FortConnection(x1, y1, x2, y2) => {
                let mut fort_connection: Vec<u8> = Vec::new();
                fort_connection.push(6);
                push_be(&mut fort_connection, *x1 as u128, 8);
                push_be(&mut fort_connection, *y1 as u128, 8);
                push_be(&mut fort_connection, *x2 as u128, 8);
                push_be(&mut fort_connection, *y2 as u128, 8);
                fort_connection
            },
        }
    }

    /// Whether `bytes` can be read without running past their end: they hold
    /// a whole message, or start with an unknown tag.
    pub fn can_deserialize(bytes: &[u8]) -> (r: bool)
        ensures
            r == can_deserialize(bytes@),
    {
        if bytes.len() == 0 {
            return false;
        }
        let tag = bytes[0];
        let size: usize = if tag == 0 {
            8
        } else if tag == 1 {
            if bytes.len() < 2 {
                return false;
            }
            2 + 6 * (bytes[1] as usize)
        } else if tag == 2 {
            17
        } else if tag == 3 {
            49
        } else if tag == 4 {
            1
        } else if tag == 5 {
            17
        } else if tag == 6 {
            33
        } else {
            1
        };
        bytes.len() >= size
    }

    /// Reads the message that `bytes` start with; `None` for an unknown
    /// tag.
    pub fn deserialize(bytes: &[u8]) -> (r: Option<Self>)
        requires
            can_deserialize(bytes@),
        ensures
            option_view(r) == deserialized(bytes@),
    {
        proof {
            lemma_pow256_facts();
            lemma_be_value_bound(bytes@.subrange(1, 9));
            lemma_be_value_bound(bytes@.subrange(9, 17));
            lemma_be_value_bound(bytes@.subrange(17, 25));
            lemma_be_value_bound(bytes@.subrange(25, 33));
            lemma_be_value_bound(bytes@.subrange(33, 49));
        }
        let tag = bytes[0];
        if tag == 0 {
            let is_first = bytes[1] != 0;
            let ip = ip_string_at(bytes, 2);
            Some(Message::Join(is_first, ip))
        } else if tag == 1 {
            let ip_len = bytes[1];
            let mut ips: Vec<String> = Vec::new();
            let mut i: usize = 0;
            while i < ip_len as usize
                invariant
                    i <= ip_len,
                    ip_len == bytes@[1],
                    bytes@.len() >= 2 + 6 * (ip_len as nat),
                    ips@.len() == i,
                    forall|k: int|
                        0 <= k < i ==> #[trigger] ips@[k]@ == ip_string(
                            bytes@.subrange(2 + 6 * k, 8 + 6 * k),
                        ),
                decreases ip_len - i,
            {
                let ip = ip_string_at(bytes, 2 + i * 6);
                ips.push(ip);
                i += 1;
            }
            let r = Message::CurrPlayers(ips);
            proof {
                let ghost want = Seq::new(
                    bytes@[1] as nat,
                    |k: int| ip_string(bytes@.subrange(2 + 6 * k, 8 + 6 * k)),
                );
                assert(ips@.map_values(|s: String| s@) == want);
            }
            Some(r)
        } else if tag == 2 {
            let x = read_be(bytes, 1, 8) as u64;
            let y = read_be(bytes, 9, 8) as u64;
            Some(Message::Pos(x, y))
        } else if tag == 3 {
            let x = read_be(bytes, 1, 8) as u64;
            let y = read_be(bytes, 9, 8) as u64;
            let dx = read_be(bytes, 17, 8) as u64;
            let dy = read_be(bytes, 25, 8) as u64;
            let age = read_be(bytes, 33, 16);
            Some(Message::Bullet(x, y, dx, dy, age))
        } else if tag == 4 {
            Some(Message::Death)
        } else if tag == 5 {
            let x = read_be(bytes, 1, 8) as u64;
            let y = read_be(bytes, 9, 8) as u64;
            Some(Message::Fort(x, y))
        } else if tag == 6 {
            let x1 = read_be(bytes, 1, 8) as u64;
            let y1 = read_be(bytes, 9, 8) as u64;
            let x2 = read_be(bytes, 17, 8) as u64;
            let y2 = read_be(bytes, 25, 8) as u64;
            Some(Message::FortConnection(x1, y1, x2, y2))
        } else {
            None
        }
    }

    /// The number of bytes that the message's wire form takes.
    pub fn len(&self) -> (r: u8)
        requires
            len_fits(self@),
        ensures
            r as nat == message_len(self@),
    {
        match self {
            Message::Join(..) => 8,
            Message::CurrPlayers(ips) => 2 + 6 * ((ips.len() % 256) as u8),
            Message::Pos(..) => 17,
            Message::Bullet(..) => 49,
            Message::Death => 1,
            Message::Fort(..) => 17,
            Message::FortConnection(..) => 33,
        }
    }
}


/// A player list writes its true length: fewer than 256 players.
pub open spec fn count_fits(m: MessageModel) -> bool {
    match m {
        MessageModel::CurrPlayers(ips) => ips.len() < 256,
        _ => true,
    }
}

/// The bytes that writing back a read message gives: the message's frame,
/// with a join's flag byte made `0` or `1`.
pub open spec fn canonical_frame(b: Seq<u8>) -> Seq<u8> {
    if b[0] == 0 {
        b.take(8).update(1, if b[1] != 0 { 1u8 } else { 0u8 })
    } else {
        b.take(frame_size(b) as int)
    }
}

proof fn lemma_ip_bytes_len(ip: Seq<char>)
    requires
        ip_bytes(ip) is Some,
    ensures
        ip_bytes(ip).unwrap().len() == 6,
{
}

proof fn lemma_ips_bytes(ips: Seq<Seq<char>>)
    requires
        forall|k: int| 0 <= k < ips.len() ==> ip_bytes(#[trigger] ips[k]) is Some,
    ensures
        ips_bytes(ips).len() == 6 * ips.len(),
        forall|i: int|
            0 <= i < ips.len() ==> ips_bytes(ips).subrange(6 * i, 6 * i + 6) == ip_bytes(
                #[trigger] ips[i],
            ).unwrap(),
    decreases ips.len(),
{
    if ips.len() > 0 {
        let dl = ips.drop_last();
        assert forall|k: int| 0 <= k < dl.len() implies ip_bytes(#[trigger] dl[k]) is Some by {
            assert(dl[k] == ips[k]);
        }
        lemma_ips_bytes(dl);
        lemma_ip_bytes_len(ips.last());
        let all = ips_bytes(ips);
        let head = ips_bytes(dl);
        assert forall|i: int| 0 <= i < ips.len() implies all.subrange(6 * i, 6 * i + 6)
            == ip_bytes(#[trigger] ips[i]).unwrap() by {
            if i < ips.len() - 1 {
                assert(dl[i] == ips[i]);
                assert(all.subrange(6 * i, 6 * i + 6) == head.subrange(6 * i, 6 * i + 6));
            } else {
                assert(all.subrange(6 * i, 6 * i + 6) == ip_bytes(ips.last()).unwrap());
            }
        }
    }
}

/// Six-byte segments of `b`, read as addresses and written back, give the
/// bytes they came from.
proof fn lemma_ips_bytes_of_segments(b: Seq<u8>, n: nat)
    requires
        b.len() >= 2 + 6 * n,
    ensures
        ({
            let ips = Seq::new(n, |i: int| ip_string(b.subrange(2 + 6 * i, 8 + 6 * i)));
            &&& forall|k: int| 0 <= k < ips.len() ==> ip_bytes(#[trigger] ips[k]) is Some
            &&& ips_bytes(ips) == b.subrange(2, 2 + 6 * (n as int))
        }),
    decreases n,
{
    let ips = Seq::new(n, |i: int| ip_string(b.subrange(2 + 6 * i, 8 + 6 * i)));
    assert forall|k: int| 0 <= k < ips.len() implies ip_bytes(#[trigger] ips[k]) is Some by {
        lemma_ip_roundtrip(b.subrange(2 + 6 * k, 8 + 6 * k));
    }
    if n > 0 {
        lemma_ips_bytes_of_segments(b, (n - 1) as nat);
        let prev = Seq::new((n - 1) as nat, |i: int| ip_string(b.subrange(2 + 6 * i, 8 + 6 * i)));
        assert(ips.drop_last() == prev);
        let last = b.subrange(2 + 6 * (n - 1), 8 + 6 * (n - 1));
        lemma_ip_roundtrip(last);
        assert(last.take(6) == last);
        assert(b.subrange(2, 2 + 6 * (n - 1)) + last == b.subrange(2, 2 + 6 * (n as int)));
    } else {
        assert(b.subrange(2, 2) == Seq::<u8>::empty());
    }
}

proof fn lemma_be8_roundtrip(v: u64)
    ensures
        be8(v).len() == 8,
        be_value(be8(v)) == v,
{
    lemma_pow256_facts();
    lemma_be_bytes_len(v as nat, 8);
    lemma_be_roundtrip(v as nat, 8);
}

proof fn lemma_u64_at_roundtrip(b: Seq<u8>, off: int)
    requires
        0 <= off,
        off + 8 <= b.len(),
    ensures
        be8(u64_at(b, off)) == b.subrange(off, off + 8),
{
    let sub = b.subrange(off, off + 8);
    lemma_pow256_facts();
    lemma_be_value_bound(sub);
    lemma_be_bytes_of_value(sub);
}

/// Reading a written message gives the message back, with its addresses in
/// canonical text and a player list cut to its length modulo 256; and the
/// written bytes can always be read.
pub proof fn lemma_serialize_deserialize(m: MessageModel)
    requires
        serializable(m),
    ensures
        can_deserialize(serialized(m)),
        deserialized(serialized(m)) == Some(normalized(m)),
{
    let s = serialized(m);
    match m {
        MessageModel::Join(f, ip) => {
            lemma_ip_bytes_len(ip);
            assert(s.subrange(2, 8) == ip_bytes(ip).unwrap());
        },
        MessageModel::CurrPlayers(ips) => {
            lemma_ips_bytes(ips);
            let n = ips.len() % 256;
            let body = ips_bytes(ips);
            assert forall|i: int| 0 <= i < n implies s.subrange(2 + 6 * i, 8 + 6 * i)
                == ip_bytes(#[trigger] ips[i]).unwrap() by {
                assert(s.subrange(2 + 6 * i, 8 + 6 * i) == body.subrange(6 * i, 6 * i + 6));
            }
            let got = Seq::new(s[1] as nat, |i: int| ip_string(s.subrange(2 + 6 * i, 8 + 6 * i)));
            let want = Seq::new(n, |i: int| canonical_ip(ips[i]));
            assert(got =~= want);
        },
        MessageModel::Pos(x, y) => {
            lemma_be8_roundtrip(x);
            lemma_be8_roundtrip(y);
            assert(s.subrange(1, 9) == be8(x));
            assert(s.subrange(9, 17) == be8(y));
        },
        MessageModel::Bullet(x, y, dx, dy, age) => {
            lemma_be8_roundtrip(x);
            lemma_be8_roundtrip(y);
            lemma_be8_roundtrip(dx);
            lemma_be8_roundtrip(dy);
            lemma_pow256_facts();
            lemma_be_bytes_len(age as nat, 16);
            lemma_be_roundtrip(age as nat, 16);
            assert(s.subrange(1, 9) == be8(x));
            assert(s.subrange(9, 17) == be8(y));
            assert(s.subrange(17, 25) == be8(dx));
            assert(s.subrange(25, 33) == be8(dy));
            assert(s.subrange(33, 49) == be_bytes(age as nat, 16));
        },
        MessageModel::Death => {},
        MessageModel::Fort(x, y) => {
            lemma_be8_roundtrip(x);
            lemma_be8_roundtrip(y);
            assert(s.subrange(1, 9) == be8(x));
            assert(s.subrange(9, 17) == be8(y));
        },
        MessageModel::FortConnection(x1, y1, x2, y2) => {
            lemma_be8_roundtrip(x1);
            lemma_be8_roundtrip(y1);
            lemma_be8_roundtrip(x2);
            lemma_be8_roundtrip(y2);
            assert(s.subrange(1, 9) == be8(x1));
            assert(s.subrange(9, 17) == be8(y1));
            assert(s.subrange(17, 25) == be8(x2));
            assert(s.subrange(25, 33) == be8(y2));
        },
    }
}

/// `len` counts exactly the bytes that `serialize` writes, for every message
/// whose player count fits its count byte.
pub proof fn lemma_serialized_len(m: MessageModel)
    requires
        serializable(m),
        count_fits(m),
    ensures
        serialized(m).len() == message_len(m),
{
    match m {
        MessageModel::Join(f, ip) => {
            lemma_ip_bytes_len(ip);
        },
        MessageModel::CurrPlayers(ips) => {
            lemma_ips_bytes(ips);
        },
        MessageModel::Pos(x, y) => {
            lemma_be8_roundtrip(x);
            lemma_be8_roundtrip(y);
        },
        MessageModel::Bullet(x, y, dx, dy, age) => {
            lemma_be8_roundtrip(x);
            lemma_be8_roundtrip(y);
            lemma_be8_roundtrip(dx);
            lemma_be8_roundtrip(dy);
            lemma_be_bytes_len(age as nat, 16);
        },
        MessageModel::Death => {},
        MessageModel::Fort(x, y) => {
            lemma_be8_roundtrip(x);
            lemma_be8_roundtrip(y);
        },
        MessageModel::FortConnection(x1, y1, x2, y2) => {
            lemma_be8_roundtrip(x1);
            lemma_be8_roundtrip(y1);
            lemma_be8_roundtrip(x2);
            lemma_be8_roundtrip(y2);
        },
    }
}

/// A read message's `len` is the size of the frame it was read from, which
/// lies within the bytes: stepping by `len` through a buffer of messages
/// lands on the next one.
pub proof fn lemma_deserialized_len(b: Seq<u8>)
    requires
        can_deserialize(b),
        deserialized(b) is Some,
        len_fits(deserialized(b).unwrap()),
    ensures
        message_len(deserialized(b).unwrap()) == frame_size(b),
        frame_size(b) <= b.len(),
{
}

/// Reading looks only at the message's own bytes: whatever follows it
/// changes nothing.
pub proof fn lemma_deserialize_prefix(b: Seq<u8>, t: Seq<u8>)
    requires
        can_deserialize(b),
    ensures
        can_deserialize(b + t),
        deserialized(b + t) == deserialized(b),
{
    let bt = b + t;
    assert(bt[0] == b[0]);
    if b[0] <= 6 {
        assert(bt.subrange(0, frame_size(b) as int) == b.subrange(0, frame_size(b) as int));
        if b[0] == 0 {
            assert(bt[1] == b[1]);
            assert(bt.subrange(2, 8) == b.subrange(2, 8));
        } else if b[0] == 1 {
            assert(bt[1] == b[1]);
            let n = b[1] as nat;
            let x = Seq::new(n, |i: int| ip_string(bt.subrange(2 + 6 * i, 8 + 6 * i)));
            let y = Seq::new(n, |i: int| ip_string(b.subrange(2 + 6 * i, 8 + 6 * i)));
            assert forall|i: int| 0 <= i < n implies x[i] == y[i] by {
                assert(bt.subrange(2 + 6 * i, 8 + 6 * i) == b.subrange(2 + 6 * i, 8 + 6 * i));
            }
            assert(x =~= y);
        } else if b[0] == 4 {
        } else {
            assert(bt.subrange(1, 9) == b.subrange(1, 9));
            if b[0] != 2 && b[0] != 5 {
                assert(bt.subrange(9, 17) == b.subrange(9, 17));
                assert(bt.subrange(17, 25) == b.subrange(17, 25));
                assert(bt.subrange(25, 33) == b.subrange(25, 33));
                if b[0] == 3 {
                    assert(bt.subrange(33, 49) == b.subrange(33, 49));
                }
            } else {
                assert(bt.subrange(9, 17) == b.subrange(9, 17));
            }
        }
    }
}

/// Writing back a read message gives the bytes of its frame, except that a
/// join's flag byte becomes `0` or `1`; every read message can be written.
pub proof fn lemma_deserialize_serialize(b: Seq<u8>)
    requires
        can_deserialize(b),
        deserialized(b) is Some,
    ensures
        serializable(deserialized(b).unwrap()),
        serialized(deserialized(b).unwrap()) == canonical_frame(b),
{
    let m = deserialized(b).unwrap();
    if b[0] == 0 {
        lemma_ip_roundtrip(b.subrange(2, 8));
        assert(b.subrange(2, 8).take(6) == b.subrange(2, 8));
        assert(serialized(m) =~= canonical_frame(b));
    } else if b[0] == 1 {
        lemma_ips_bytes_of_segments(b, b[1] as nat);
        assert(serialized(m) =~= canonical_frame(b));
    } else if b[0] == 4 {
        assert(serialized(m) =~= canonical_frame(b));
    } else {
        lemma_u64_at_roundtrip(b, 1);
        lemma_u64_at_roundtrip(b, 9);
        if b[0] == 3 || b[0] == 6 {
            lemma_u64_at_roundtrip(b, 17);
            lemma_u64_at_roundtrip(b, 25);
        }
        if b[0] == 3 {
            let sub = b.subrange(33, 49);
            lemma_pow256_facts();
            lemma_be_value_bound(sub);
            lemma_be_bytes_of_value(sub);
        }
        assert(serialized(m) =~= canonical_frame(b));
    }
}


/// The messages that a received buffer holds, as the game reads them: each
/// is read where the one before it ended, the next one starting `len` bytes
/// further on. `None` where the game cannot read on: a frame cut short (where
/// it panics), an unknown tag (where it loops forever) or a player list that
/// `len` cannot count (where it panics).
pub open spec fn frames(b: Seq<u8>) -> Option<Seq<MessageModel>>
    decreases b.len(),
{
    if b.len() == 0 {
        Some(seq![])
    } else if !can_deserialize(b) {
        None
    } else {
        match deserialized(b) {
            None => None,
            Some(m) => if !len_fits(m) {
                None
            } else {
                match frames(b.skip(frame_size(b) as int)) {
                    Some(rest) => Some(seq![m] + rest),
                    None => None,
                }
            },
        }
    }
}

/// `messages` followed by the messages of `rest`, if `rest` reads.
pub open spec fn prepend_frames(messages: Seq<MessageModel>, rest: Option<Seq<MessageModel>>) -> Option<
    Seq<MessageModel>,
> {
    match rest {
        Some(r) => Some(messages + r),
        None => None,
    }
}

/// The values of a list of messages.
pub open spec fn messages_view(v: Seq<Message>) -> Seq<MessageModel> {
    v.map_values(|m: Message| m@)
}

/// Splits a received buffer into the messages it holds, one after the
/// other; `None` where `frames` says the buffer does not read.
pub fn split_messages(bytes: &[u8]) -> (r: Option<Vec<Message>>)
    ensures
        match r {
            Some(v) => frames(bytes@) == Some(messages_view(v@)),
            None => frames(bytes@) is None,
        },
{
    let mut out: Vec<Message> = Vec::new();
    let mut start: usize = 0;
    assert(bytes@.skip(0) == bytes@);
    assert(messages_view(out@) == Seq::<MessageModel>::empty());
    while start < bytes.len()
        invariant
            start <= bytes.len(),
            frames(bytes@) == prepend_frames(messages_view(out@), frames(bytes@.skip(start as int))),
        decreases bytes.len() - start,
    {
        let (_, rest) = bytes.split_at(start);
        assert(rest@ == bytes@.skip(start as int));
        if !Message::can_deserialize(rest) {
            return None;
        }
        let m = match Message::deserialize(rest) {
            Some(m) => m,
            None => return None,
        };
        let fits = match &m {
            Message::CurrPlayers(ips) => ips.len() % 256 <= 42,
            _ => true,
        };
        if !fits {
            return None;
        }
        proof {
            lemma_deserialized_len(rest@);
        }
        let step = m.len() as usize;
        let ghost before = out@;
        out.push(m);
        proof {
            assert(rest@.skip(step as int) == bytes@.skip(start + step));
            assert(messages_view(out@) == messages_view(before) + seq![m@]);
            assert(messages_view(before) + (seq![m@] + frames(rest@.skip(step as int))->0)
                == messages_view(out@) + frames(rest@.skip(step as int))->0);
        }
        start = start + step;
    }
    assert(bytes@.skip(start as int) == Seq::<u8>::empty());
    assert(messages_view(out@) + Seq::<MessageModel>::empty() == messages_view(out@));
    Some(out)
}


/// Where the fields of each message stand in its wire form: the tag byte,
/// then every field at a fixed offset, numbers big-endian.
pub proof fn lemma_serialized_layout(m: MessageModel)
    requires
        serializable(m),
    ensures
        ({
            let s = serialized(m);
            match m {
                MessageModel::Join(f, ip) => s.len() == 8 && s[0] == 0 && s[1] == (if f {
                    1u8
                } else {
                    0u8
                }) && s.subrange(2, 8) == ip_bytes(ip).unwrap(),
                MessageModel::CurrPlayers(ips) => s.len() == 2 + 6 * ips.len() && s[0] == 1 && s[1]
                    as nat == ips.len() % 256 && forall|i: int|
                    0 <= i < ips.len() ==> #[trigger] s.subrange(2 + 6 * i, 8 + 6 * i)
                        == ip_bytes(ips[i]).unwrap(),
                MessageModel::Pos(x, y) => s.len() == 17 && s[0] == 2 && be_value(s.subrange(1, 9))
                    == x && be_value(s.subrange(9, 17)) == y,
                MessageModel::Bullet(x, y, dx, dy, age) => s.len() == 49 && s[0] == 3 && be_value(
                    s.subrange(1, 9),
                ) == x && be_value(s.subrange(9, 17)) == y && be_value(s.subrange(17, 25)) == dx
                    && be_value(s.subrange(25, 33)) == dy && be_value(s.subrange(33, 49)) == age,
                MessageModel::Death => s == seq![4u8],
                MessageModel::Fort(x, y) => s.len() == 17 && s[0] == 5 && be_value(
                    s.subrange(1, 9),
                ) == x && be_value(s.subrange(9, 17)) == y,
                MessageModel::FortConnection(x1, y1, x2, y2) => s.len() == 33 && s[0] == 6
                    && be_value(s.subrange(1, 9)) == x1 && be_value(s.subrange(9, 17)) == y1
                    && be_value(s.subrange(17, 25)) == x2 && be_value(s.subrange(25, 33)) == y2,
            }
        }),
{
    let s = serialized(m);
    match m {
        MessageModel::Join(f, ip) => {
            lemma_ip_bytes_len(ip);
            assert(s.subrange(2, 8) == ip_bytes(ip).unwrap());
        },
        MessageModel::CurrPlayers(ips) => {
            lemma_ips_bytes(ips);
            let body = ips_bytes(ips);
            assert forall|i: int| 0 <= i < ips.len() implies #[trigger] s.subrange(
                2 + 6 * i,
                8 + 6 * i,
            ) == ip_bytes(ips[i]).unwrap() by {
                assert(s.subrange(2 + 6 * i, 8 + 6 * i) == body.subrange(6 * i, 6 * i + 6));
            }
        },
        MessageModel::Pos(x, y) => {
            lemma_be8_roundtrip(x);
            lemma_be8_roundtrip(y);
            assert(s.subrange(1, 9) == be8(x));
            assert(s.subrange(9, 17) == be8(y));
        },
        MessageModel::Bullet(x, y, dx, dy, age) => {
            lemma_be8_roundtrip(x);
            lemma_be8_roundtrip(y);
            lemma_be8_roundtrip(dx);
            lemma_be8_roundtrip(dy);
            lemma_pow256_facts();
            lemma_be_bytes_len(age as nat, 16);
            lemma_be_roundtrip(age as nat, 16);
            assert(s.subrange(1, 9) == be8(x));
            assert(s.subrange(9, 17) == be8(y));
            assert(s.subrange(17, 25) == be8(dx));
            assert(s.subrange(25, 33) == be8(dy));
            assert(s.subrange(33, 49) == be_bytes(age as nat, 16));
        },
        MessageModel::Death => {},
        MessageModel::Fort(x, y) => {
            lemma_be8_roundtrip(x);
            lemma_be8_roundtrip(y);
            assert(s.subrange(1, 9) == be8(x));
            assert(s.subrange(9, 17) == be8(y));
        },
        MessageModel::FortConnection(x1, y1, x2, y2) => {
            lemma_be8_roundtrip(x1);
            lemma_be8_roundtrip(y1);
            lemma_be8_roundtrip(x2);
            lemma_be8_roundtrip(y2);
            assert(s.subrange(1, 9) == be8(x1));
            assert(s.subrange(9, 17) == be8(y1));
            assert(s.subrange(17, 25) == be8(x2));
            assert(s.subrange(25, 33) == be8(y2));
        },
    }
}

/// Reading bytes laid out field by field gives those fields, in order:
/// after the tag, the i-th number is the big-endian value of its own eight
/// (for an age, sixteen) bytes; whatever follows is not read.
pub proof fn lemma_deserialize_fields(
    a: u64,
    b: u64,
    c: u64,
    d: u64,
    age: u128,
    flag: u8,
    ip: Seq<u8>,
    rest: Seq<u8>,
)
    requires
        ip.len() == 6,
    ensures
        deserialized(seq![0u8, flag] + ip + rest) == Some(MessageModel::Join(flag != 0, ip_string(ip))),
        deserialized(seq![2u8] + be_bytes(a as nat, 8) + be_bytes(b as nat, 8) + rest) == Some(
            MessageModel::Pos(a, b),
        ),
        deserialized(seq![3u8] + be_bytes(a as nat, 8) + be_bytes(b as nat, 8) + be_bytes(
            c as nat,
            8,
        ) + be_bytes(d as nat, 8) + be_bytes(age as nat, 16) + rest) == Some(
            MessageModel::Bullet(a, b, c, d, age),
        ),
        deserialized(seq![4u8] + rest) == Some(MessageModel::Death),
        deserialized(seq![5u8] + be_bytes(a as nat, 8) + be_bytes(b as nat, 8) + rest) == Some(
            MessageModel::Fort(a, b),
        ),
        deserialized(seq![6u8] + be_bytes(a as nat, 8) + be_bytes(b as nat, 8) + be_bytes(
            c as nat,
            8,
        ) + be_bytes(d as nat, 8) + rest) == Some(MessageModel::FortConnection(a, b, c, d)),
{
    lemma_be8_roundtrip(a);
    lemma_be8_roundtrip(b);
    lemma_be8_roundtrip(c);
    lemma_be8_roundtrip(d);
    lemma_pow256_facts();
    lemma_be_bytes_len(age as nat, 16);
    lemma_be_roundtrip(age as nat, 16);
    let j = seq![0u8, flag] + ip + rest;
    assert(j.subrange(2, 8) == ip);
    let p = seq![2u8] + be8(a) + be8(b) + rest;
    assert(p.subrange(1, 9) == be8(a));
    assert(p.subrange(9, 17) == be8(b));
    let q = seq![3u8] + be8(a) + be8(b) + be8(c) + be8(d) + be_bytes(age as nat, 16) + rest;
    assert(q.subrange(1, 9) == be8(a));
    assert(q.subrange(9, 17) == be8(b));
    assert(q.subrange(17, 25) == be8(c));
    assert(q.subrange(25, 33) == be8(d));
    assert(q.subrange(33, 49) == be_bytes(age as nat, 16));
    let f = seq![5u8] + be8(a) + be8(b) + rest;
    assert(f.subrange(1, 9) == be8(a));
    assert(f.subrange(9, 17) == be8(b));
    let g = seq![6u8] + be8(a) + be8(b) + be8(c) + be8(d) + rest;
    assert(g.subrange(1, 9) == be8(a));
    assert(g.subrange(9, 17) == be8(b));
    assert(g.subrange(17, 25) == be8(c));
    assert(g.subrange(25, 33) == be8(d));
    assert((seq![4u8] + rest)[0] == 4u8);
}

/// A message that `split_messages` can step over: its addresses parse and
/// its player list (if any) holds at most 42 players.
pub open spec fn splittable(m: MessageModel) -> bool {
    serializable(m) && len_fits(m) && count_fits(m)
}

/// The wire forms of `ms`, one after the other.
pub open spec fn serialized_all(ms: Seq<MessageModel>) -> Seq<u8>
    decreases ms.len(),
{
    if ms.len() == 0 {
        seq![]
    } else {
        serialized(ms[0]) + serialized_all(ms.drop_first())
    }
}

/// A written message, followed by any bytes, splits into that message (read
/// back) and then whatever the following bytes split into.
pub proof fn lemma_frames_cons(m: MessageModel, rest: Seq<u8>)
    requires
        splittable(m),
    ensures
        frames(serialized(m) + rest) == prepend_frames(seq![normalized(m)], frames(rest)),
{
    let s = serialized(m);
    let b = s + rest;
    lemma_serialize_deserialize(m);
    lemma_deserialize_prefix(s, rest);
    lemma_serialized_len(m);
    lemma_deserialized_len(s);
    assert(b.len() > 0);
    assert(b[0] == s[0]);
    assert(s.len() >= 2 ==> b[1] == s[1]);
    assert(frame_size(b) == frame_size(s));
    assert(b.skip(s.len() as int) == rest);
}

/// Splitting the wire forms of messages laid one after another gives those
/// messages, read back, in the same order: none dropped, none added, none
/// reordered.
pub proof fn lemma_frames_all(ms: Seq<MessageModel>)
    requires
        forall|i: int| 0 <= i < ms.len() ==> splittable(#[trigger] ms[i]),
    ensures
        frames(serialized_all(ms)) == Some(ms.map_values(|m: MessageModel| normalized(m))),
    decreases ms.len(),
{
    if ms.len() == 0 {
        assert(ms.map_values(|m: MessageModel| normalized(m)) == Seq::<MessageModel>::empty());
    } else {
        let tail = ms.drop_first();
        assert forall|i: int| 0 <= i < tail.len() implies splittable(#[trigger] tail[i]) by {
            assert(tail[i] == ms[i + 1]);
        }
        lemma_frames_all(tail);
        lemma_frames_cons(ms[0], serialized_all(tail));
        assert(seq![normalized(ms[0])] + tail.map_values(|m: MessageModel| normalized(m))
            == ms.map_values(|m: MessageModel| normalized(m)));
    }
}

} // verus!
