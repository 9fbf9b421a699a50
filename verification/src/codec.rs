//! The wire codec: length-delimited binary frames with one leading tag byte.
//!
//! Strings travel as a 16-bit big-endian byte length followed by UTF-8
//! bytes; integers are big-endian and fixed-width.  Finish times are 64-bit
//! values; the finish event (tag 8) carries them widened to the 16 bytes its
//! frame reserves, the ranking entries of tag 9 carry them in 8.  The codec
//! is stateless and a frame that cannot be understood is failed on its own:
//! the session answers it and carries on.

use crate::events::{EventV, ServerEvent};
use crate::game::Finish;
use vstd::prelude::*;
use vstd::slice::slice_subrange;
use vstd::utf8::{decode_utf8, encode_utf8, valid_utf8};

verus! {

/// Two big-endian bytes of a 16-bit value.
pub open spec fn be16(x: u16) -> Seq<u8> {
    seq![(x / 256) as u8, (x % 256) as u8]
}

/// Eight big-endian bytes of a 64-bit value.
pub open spec fn be64(x: u64) -> Seq<u8> {
    seq![
        ((x / 0x100000000000000) % 256) as u8,
        ((x / 0x1000000000000) % 256) as u8,
        ((x / 0x10000000000) % 256) as u8,
        ((x / 0x100000000) % 256) as u8,
        ((x / 0x1000000) % 256) as u8,
        ((x / 0x10000) % 256) as u8,
        ((x / 0x100) % 256) as u8,
        (x % 256) as u8,
    ]
}

/// A string on the wire: 16-bit big-endian byte length, then the UTF-8
/// bytes.  Meaningful when the string fits, that is when its UTF-8 form has
/// at most 0xFFFF bytes.
pub open spec fn str_field(s: Seq<char>) -> Seq<u8> {
    be16(encode_utf8(s).len() as u16) + encode_utf8(s)
}

/// The roster payload: each name as a string field, in order.
pub open spec fn names_field(names: Seq<Seq<char>>) -> Seq<u8>
    decreases names.len(),
{
    if names.len() == 0 {
        Seq::empty()
    } else {
        str_field(names[0]) + names_field(names.drop_first())
    }
}

/// The ranking payload: each entry as a string field and eight time bytes.
pub open spec fn ranking_field(entries: Seq<(Seq<char>, u64)>) -> Seq<u8>
    decreases entries.len(),
{
    if entries.len() == 0 {
        Seq::empty()
    } else {
        str_field(entries[0].0) + be64(entries[0].1) + ranking_field(entries.drop_first())
    }
}

/// The complete frame of a server event: one tag byte, then the payload.
pub open spec fn event_frame(e: EventV) -> Seq<u8> {
    match e {
        EventV::LobbyUpdate { players } => seq![2u8] + be16(players.len() as u16) + names_field(
            players,
        ),
        EventV::NameConflict => seq![3u8],
        EventV::Countdown { seconds } => seq![4u8, seconds],
        EventV::StartRace { text } => seq![5u8] + str_field(text),
        EventV::Feedback { position, correct, key } => seq![6u8] + be16(position) + seq![
            (if correct {
                1u8
            } else {
                0u8
            }),
        ] + str_field(key),
        EventV::Progress { name, position } => seq![7u8] + str_field(name) + be16(position),
        EventV::Finish { name, time_ms } => seq![8u8] + str_field(name) + seq![
            0u8,
            0u8,
            0u8,
            0u8,
            0u8,
            0u8,
            0u8,
            0u8,
        ] + be64(time_ms),
        EventV::RaceResult { ranking } => seq![9u8] + be16(ranking.len() as u16) + ranking_field(
            ranking,
        ),
        EventV::ErrorMsg { message } => seq![255u8] + str_field(message),
    }
}

/// Every 16-bit field of the event's frame fits.  Events made from a
/// well-formed room always do.
pub open spec fn encodable(e: EventV) -> bool {
    match e {
        EventV::LobbyUpdate { players } => players.len() <= 0xFFFF && forall|i: int|
            0 <= i < players.len() ==> encode_utf8(#[trigger] players[i]).len() <= 0xFFFF,
        EventV::NameConflict => true,
        EventV::Countdown { seconds } => true,
        EventV::StartRace { text } => encode_utf8(text).len() <= 0xFFFF,
        EventV::Feedback { position, correct, key } => encode_utf8(key).len() <= 0xFFFF,
        EventV::Progress { name, position } => encode_utf8(name).len() <= 0xFFFF,
        EventV::Finish { name, time_ms } => encode_utf8(name).len() <= 0xFFFF,
        EventV::RaceResult { ranking } => ranking.len() <= 0xFFFF && forall|i: int|
            0 <= i < ranking.len() ==> encode_utf8((#[trigger] ranking[i]).0).len() <= 0xFFFF,
        EventV::ErrorMsg { message } => encode_utf8(message).len() <= 0xFFFF,
    }
}

proof fn lemma_names_field_concat(a: Seq<Seq<char>>, b: Seq<Seq<char>>)
    ensures
        names_field(a + b) == names_field(a) + names_field(b),
    decreases a.len(),
{
    if a.len() == 0 {
        assert(a + b =~= b);
        assert(names_field(a) + names_field(b) =~= names_field(b));
    } else {
        assert((a + b).drop_first() =~= a.drop_first() + b);
        lemma_names_field_concat(a.drop_first(), b);
        assert(names_field(a + b) =~= names_field(a) + names_field(b));
    }
}

proof fn lemma_names_field_snoc(names: Seq<Seq<char>>, j: int)
    requires
        0 <= j < names.len(),
    ensures
        names_field(names.take(j + 1)) == names_field(names.take(j)) + str_field(names[j]),
{
    assert(names.take(j + 1) =~= names.take(j) + seq![names[j]]);
    lemma_names_field_concat(names.take(j), seq![names[j]]);
    assert(seq![names[j]].drop_first() =~= Seq::<Seq<char>>::empty());
    assert(names_field(seq![names[j]]) == str_field(names[j]) + names_field(
        Seq::<Seq<char>>::empty(),
    ));
    assert(str_field(names[j]) + Seq::<u8>::empty() =~= str_field(names[j]));
}

proof fn lemma_ranking_field_concat(a: Seq<(Seq<char>, u64)>, b: Seq<(Seq<char>, u64)>)
    ensures
        ranking_field(a + b) == ranking_field(a) + ranking_field(b),
    decreases a.len(),
{
    if a.len() == 0 {
        assert(a + b =~= b);
        assert(ranking_field(a) + ranking_field(b) =~= ranking_field(b));
    } else {
        assert((a + b).drop_first() =~= a.drop_first() + b);
        lemma_ranking_field_concat(a.drop_first(), b);
        assert(ranking_field(a + b) =~= ranking_field(a) + ranking_field(b));
    }
}

proof fn lemma_ranking_field_snoc(entries: Seq<(Seq<char>, u64)>, j: int)
    requires
        0 <= j < entries.len(),
    ensures
        ranking_field(entries.take(j + 1)) == ranking_field(entries.take(j)) + str_field(
            entries[j].0,
        ) + be64(entries[j].1),
{
    assert(entries.take(j + 1) =~= entries.take(j) + seq![entries[j]]);
    lemma_ranking_field_concat(entries.take(j), seq![entries[j]]);
    assert(seq![entries[j]].drop_first() =~= Seq::<(Seq<char>, u64)>::empty());
    assert(ranking_field(seq![entries[j]]) == str_field(entries[j].0) + be64(entries[j].1)
        + ranking_field(Seq::<(Seq<char>, u64)>::empty()));
    assert(str_field(entries[j].0) + be64(entries[j].1) + Seq::<u8>::empty() =~= str_field(
        entries[j].0,
    ) + be64(entries[j].1));
}

/// Append the two big-endian bytes of `x`.
fn push_be16(v: &mut Vec<u8>, x: u16)
    ensures
        final(v)@ == old(v)@ + be16(x),
{
    v.push((x / 256) as u8);
    v.push((x % 256) as u8);
    proof {
        assert(v@ =~= old(v)@ + be16(x));
    }
}

/// Append the eight big-endian bytes of `x`.
fn push_be64(v: &mut Vec<u8>, x: u64)
    ensures
        final(v)@ == old(v)@ + be64(x),
{
    v.push(((x / 0x100000000000000) % 256) as u8);
    v.push(((x / 0x1000000000000) % 256) as u8);
    v.push(((x / 0x10000000000) % 256) as u8);
    v.push(((x / 0x100000000) % 256) as u8);
    v.push(((x / 0x1000000) % 256) as u8);
    v.push(((x / 0x10000) % 256) as u8);
    v.push(((x / 0x100) % 256) as u8);
    v.push((x % 256) as u8);
    proof {
        assert(v@ =~= old(v)@ + be64(x));
    }
}

/// A string as the wire carries it: 16-bit big-endian byte length, then the
/// UTF-8 bytes.
pub fn encode_str(s: &str) -> (v: Vec<u8>)
    requires
        encode_utf8(s@).len() <= 0xFFFF,
    ensures
        v@ == str_field(s@),
{
    let mut bytes = s.as_bytes_vec();
    let n = bytes.len() as u16;
    let mut v: Vec<u8> = Vec::new();
    push_be16(&mut v, n);
    v.append(&mut bytes);
    proof {
        assert(v@ =~= str_field(s@));
    }
    v
}

/// Append a string field.
fn push_str_field(v: &mut Vec<u8>, s: &String)
    requires
        encode_utf8(s@).len() <= 0xFFFF,
    ensures
        final(v)@ == old(v)@ + str_field(s@),
{
    let mut field = encode_str(s.as_str());
    v.append(&mut field);
}

/// Encode a server event as its wire frame.
pub fn encode_event(e: &ServerEvent) -> (v: Vec<u8>)
    requires
        encodable(e@),
    ensures
        v@ == event_frame(e@),
{
    match e {
        ServerEvent::LobbyUpdate { players } => {
            let mut v: Vec<u8> = Vec::new();
            v.push(2u8);
            push_be16(&mut v, players.len() as u16);
            let ghost names = e@->LobbyUpdate_players;
            proof {
                assert(names =~= players@.map_values(|s: String| s@));
                assert(v@ =~= seq![2u8] + be16(players@.len() as u16) + names_field(
                    names.take(0),
                ));
            }
            let mut j: usize = 0;
            while j < players.len()
                invariant
                    j <= players@.len(),
                    players@.len() <= 0xFFFF,
                    names == players@.map_values(|s: String| s@),
                    forall|i: int|
                        0 <= i < players@.len() ==> encode_utf8(#[trigger] names[i]).len()
                            <= 0xFFFF,
                    v@ == seq![2u8] + be16(players@.len() as u16) + names_field(
                        names.take(j as int),
                    ),
                decreases players@.len() - j,
            {
                proof {
                    assert(names[j as int] == players@[j as int]@);
                }
                push_str_field(&mut v, &players[j]);
                proof {
                    lemma_names_field_snoc(names, j as int);
                    assert(v@ =~= seq![2u8] + be16(players@.len() as u16) + names_field(
                        names.take(j + 1 as int),
                    ));
                }
                j += 1;
            }
            proof {
                assert(names.take(names.len() as int) =~= names);
            }
            v
        },
        ServerEvent::NameConflict => {
            let mut v: Vec<u8> = Vec::new();
            v.push(3u8);
            proof {
                assert(v@ =~= seq![3u8]);
            }
            v
        },
        ServerEvent::Countdown { seconds } => {
            let mut v: Vec<u8> = Vec::new();
            v.push(4u8);
            v.push(*seconds);
            proof {
                assert(v@ =~= seq![4u8, *seconds]);
            }
            v
        },
        ServerEvent::StartRace { text } => {
            let mut v: Vec<u8> = Vec::new();
            v.push(5u8);
            push_str_field(&mut v, text);
            proof {
                assert(v@ =~= event_frame(e@));
            }
            v
        },
        ServerEvent::Feedback { position, correct, key } => {
            let mut v: Vec<u8> = Vec::new();
            v.push(6u8);
            push_be16(&mut v, *position);
            v.push(if *correct {
                1u8
            } else {
                0u8
            });
            push_str_field(&mut v, key);
            proof {
                assert(v@ =~= event_frame(e@));
            }
            v
        },
        ServerEvent::Progress { name, position } => {
            let mut v: Vec<u8> = Vec::new();
            v.push(7u8);
            push_str_field(&mut v, name);
            push_be16(&mut v, *position);
            proof {
                assert(v@ =~= event_frame(e@));
            }
            v
        },
        ServerEvent::Finish { name, time_ms } => {
            let mut v: Vec<u8> = Vec::new();
            v.push(8u8);
            push_str_field(&mut v, name);
            let mut z: usize = 0;
            while z < 8
                invariant
                    z <= 8,
                    v@ == seq![8u8] + str_field(name@) + Seq::new(z as nat, |i: int| 0u8),
                decreases 8 - z,
            {
                v.push(0u8);
                proof {
                    assert(v@ =~= seq![8u8] + str_field(name@) + Seq::new(
                        (z + 1) as nat,
                        |i: int| 0u8,
                    ));
                }
                z += 1;
            }
            push_be64(&mut v, *time_ms);
            proof {
                assert(Seq::new(8nat, |i: int| 0u8) =~= seq![0u8, 0u8, 0u8, 0u8, 0u8, 0u8, 0u8, 0u8]);
                assert(v@ =~= event_frame(e@));
            }
            v
        },
        ServerEvent::RaceResult { ranking } => {
            let mut v: Vec<u8> = Vec::new();
            v.push(9u8);
            push_be16(&mut v, ranking.len() as u16);
            let ghost entries = e@->RaceResult_ranking;
            proof {
                assert(entries =~= ranking@.map_values(|f: Finish| (f.name@, f.time_ms)));
                assert(v@ =~= seq![9u8] + be16(ranking@.len() as u16) + ranking_field(
                    entries.take(0),
                ));
            }
            let mut j: usize = 0;
            while j < ranking.len()
                invariant
                    j <= ranking@.len(),
                    ranking@.len() <= 0xFFFF,
                    entries == ranking@.map_values(|f: Finish| (f.name@, f.time_ms)),
                    forall|i: int|
                        0 <= i < entries.len() ==> encode_utf8((#[trigger] entries[i]).0).len()
                            <= 0xFFFF,
                    v@ == seq![9u8] + be16(ranking@.len() as u16) + ranking_field(
                        entries.take(j as int),
                    ),
                decreases ranking@.len() - j,
            {
                proof {
                    assert(entries[j as int] == (ranking@[j as int].name@, ranking@[j as int].time_ms));
                }
                push_str_field(&mut v, &ranking[j].name);
                push_be64(&mut v, ranking[j].time_ms);
                proof {
                    lemma_ranking_field_snoc(entries, j as int);
                    assert(v@ =~= seq![9u8] + be16(ranking@.len() as u16) + ranking_field(
                        entries.take(j + 1 as int),
                    ));
                }
                j += 1;
            }
            proof {
                assert(entries.take(entries.len() as int) =~= entries);
            }
            v
        },
        ServerEvent::ErrorMsg { message } => {
            let mut v: Vec<u8> = Vec::new();
            v.push(255u8);
            push_str_field(&mut v, message);
            proof {
                assert(v@ =~= event_frame(e@));
            }
            v
        },
    }
}

/// View of a client frame: what the frame asks, free of `String`.
#[verifier::ext_equal]
pub enum FrameV {
    Join { room: Seq<char>, name: Seq<char>, reconnect: bool },
    Keystroke { key: Seq<char> },
    Invalid,
}

/// A decoded client-to-server frame.  `Invalid` stands for every frame the
/// codec fails: a missing or unknown tag, a truncated or oversized payload,
/// or bytes that are not UTF-8.
#[derive(Debug, Clone, PartialEq, Eq)]
pub enum ClientFrame {
    /// Enter the named room under the given display name (tag 0).
    Join { room: String, name: String, reconnect: bool },
    /// One typed string, normally a single character (tag 1).
    Keystroke { key: String },
    /// The frame could not be understood.
    Invalid,
}

impl View for ClientFrame {
    type V = FrameV;

    open spec fn view(&self) -> FrameV {
        match self {
            ClientFrame::Join { room, name, reconnect } => FrameV::Join {
                room: room@,
                name: name@,
                reconnect: *reconnect,
            },
            ClientFrame::Keystroke { key } => FrameV::Keystroke { key: key@ },
            ClientFrame::Invalid => FrameV::Invalid,
        }
    }
}

/// The byte length named by the two big-endian bytes at `off`.
pub open spec fn field_len_at(bytes: Seq<u8>, off: int) -> int {
    bytes[off] * 256 + bytes[off + 1]
}

/// Offset just past the string field that starts at `off`.
pub open spec fn str_at_end(bytes: Seq<u8>, off: int) -> int {
    off + 2 + field_len_at(bytes, off)
}

/// A string field can be read at `off`: its length bytes and payload lie
/// within `bytes` and the payload is valid UTF-8.
pub open spec fn str_at_ok(bytes: Seq<u8>, off: int) -> bool {
    &&& 0 <= off
    &&& off + 2 <= bytes.len()
    &&& str_at_end(bytes, off) <= bytes.len()
    &&& valid_utf8(bytes.subrange(off + 2, str_at_end(bytes, off)))
}

/// The characters of the string field at `off`.
pub open spec fn str_at(bytes: Seq<u8>, off: int) -> Seq<char> {
    decode_utf8(bytes.subrange(off + 2, str_at_end(bytes, off)))
}

/// What a client frame's bytes say.  A Join frame is one tag byte, two
/// string fields and one flag byte; a Keystroke frame is one tag byte and
/// one string field; nothing may trail, and every payload must be UTF-8.
pub open spec fn parse_frame(bytes: Seq<u8>) -> FrameV {
    if bytes.len() < 1 {
        FrameV::Invalid
    } else if bytes[0] == 0 {
        if str_at_ok(bytes, 1) && str_at_ok(bytes, str_at_end(bytes, 1)) && str_at_end(
            bytes,
            str_at_end(bytes, 1),
        ) + 1 == bytes.len() {
            FrameV::Join {
                room: str_at(bytes, 1),
                name: str_at(bytes, str_at_end(bytes, 1)),
                reconnect: bytes[bytes.len() - 1] != 0,
            }
        } else {
            FrameV::Invalid
        }
    } else if bytes[0] == 1 {
        if str_at_ok(bytes, 1) && str_at_end(bytes, 1) == bytes.len() {
            FrameV::Keystroke { key: str_at(bytes, 1) }
        } else {
            FrameV::Invalid
        }
    } else {
        FrameV::Invalid
    }
}

/// Relies on `core::str::from_utf8`: it returns `Ok` exactly on valid UTF-8,
/// and the `str` it returns holds the decoded characters of those bytes.
#[verifier::external_body]
fn utf8_to_string(bytes: &[u8]) -> (r: Option<String>)
    ensures
        r is Some <==> valid_utf8(bytes@),
        r matches Some(s) ==> s@ == decode_utf8(bytes@),
{
    match core::str::from_utf8(bytes) {
        Ok(s) => Some(s.to_owned()),
        Err(_) => None,
    }
}

/// Read the string field at `off`: the decoded string and the offset just
/// past it.
fn read_str(buf: &Vec<u8>, off: usize) -> (r: Option<(String, usize)>)
    requires
        off <= buf@.len(),
    ensures
        r is Some <==> str_at_ok(buf@, off as int),
        r matches Some(p) ==> p.0@ == str_at(buf@, off as int) && p.1 == str_at_end(
            buf@,
            off as int,
        ),
{
    if buf.len() < 2 || off > buf.len() - 2 {
        return None;
    }
    let n = (buf[off] as usize) * 256 + (buf[off + 1] as usize);
    if n > buf.len() - (off + 2) {
        return None;
    }
    let payload = slice_subrange(buf.as_slice(), off + 2, off + 2 + n);
    match utf8_to_string(payload) {
        Some(s) => Some((s, off + 2 + n)),
        None => None,
    }
}

/// Law: a Keystroke frame assembled as the protocol describes — tag 1, then
/// the typed string as a string field — parses back to exactly that string.
pub proof fn lemma_keystroke_frame_parses(key: Seq<char>)
    requires
        encode_utf8(key).len() <= 0xFFFF,
    ensures
        parse_frame(seq![1u8] + str_field(key)) == (FrameV::Keystroke { key }),
{
    broadcast use vstd::utf8::encode_utf8_valid_utf8;
    broadcast use vstd::utf8::encode_utf8_decode_utf8;

    let bytes = seq![1u8] + str_field(key);
    let n = encode_utf8(key).len() as int;
    assert(bytes.len() == 3 + n);
    assert(bytes[0] == 1u8);
    assert(bytes[1] == (encode_utf8(key).len() as u16 / 256) as u8);
    assert(bytes[2] == (encode_utf8(key).len() as u16 % 256) as u8);
    assert(field_len_at(bytes, 1) == n);
    assert(bytes.subrange(3, 3 + n) =~= encode_utf8(key));
    assert(str_at_ok(bytes, 1));
    assert(str_at(bytes, 1) == decode_utf8(encode_utf8(key)));
}

/// Law: a Join frame assembled as the protocol describes — tag 0, the room
/// and name as string fields, one flag byte — parses back to exactly those
/// values.
pub proof fn lemma_join_frame_parses(room: Seq<char>, name: Seq<char>, reconnect: bool)
    requires
        encode_utf8(room).len() <= 0xFFFF,
        encode_utf8(name).len() <= 0xFFFF,
    ensures
        parse_frame(
            seq![0u8] + str_field(room) + str_field(name) + seq![
                (if reconnect {
                    1u8
                } else {
                    0u8
                }),
            ],
        ) == (FrameV::Join { room, name, reconnect }),
{
    broadcast use vstd::utf8::encode_utf8_valid_utf8;
    broadcast use vstd::utf8::encode_utf8_decode_utf8;

    let flag: u8 = if reconnect {
        1u8
    } else {
        0u8
    };
    let bytes = seq![0u8] + str_field(room) + str_field(name) + seq![flag];
    let rn = encode_utf8(room).len() as int;
    let nn = encode_utf8(name).len() as int;
    assert(bytes.len() == 6 + rn + nn);
    assert(bytes[0] == 0u8);
    assert(bytes[1] == (encode_utf8(room).len() as u16 / 256) as u8);
    assert(bytes[2] == (encode_utf8(room).len() as u16 % 256) as u8);
    assert(field_len_at(bytes, 1) == rn);
    assert(str_at_end(bytes, 1) == 3 + rn);
    assert(bytes.subrange(3, 3 + rn) =~= encode_utf8(room));
    assert(str_at_ok(bytes, 1));
    assert(str_at(bytes, 1) == decode_utf8(encode_utf8(room)));
    assert(bytes[3 + rn] == (encode_utf8(name).len() as u16 / 256) as u8);
    assert(bytes[4 + rn] == (encode_utf8(name).len() as u16 % 256) as u8);
    assert(field_len_at(bytes, 3 + rn) == nn);
    assert(str_at_end(bytes, 3 + rn) == 5 + rn + nn);
    assert(bytes.subrange(5 + rn, 5 + rn + nn) =~= encode_utf8(name));
    assert(str_at_ok(bytes, 3 + rn));
    assert(str_at(bytes, 3 + rn) == decode_utf8(encode_utf8(name)));
    assert(bytes[bytes.len() - 1] == flag);
    assert((flag != 0) == reconnect);
}

/// Decode one client frame.  The codec never fails the connection: whatever
/// cannot be understood comes back as `Invalid`.
pub fn decode_frame(buf: &Vec<u8>) -> (f: ClientFrame)
    ensures
        f@ == parse_frame(buf@),
{
    if buf.len() < 1 {
        return ClientFrame::Invalid;
    }
    let tag = buf[0];
    if tag == 0 {
        let (room, end1) = match read_str(buf, 1) {
            Some(p) => p,
            None => {
                return ClientFrame::Invalid;
            },
        };
        let (name, end2) = match read_str(buf, end1) {
            Some(p) => p,
            None => {
                return ClientFrame::Invalid;
            },
        };
        if end2 + 1 == buf.len() {
            let reconnect = buf[end2] != 0;
            ClientFrame::Join { room, name, reconnect }
        } else {
            ClientFrame::Invalid
        }
    } else if tag == 1 {
        let (key, end) = match read_str(buf, 1) {
            Some(p) => p,
            None => {
                return ClientFrame::Invalid;
            },
        };
        if end == buf.len() {
            ClientFrame::Keystroke { key }
        } else {
            ClientFrame::Invalid
        }
    } else {
        ClientFrame::Invalid
    }
}

} // verus!
