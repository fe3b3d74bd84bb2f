use vstd::prelude::*;
use vstd::slice::{slice_subrange, slice_to_vec};
use vstd::string::*;
use vstd::utf8::*;

verus! {

/// A command sent from the control handle to the dispatch loop.
#[derive(Clone, Debug, PartialEq, Eq)]
pub enum Command {
    /// Load a music file, expose its sub-tracks as sound effects, and play it.
    PlayMusic { id: i32, channel: i32, filename: String, loops: i32, start_position: i32 },
    /// Register a sound effect from bytes already in memory.
    LoadSfx { filename: String, data: Vec<u8> },
    /// Play a sound effect, chosen by filename or, when that is empty, by index.
    PlaySfx {
        id: i32,
        filename: String,
        channel: i32,
        note: u16,
        panning: i32,
        rate: i32,
        loops: i32,
    },
    /// Stop (all channels when `chan < 0`), pause or resume the music.
    MusicState { stop: bool, chan: i32, pause: bool, resume: bool },
    /// Set the output volume.
    Volume { volume: i32 },
}

/// A command with its text and bytes as sequences.
pub enum CommandView {
    PlayMusic { id: i32, channel: i32, filename: Seq<char>, loops: i32, start_position: i32 },
    LoadSfx { filename: Seq<char>, data: Seq<u8> },
    PlaySfx {
        id: i32,
        filename: Seq<char>,
        channel: i32,
        note: u16,
        panning: i32,
        rate: i32,
        loops: i32,
    },
    MusicState { stop: bool, chan: i32, pause: bool, resume: bool },
    Volume { volume: i32 },
}

impl View for Command {
    type V = CommandView;

    open spec fn view(&self) -> CommandView {
        match self {
            Command::PlayMusic { id, channel, filename, loops, start_position } =>
                CommandView::PlayMusic {
                id: *id,
                channel: *channel,
                filename: filename@,
                loops: *loops,
                start_position: *start_position,
            },
            Command::LoadSfx { filename, data } => CommandView::LoadSfx {
                filename: filename@,
                data: data@,
            },
            Command::PlaySfx { id, filename, channel, note, panning, rate, loops } =>
                CommandView::PlaySfx {
                id: *id,
                filename: filename@,
                channel: *channel,
                note: *note,
                panning: *panning,
                rate: *rate,
                loops: *loops,
            },
            Command::MusicState { stop, chan, pause, resume } => CommandView::MusicState {
                stop: *stop,
                chan: *chan,
                pause: *pause,
                resume: *resume,
            },
            Command::Volume { volume } => CommandView::Volume { volume: *volume },
        }
    }
}

/// A byte buffer that is not the encoding of any command.
#[derive(Clone, Copy, Debug, PartialEq, Eq, Structural)]
pub struct ProtocolError;

pub open spec fn le2(v: u16) -> Seq<u8> {
    seq![v as u8, (v >> 8u16) as u8]
}

pub open spec fn le4(v: u32) -> Seq<u8> {
    seq![v as u8, (v >> 8u32) as u8, (v >> 16u32) as u8, (v >> 24u32) as u8]
}

pub open spec fn le8(v: u64) -> Seq<u8> {
    seq![
        v as u8,
        (v >> 8u64) as u8,
        (v >> 16u64) as u8,
        (v >> 24u64) as u8,
        (v >> 32u64) as u8,
        (v >> 40u64) as u8,
        (v >> 48u64) as u8,
        (v >> 56u64) as u8,
    ]
}

pub open spec fn from_le2(b: Seq<u8>, p: int) -> u16 {
    (b[p] as u16) | ((b[p + 1] as u16) << 8u16)
}

pub open spec fn from_le4(b: Seq<u8>, p: int) -> u32 {
    (b[p] as u32) | ((b[p + 1] as u32) << 8u32) | ((b[p + 2] as u32) << 16u32) | ((b[p + 3] as u32)
        << 24u32)
}

pub open spec fn from_le8(b: Seq<u8>, p: int) -> u64 {
    (b[p] as u64) | ((b[p + 1] as u64) << 8u64) | ((b[p + 2] as u64) << 16u64) | ((b[p + 3] as u64)
        << 24u64) | ((b[p + 4] as u64) << 32u64) | ((b[p + 5] as u64) << 40u64) | ((b[p + 6] as u64)
        << 48u64) | ((b[p + 7] as u64) << 56u64)
}

pub open spec fn int_field(x: i32) -> Seq<u8> {
    le4(x as u32)
}

pub open spec fn flag_field(x: bool) -> Seq<u8> {
    seq![if x { 1u8 } else { 0u8 }]
}

pub open spec fn bytes_field(d: Seq<u8>) -> Seq<u8> {
    le8(d.len() as u64) + d
}

pub open spec fn text_field(s: Seq<char>) -> Seq<u8> {
    bytes_field(encode_utf8(s))
}

/// The encoding of a command: a tag byte, then each field in order. Integers
/// are little-endian two's complement; a flag is one byte, 0 or 1; bytes and
/// text (as UTF-8) carry an eight-byte length first.
pub open spec fn encoding(c: CommandView) -> Seq<u8> {
    match c {
        CommandView::PlayMusic { id, channel, filename, loops, start_position } => seq![0u8]
            + int_field(id) + int_field(channel) + text_field(filename) + int_field(loops)
            + int_field(start_position),
        CommandView::LoadSfx { filename, data } => seq![1u8] + text_field(filename) + bytes_field(
            data,
        ),
        CommandView::PlaySfx { id, filename, channel, note, panning, rate, loops } => seq![2u8]
            + int_field(id) + text_field(filename) + int_field(channel) + le2(note) + int_field(
            panning,
        ) + int_field(rate) + int_field(loops),
        CommandView::MusicState { stop, chan, pause, resume } => seq![3u8] + flag_field(stop)
            + int_field(chan) + flag_field(pause) + flag_field(resume),
        CommandView::Volume { volume } => seq![4u8] + int_field(volume),
    }
}

/// Every length in the command fits the eight-byte length prefix.
pub open spec fn encodable(c: CommandView) -> bool {
    match c {
        CommandView::PlayMusic { filename, .. } => encode_utf8(filename).len() <= u64::MAX,
        CommandView::LoadSfx { filename, data } => encode_utf8(filename).len() <= u64::MAX
            && data.len() <= u64::MAX,
        CommandView::PlaySfx { filename, .. } => encode_utf8(filename).len() <= u64::MAX,
        _ => true,
    }
}

pub open spec fn read_int(b: Seq<u8>, p: int) -> Option<(i32, int)> {
    if 0 <= p && p + 4 <= b.len() {
        Some((from_le4(b, p) as i32, p + 4))
    } else {
        None
    }
}

pub open spec fn read_u16(b: Seq<u8>, p: int) -> Option<(u16, int)> {
    if 0 <= p && p + 2 <= b.len() {
        Some((from_le2(b, p), p + 2))
    } else {
        None
    }
}

pub open spec fn read_flag(b: Seq<u8>, p: int) -> Option<(bool, int)> {
    if 0 <= p && p < b.len() && b[p] == 0 {
        Some((false, p + 1))
    } else if 0 <= p && p < b.len() && b[p] == 1 {
        Some((true, p + 1))
    } else {
        None
    }
}

pub open spec fn read_bytes(b: Seq<u8>, p: int) -> Option<(Seq<u8>, int)> {
    if 0 <= p && p + 8 <= b.len() && from_le8(b, p) <= b.len() - (p + 8) {
        let q = p + 8 + from_le8(b, p);
        Some((b.subrange(p + 8, q), q))
    } else {
        None
    }
}

pub open spec fn read_text(b: Seq<u8>, p: int) -> Option<(Seq<char>, int)> {
    match read_bytes(b, p) {
        Some((t, q)) => if valid_utf8(t) {
            Some((decode_utf8(t), q))
        } else {
            None
        },
        None => None,
    }
}

pub open spec fn decode_music(b: Seq<u8>) -> Option<CommandView> {
    match read_int(b, 1) { None => None, Some((id, pos1)) =>
    match read_int(b, pos1) { None => None, Some((channel, pos2)) =>
    match read_text(b, pos2) { None => None, Some((filename, pos3)) =>
    match read_int(b, pos3) { None => None, Some((loops, pos4)) =>
    match read_int(b, pos4) { None => None, Some((start_position, pos5)) =>
    if pos5 == b.len() {
        Some(CommandView::PlayMusic { id, channel, filename, loops, start_position })
    } else { None } } } } } }
}

pub open spec fn decode_load(b: Seq<u8>) -> Option<CommandView> {
    match read_text(b, 1) { None => None, Some((filename, pos1)) =>
    match read_bytes(b, pos1) { None => None, Some((data, pos2)) =>
    if pos2 == b.len() { Some(CommandView::LoadSfx { filename, data }) } else { None } } }
}

pub open spec fn decode_sfx(b: Seq<u8>) -> Option<CommandView> {
    match read_int(b, 1) { None => None, Some((id, pos1)) =>
    match read_text(b, pos1) { None => None, Some((filename, pos2)) =>
    match read_int(b, pos2) { None => None, Some((channel, pos3)) =>
    match read_u16(b, pos3) { None => None, Some((note, pos4)) =>
    match read_int(b, pos4) { None => None, Some((panning, pos5)) =>
    match read_int(b, pos5) { None => None, Some((rate, pos6)) =>
    match read_int(b, pos6) { None => None, Some((loops, pos7)) =>
    if pos7 == b.len() {
        Some(CommandView::PlaySfx { id, filename, channel, note, panning, rate, loops })
    } else { None } } } } } } } }
}

pub open spec fn decode_state(b: Seq<u8>) -> Option<CommandView> {
    match read_flag(b, 1) { None => None, Some((stop, pos1)) =>
    match read_int(b, pos1) { None => None, Some((chan, pos2)) =>
    match read_flag(b, pos2) { None => None, Some((pause, pos3)) =>
    match read_flag(b, pos3) { None => None, Some((resume, pos4)) =>
    if pos4 == b.len() { Some(CommandView::MusicState { stop, chan, pause, resume }) } else { None } } } } }
}

pub open spec fn decode_volume(b: Seq<u8>) -> Option<CommandView> {
    match read_int(b, 1) { None => None, Some((volume, pos1)) =>
    if pos1 == b.len() { Some(CommandView::Volume { volume }) } else { None } }
}

/// The command that `b` encodes, if any: the tag must be known, each field
/// well formed, and nothing may follow the last field.
pub open spec fn decoding(b: Seq<u8>) -> Option<CommandView> {
    if b.len() == 0 {
        None
    } else if b[0] == 0 {
        decode_music(b)
    } else if b[0] == 1 {
        decode_load(b)
    } else if b[0] == 2 {
        decode_sfx(b)
    } else if b[0] == 3 {
        decode_state(b)
    } else if b[0] == 4 {
        decode_volume(b)
    } else {
        None
    }
}

proof fn lemma_le2(v: u16)
    ensures
        from_le2(le2(v), 0) == v,
{
    let b = le2(v);
    let (b0, b1) = (b[0], b[1]);
    assert(b0 == v as u8 && b1 == (v >> 8u16) as u8);
    assert((((v as u8) as u16) | ((((v >> 8u16) as u8) as u16) << 8u16)) == v) by (bit_vector);
}

proof fn lemma_le4(v: u32)
    ensures
        from_le4(le4(v), 0) == v,
{
    let b = le4(v);
    assert(b[0] == v as u8 && b[1] == (v >> 8u32) as u8 && b[2] == (v >> 16u32) as u8 && b[3] == (v
        >> 24u32) as u8);
    assert((((v as u8) as u32) | ((((v >> 8u32) as u8) as u32) << 8u32) | ((((v >> 16u32) as u8)
        as u32) << 16u32) | ((((v >> 24u32) as u8) as u32) << 24u32)) == v) by (bit_vector);
}

proof fn lemma_le8(v: u64)
    ensures
        from_le8(le8(v), 0) == v,
{
    let b = le8(v);
    assert(b[0] == v as u8 && b[1] == (v >> 8u64) as u8 && b[2] == (v >> 16u64) as u8 && b[3] == (v
        >> 24u64) as u8 && b[4] == (v >> 32u64) as u8 && b[5] == (v >> 40u64) as u8 && b[6] == (v
        >> 48u64) as u8 && b[7] == (v >> 56u64) as u8);
    assert((((v as u8) as u64) | ((((v >> 8u64) as u8) as u64) << 8u64) | ((((v >> 16u64) as u8)
        as u64) << 16u64) | ((((v >> 24u64) as u8) as u64) << 24u64) | ((((v >> 32u64) as u8)
        as u64) << 32u64) | ((((v >> 40u64) as u8) as u64) << 40u64) | ((((v >> 48u64) as u8)
        as u64) << 48u64) | ((((v >> 56u64) as u8) as u64) << 56u64)) == v) by (bit_vector);
}

proof fn lemma_le2_inv(b: Seq<u8>, p: int)
    requires
        0 <= p,
        p + 2 <= b.len(),
    ensures
        le2(from_le2(b, p)) == b.subrange(p, p + 2),
{
    let (b0, b1) = (b[p], b[p + 1]);
    let v = from_le2(b, p);
    assert(v == ((b0 as u16) | ((b1 as u16) << 8u16)));
    assert((v as u8) == b0 && ((v >> 8u16) as u8) == b1) by (bit_vector)
        requires
            v == ((b0 as u16) | ((b1 as u16) << 8u16)),
    ;
    assert(le2(v) =~= b.subrange(p, p + 2));
}

proof fn lemma_le4_inv(b: Seq<u8>, p: int)
    requires
        0 <= p,
        p + 4 <= b.len(),
    ensures
        le4(from_le4(b, p)) == b.subrange(p, p + 4),
{
    let (b0, b1, b2, b3) = (b[p], b[p + 1], b[p + 2], b[p + 3]);
    let v = from_le4(b, p);
    assert(v == ((b0 as u32) | ((b1 as u32) << 8u32) | ((b2 as u32) << 16u32) | ((b3 as u32)
        << 24u32)));
    assert((v as u8) == b0 && ((v >> 8u32) as u8) == b1 && ((v >> 16u32) as u8) == b2 && ((v
        >> 24u32) as u8) == b3) by (bit_vector)
        requires
            v == ((b0 as u32) | ((b1 as u32) << 8u32) | ((b2 as u32) << 16u32) | ((b3 as u32)
                << 24u32)),
    ;
    assert(le4(v) =~= b.subrange(p, p + 4));
}

proof fn lemma_le8_inv(b: Seq<u8>, p: int)
    requires
        0 <= p,
        p + 8 <= b.len(),
    ensures
        le8(from_le8(b, p)) == b.subrange(p, p + 8),
{
    let (b0, b1, b2, b3, b4, b5, b6, b7) = (
        b[p],
        b[p + 1],
        b[p + 2],
        b[p + 3],
        b[p + 4],
        b[p + 5],
        b[p + 6],
        b[p + 7],
    );
    let v = from_le8(b, p);
    assert(v == ((b0 as u64) | ((b1 as u64) << 8u64) | ((b2 as u64) << 16u64) | ((b3 as u64)
        << 24u64) | ((b4 as u64) << 32u64) | ((b5 as u64) << 40u64) | ((b6 as u64) << 48u64) | ((
    b7 as u64) << 56u64)));
    assert((v as u8) == b0 && ((v >> 8u64) as u8) == b1 && ((v >> 16u64) as u8) == b2 && ((v
        >> 24u64) as u8) == b3 && ((v >> 32u64) as u8) == b4 && ((v >> 40u64) as u8) == b5 && ((v
        >> 48u64) as u8) == b6 && ((v >> 56u64) as u8) == b7) by (bit_vector)
        requires
            v == ((b0 as u64) | ((b1 as u64) << 8u64) | ((b2 as u64) << 16u64) | ((b3 as u64)
                << 24u64) | ((b4 as u64) << 32u64) | ((b5 as u64) << 40u64) | ((b6 as u64)
                << 48u64) | ((b7 as u64) << 56u64)),
    ;
    assert(le8(v) =~= b.subrange(p, p + 8));
}

proof fn lemma_i32_u32(x: i32, u: u32)
    ensures
        (x as u32) as i32 == x,
        (u as i32) as u32 == u,
{
    assert((x as u32) as i32 == x) by (bit_vector);
    assert((u as i32) as u32 == u) by (bit_vector);
}

/// Reading a field where its encoding stands gives its value back.
proof fn lemma_read_int(b: Seq<u8>, p: int, x: i32)
    requires
        0 <= p,
        p + 4 <= b.len(),
        b.subrange(p, p + 4) == int_field(x),
    ensures
        read_int(b, p) == Some((x, p + 4)),
{
    lemma_le4(x as u32);
    lemma_i32_u32(x, 0);
    assert(from_le4(b, p) == from_le4(int_field(x), 0)) by {
        assert(b[p] == b.subrange(p, p + 4)[0]);
        assert(b[p + 1] == b.subrange(p, p + 4)[1]);
        assert(b[p + 2] == b.subrange(p, p + 4)[2]);
        assert(b[p + 3] == b.subrange(p, p + 4)[3]);
    }
}

proof fn lemma_read_u16(b: Seq<u8>, p: int, x: u16)
    requires
        0 <= p,
        p + 2 <= b.len(),
        b.subrange(p, p + 2) == le2(x),
    ensures
        read_u16(b, p) == Some((x, p + 2)),
{
    lemma_le2(x);
    assert(from_le2(b, p) == from_le2(le2(x), 0)) by {
        assert(b[p] == b.subrange(p, p + 2)[0]);
        assert(b[p + 1] == b.subrange(p, p + 2)[1]);
    }
}

proof fn lemma_read_flag(b: Seq<u8>, p: int, x: bool)
    requires
        0 <= p,
        p + 1 <= b.len(),
        b.subrange(p, p + 1) == flag_field(x),
    ensures
        read_flag(b, p) == Some((x, p + 1)),
{
    assert(b[p] == b.subrange(p, p + 1)[0]);
}

proof fn lemma_read_bytes(b: Seq<u8>, p: int, d: Seq<u8>)
    requires
        0 <= p,
        p + 8 + d.len() <= b.len(),
        d.len() <= u64::MAX,
        b.subrange(p, p + 8 + d.len()) == bytes_field(d),
    ensures
        read_bytes(b, p) == Some((d, p + 8 + d.len())),
{
    let f = bytes_field(d);
    lemma_le8(d.len() as u64);
    assert(from_le8(b, p) == from_le8(le8(d.len() as u64), 0)) by {
        assert forall|k: int| 0 <= k < 8 implies b[p + k] == #[trigger] le8(d.len() as u64)[k] by {
            assert(b[p + k] == f[k]);
        }
    }
    assert(b.subrange(p + 8, p + 8 + d.len()) =~= d) by {
        assert forall|k: int| 0 <= k < d.len() implies b.subrange(p + 8, p + 8 + d.len())[k]
            == d[k] by {
            assert(b[p + 8 + k] == f[8 + k]);
        }
    }
}

proof fn lemma_read_text(b: Seq<u8>, p: int, s: Seq<char>)
    requires
        0 <= p,
        p + 8 + encode_utf8(s).len() <= b.len(),
        encode_utf8(s).len() <= u64::MAX,
        b.subrange(p, p + 8 + encode_utf8(s).len()) == text_field(s),
    ensures
        read_text(b, p) == Some((s, p + 8 + encode_utf8(s).len())),
{
    lemma_read_bytes(b, p, encode_utf8(s));
    encode_utf8_valid_utf8(s);
    encode_utf8_decode_utf8(s);
}

/// What a successful read consumed is the encoding of what it read.
proof fn lemma_read_int_inv(b: Seq<u8>, p: int)
    requires
        read_int(b, p) is Some,
    ensures
        ({
            let (x, q) = read_int(b, p)->Some_0;
            q == p + 4 && b.subrange(p, q) == int_field(x)
        }),
{
    lemma_le4_inv(b, p);
    lemma_i32_u32(0, from_le4(b, p));
}

proof fn lemma_read_u16_inv(b: Seq<u8>, p: int)
    requires
        read_u16(b, p) is Some,
    ensures
        ({
            let (x, q) = read_u16(b, p)->Some_0;
            q == p + 2 && b.subrange(p, q) == le2(x)
        }),
{
    lemma_le2_inv(b, p);
}

proof fn lemma_read_flag_inv(b: Seq<u8>, p: int)
    requires
        read_flag(b, p) is Some,
    ensures
        ({
            let (x, q) = read_flag(b, p)->Some_0;
            q == p + 1 && b.subrange(p, q) == flag_field(x)
        }),
{
    let (x, q) = read_flag(b, p)->Some_0;
    assert(b.subrange(p, q) =~= flag_field(x));
}

proof fn lemma_read_bytes_inv(b: Seq<u8>, p: int)
    requires
        read_bytes(b, p) is Some,
    ensures
        ({
            let (d, q) = read_bytes(b, p)->Some_0;
            q == p + 8 + d.len() && b.subrange(p, q) == bytes_field(d) && d.len() <= u64::MAX
        }),
{
    let (d, q) = read_bytes(b, p)->Some_0;
    lemma_le8_inv(b, p);
    assert(d.len() as u64 == from_le8(b, p));
    assert(b.subrange(p, q) =~= bytes_field(d));
}

proof fn lemma_read_text_inv(b: Seq<u8>, p: int)
    requires
        read_text(b, p) is Some,
    ensures
        ({
            let (s, q) = read_text(b, p)->Some_0;
            q == p + 8 + encode_utf8(s).len() && b.subrange(p, q) == text_field(s)
                && encode_utf8(s).len() <= u64::MAX
        }),
{
    lemma_read_bytes_inv(b, p);
    let (t, q) = read_bytes(b, p)->Some_0;
    decode_utf8_encode_utf8(t);
}

#[verifier::rlimit(50)]
proof fn lemma_round_trip_music(
    id: i32,
    channel: i32,
    filename: Seq<char>,
    loops: i32,
    start_position: i32,
)
    requires
        encode_utf8(filename).len() <= u64::MAX,
    ensures
        ({
            let c = CommandView::PlayMusic { id, channel, filename, loops, start_position };
            decoding(encoding(c)) == Some(c)
        }),
{
    let b = encoding(CommandView::PlayMusic { id, channel, filename, loops, start_position });
    let n: int = encode_utf8(filename).len() as int;
    assert(b.subrange(1, 5) =~= int_field(id));
    lemma_read_int(b, 1, id);
    assert(b.subrange(5, 9) =~= int_field(channel));
    lemma_read_int(b, 5, channel);
    assert(b.subrange(9, 17 + n) =~= text_field(filename));
    lemma_read_text(b, 9, filename);
    assert(b.subrange(17 + n, 21 + n) =~= int_field(loops));
    lemma_read_int(b, 17 + n, loops);
    assert(b.subrange(21 + n, 25 + n) =~= int_field(start_position));
    lemma_read_int(b, 21 + n, start_position);
}

#[verifier::rlimit(50)]
proof fn lemma_round_trip_load(filename: Seq<char>, data: Seq<u8>)
    requires
        encode_utf8(filename).len() <= u64::MAX,
        data.len() <= u64::MAX,
    ensures
        ({
            let c = CommandView::LoadSfx { filename, data };
            decoding(encoding(c)) == Some(c)
        }),
{
    let b = encoding(CommandView::LoadSfx { filename, data });
    let n: int = encode_utf8(filename).len() as int;
    assert(b.subrange(1, 9 + n) =~= text_field(filename));
    lemma_read_text(b, 1, filename);
    assert(b.subrange(9 + n, 17 + n + data.len() as int) =~= bytes_field(data));
    lemma_read_bytes(b, 9 + n, data);
}

#[verifier::rlimit(50)]
proof fn lemma_round_trip_sfx(
    id: i32,
    filename: Seq<char>,
    channel: i32,
    note: u16,
    panning: i32,
    rate: i32,
    loops: i32,
)
    requires
        encode_utf8(filename).len() <= u64::MAX,
    ensures
        ({
            let c = CommandView::PlaySfx { id, filename, channel, note, panning, rate, loops };
            decoding(encoding(c)) == Some(c)
        }),
{
    let b = encoding(CommandView::PlaySfx { id, filename, channel, note, panning, rate, loops });
    let n: int = encode_utf8(filename).len() as int;
    assert(b.subrange(1, 5) =~= int_field(id));
    lemma_read_int(b, 1, id);
    assert(b.subrange(5, 13 + n) =~= text_field(filename));
    lemma_read_text(b, 5, filename);
    assert(b.subrange(13 + n, 17 + n) =~= int_field(channel));
    lemma_read_int(b, 13 + n, channel);
    assert(b.subrange(17 + n, 19 + n) =~= le2(note));
    lemma_read_u16(b, 17 + n, note);
    assert(b.subrange(19 + n, 23 + n) =~= int_field(panning));
    lemma_read_int(b, 19 + n, panning);
    assert(b.subrange(23 + n, 27 + n) =~= int_field(rate));
    lemma_read_int(b, 23 + n, rate);
    assert(b.subrange(27 + n, 31 + n) =~= int_field(loops));
    lemma_read_int(b, 27 + n, loops);
}

#[verifier::rlimit(50)]
proof fn lemma_round_trip_state(stop: bool, chan: i32, pause: bool, resume: bool)
    ensures
        ({
            let c = CommandView::MusicState { stop, chan, pause, resume };
            decoding(encoding(c)) == Some(c)
        }),
{
    let b = encoding(CommandView::MusicState { stop, chan, pause, resume });
    assert(b.subrange(1, 2) =~= flag_field(stop));
    lemma_read_flag(b, 1, stop);
    assert(b.subrange(2, 6) =~= int_field(chan));
    lemma_read_int(b, 2, chan);
    assert(b.subrange(6, 7) =~= flag_field(pause));
    lemma_read_flag(b, 6, pause);
    assert(b.subrange(7, 8) =~= flag_field(resume));
    lemma_read_flag(b, 7, resume);
}

#[verifier::rlimit(50)]
proof fn lemma_round_trip_volume(volume: i32)
    ensures
        ({
            let c = CommandView::Volume { volume };
            decoding(encoding(c)) == Some(c)
        }),
{
    let b = encoding(CommandView::Volume { volume });
    assert(b.subrange(1, 5) =~= int_field(volume));
    lemma_read_int(b, 1, volume);
}

/// Decoding the encoding of a command gives that command back.
pub proof fn lemma_decode_encode(c: CommandView)
    requires
        encodable(c),
    ensures
        decoding(encoding(c)) == Some(c),
{
    match c {
        CommandView::PlayMusic { id, channel, filename, loops, start_position } => {
            lemma_round_trip_music(id, channel, filename, loops, start_position);
        },
        CommandView::LoadSfx { filename, data } => lemma_round_trip_load(filename, data),
        CommandView::PlaySfx { id, filename, channel, note, panning, rate, loops } => {
            lemma_round_trip_sfx(id, filename, channel, note, panning, rate, loops);
        },
        CommandView::MusicState { stop, chan, pause, resume } => {
            lemma_round_trip_state(stop, chan, pause, resume);
        },
        CommandView::Volume { volume } => lemma_round_trip_volume(volume),
    }
}

proof fn lemma_split(b: Seq<u8>, i: int, j: int, k: int)
    requires
        0 <= i <= j <= k <= b.len(),
    ensures
        b.subrange(i, k) == b.subrange(i, j) + b.subrange(j, k),
{
    assert(b.subrange(i, k) =~= b.subrange(i, j) + b.subrange(j, k));
}

proof fn lemma_encode_decode_music(b: Seq<u8>)
    requires
        b.len() > 0,
        b[0] == 0,
        decode_music(b) is Some,
    ensures
        encoding(decode_music(b)->Some_0) == b,
        encodable(decode_music(b)->Some_0),
{
    let c = decode_music(b)->Some_0;
    let pos0: int = 1;
    assert(b.subrange(0, 1) =~= seq![0u8]);
    lemma_read_int_inv(b, pos0);
    let (x0, pos1) = read_int(b, pos0)->Some_0;
    lemma_split(b, 0, pos0, pos1);
    assert(b.subrange(0, pos1) == seq![0u8] + int_field(x0));
    lemma_read_int_inv(b, pos1);
    let (x1, pos2) = read_int(b, pos1)->Some_0;
    lemma_split(b, 0, pos1, pos2);
    assert(b.subrange(0, pos2) == seq![0u8] + int_field(x0) + int_field(x1));
    lemma_read_text_inv(b, pos2);
    let (x2, pos3) = read_text(b, pos2)->Some_0;
    lemma_split(b, 0, pos2, pos3);
    assert(b.subrange(0, pos3) == seq![0u8] + int_field(x0) + int_field(x1) + text_field(x2));
    lemma_read_int_inv(b, pos3);
    let (x3, pos4) = read_int(b, pos3)->Some_0;
    lemma_split(b, 0, pos3, pos4);
    assert(b.subrange(0, pos4) == seq![0u8]
        + int_field(x0)
        + int_field(x1)
        + text_field(x2)
        + int_field(x3));
    lemma_read_int_inv(b, pos4);
    let (x4, pos5) = read_int(b, pos4)->Some_0;
    lemma_split(b, 0, pos4, pos5);
    assert(b.subrange(0, pos5) == seq![0u8]
        + int_field(x0)
        + int_field(x1)
        + text_field(x2)
        + int_field(x3)
        + int_field(x4));
    assert(b.subrange(0, b.len() as int) =~= b);
}

proof fn lemma_encode_decode_load(b: Seq<u8>)
    requires
        b.len() > 0,
        b[0] == 1,
        decode_load(b) is Some,
    ensures
        encoding(decode_load(b)->Some_0) == b,
        encodable(decode_load(b)->Some_0),
{
    let c = decode_load(b)->Some_0;
    let pos0: int = 1;
    assert(b.subrange(0, 1) =~= seq![1u8]);
    lemma_read_text_inv(b, pos0);
    let (x0, pos1) = read_text(b, pos0)->Some_0;
    lemma_split(b, 0, pos0, pos1);
    assert(b.subrange(0, pos1) == seq![1u8] + text_field(x0));
    lemma_read_bytes_inv(b, pos1);
    let (x1, pos2) = read_bytes(b, pos1)->Some_0;
    lemma_split(b, 0, pos1, pos2);
    assert(b.subrange(0, pos2) == seq![1u8] + text_field(x0) + bytes_field(x1));
    assert(b.subrange(0, b.len() as int) =~= b);
}

#[verifier::rlimit(100)]
proof fn lemma_encode_decode_sfx(b: Seq<u8>)
    requires
        b.len() > 0,
        b[0] == 2,
        decode_sfx(b) is Some,
    ensures
        encoding(decode_sfx(b)->Some_0) == b,
        encodable(decode_sfx(b)->Some_0),
{
    let c = decode_sfx(b)->Some_0;
    let pos0: int = 1;
    assert(b.subrange(0, 1) =~= seq![2u8]);
    lemma_read_int_inv(b, pos0);
    let (x0, pos1) = read_int(b, pos0)->Some_0;
    lemma_split(b, 0, pos0, pos1);
    assert(b.subrange(0, pos1) == seq![2u8] + int_field(x0));
    lemma_read_text_inv(b, pos1);
    let (x1, pos2) = read_text(b, pos1)->Some_0;
    lemma_split(b, 0, pos1, pos2);
    assert(b.subrange(0, pos2) == seq![2u8] + int_field(x0) + text_field(x1));
    lemma_read_int_inv(b, pos2);
    let (x2, pos3) = read_int(b, pos2)->Some_0;
    lemma_split(b, 0, pos2, pos3);
    assert(b.subrange(0, pos3) == seq![2u8] + int_field(x0) + text_field(x1) + int_field(x2));
    lemma_read_u16_inv(b, pos3);
    let (x3, pos4) = read_u16(b, pos3)->Some_0;
    lemma_split(b, 0, pos3, pos4);
    assert(b.subrange(0, pos4) == seq![2u8]
        + int_field(x0)
        + text_field(x1)
        + int_field(x2)
        + le2(x3));
    lemma_read_int_inv(b, pos4);
    let (x4, pos5) = read_int(b, pos4)->Some_0;
    lemma_split(b, 0, pos4, pos5);
    assert(b.subrange(0, pos5) == seq![2u8]
        + int_field(x0)
        + text_field(x1)
        + int_field(x2)
        + le2(x3)
        + int_field(x4));
    lemma_read_int_inv(b, pos5);
    let (x5, pos6) = read_int(b, pos5)->Some_0;
    lemma_split(b, 0, pos5, pos6);
    assert(b.subrange(0, pos6) == seq![2u8]
        + int_field(x0)
        + text_field(x1)
        + int_field(x2)
        + le2(x3)
        + int_field(x4)
        + int_field(x5));
    lemma_read_int_inv(b, pos6);
    let (x6, pos7) = read_int(b, pos6)->Some_0;
    lemma_split(b, 0, pos6, pos7);
    assert(b.subrange(0, pos7) == seq![2u8]
        + int_field(x0)
        + text_field(x1)
        + int_field(x2)
        + le2(x3)
        + int_field(x4)
        + int_field(x5)
        + int_field(x6));
    assert(b.subrange(0, b.len() as int) =~= b);
}

proof fn lemma_encode_decode_state(b: Seq<u8>)
    requires
        b.len() > 0,
        b[0] == 3,
        decode_state(b) is Some,
    ensures
        encoding(decode_state(b)->Some_0) == b,
        encodable(decode_state(b)->Some_0),
{
    let c = decode_state(b)->Some_0;
    let pos0: int = 1;
    assert(b.subrange(0, 1) =~= seq![3u8]);
    lemma_read_flag_inv(b, pos0);
    let (x0, pos1) = read_flag(b, pos0)->Some_0;
    lemma_split(b, 0, pos0, pos1);
    assert(b.subrange(0, pos1) == seq![3u8] + flag_field(x0));
    lemma_read_int_inv(b, pos1);
    let (x1, pos2) = read_int(b, pos1)->Some_0;
    lemma_split(b, 0, pos1, pos2);
    assert(b.subrange(0, pos2) == seq![3u8] + flag_field(x0) + int_field(x1));
    lemma_read_flag_inv(b, pos2);
    let (x2, pos3) = read_flag(b, pos2)->Some_0;
    lemma_split(b, 0, pos2, pos3);
    assert(b.subrange(0, pos3) == seq![3u8] + flag_field(x0) + int_field(x1) + flag_field(x2));
    lemma_read_flag_inv(b, pos3);
    let (x3, pos4) = read_flag(b, pos3)->Some_0;
    lemma_split(b, 0, pos3, pos4);
    assert(b.subrange(0, pos4) == seq![3u8]
        + flag_field(x0)
        + int_field(x1)
        + flag_field(x2)
        + flag_field(x3));
    assert(b.subrange(0, b.len() as int) =~= b);
}

proof fn lemma_encode_decode_volume(b: Seq<u8>)
    requires
        b.len() > 0,
        b[0] == 4,
        decode_volume(b) is Some,
    ensures
        encoding(decode_volume(b)->Some_0) == b,
        encodable(decode_volume(b)->Some_0),
{
    let c = decode_volume(b)->Some_0;
    let pos0: int = 1;
    assert(b.subrange(0, 1) =~= seq![4u8]);
    lemma_read_int_inv(b, pos0);
    let (x0, pos1) = read_int(b, pos0)->Some_0;
    lemma_split(b, 0, pos0, pos1);
    assert(b.subrange(0, pos1) == seq![4u8] + int_field(x0));
    assert(b.subrange(0, b.len() as int) =~= b);
}

/// Bytes that decode to a command are exactly that command's encoding; so
/// decoding fails on every buffer that encodes no command.
pub proof fn lemma_encode_decode(b: Seq<u8>)
    requires
        decoding(b) is Some,
    ensures
        encoding(decoding(b)->Some_0) == b,
        encodable(decoding(b)->Some_0),
{
    if b[0] == 0 {
        lemma_encode_decode_music(b);
    } else if b[0] == 1 {
        lemma_encode_decode_load(b);
    } else if b[0] == 2 {
        lemma_encode_decode_sfx(b);
    } else if b[0] == 3 {
        lemma_encode_decode_state(b);
    } else {
        lemma_encode_decode_volume(b);
    }
}

/// Relies on `String::from_utf8`: it succeeds exactly on valid UTF-8, and the
/// string then holds the characters those bytes encode.
#[verifier::external_body]
fn string_from_utf8(bytes: Vec<u8>) -> (r: Option<String>)
    ensures
        r is Some <==> valid_utf8(bytes@),
        r matches Some(s) ==> s@ == decode_utf8(bytes@),
{
    String::from_utf8(bytes).ok()
}

pub open spec fn same_read<T>(r: Option<(T, usize)>, s: Option<(T, int)>) -> bool {
    match r {
        Some((x, q)) => s == Some((x, q as int)),
        None => s is None,
    }
}

fn push_int(out: &mut Vec<u8>, x: i32)
    ensures
        final(out)@ == old(out)@ + int_field(x),
{
    let v = x as u32;
    out.push(v as u8);
    out.push((v >> 8u32) as u8);
    out.push((v >> 16u32) as u8);
    out.push((v >> 24u32) as u8);
    assert(out@ =~= old(out)@ + int_field(x));
}

fn push_u16(out: &mut Vec<u8>, v: u16)
    ensures
        final(out)@ == old(out)@ + le2(v),
{
    out.push(v as u8);
    out.push((v >> 8u16) as u8);
    assert(out@ =~= old(out)@ + le2(v));
}

fn push_flag(out: &mut Vec<u8>, x: bool)
    ensures
        final(out)@ == old(out)@ + flag_field(x),
{
    out.push(if x { 1u8 } else { 0u8 });
    assert(out@ =~= old(out)@ + flag_field(x));
}

fn push_bytes(out: &mut Vec<u8>, d: &[u8])
    ensures
        final(out)@ == old(out)@ + bytes_field(d@),
        d@.len() <= u64::MAX,
{
    let v = d.len() as u64;
    out.push(v as u8);
    out.push((v >> 8u64) as u8);
    out.push((v >> 16u64) as u8);
    out.push((v >> 24u64) as u8);
    out.push((v >> 32u64) as u8);
    out.push((v >> 40u64) as u8);
    out.push((v >> 48u64) as u8);
    out.push((v >> 56u64) as u8);
    let ghost head = old(out)@ + le8(v);
    assert(out@ =~= head);
    let mut i: usize = 0;
    while i < d.len()
        invariant
            i <= d@.len(),
            out@ == head + d@.subrange(0, i as int),
        decreases d@.len() - i,
    {
        out.push(d[i]);
        i = i + 1;
        assert(out@ =~= head + d@.subrange(0, i as int));
    }
    assert(d@.subrange(0, d@.len() as int) =~= d@);
    assert(out@ =~= old(out)@ + bytes_field(d@));
}

fn push_text(out: &mut Vec<u8>, s: &String)
    ensures
        final(out)@ == old(out)@ + text_field(s@),
        encode_utf8(s@).len() <= u64::MAX,
{
    let bytes = s.as_str().as_bytes();
    push_bytes(out, bytes);
}

/// The bytes that carry `cmd` over the channel.
pub fn encode(cmd: &Command) -> (r: Vec<u8>)
    ensures
        r@ == encoding(cmd@),
        encodable(cmd@),
{
    let mut out: Vec<u8> = Vec::new();
    match cmd {
        Command::PlayMusic { id, channel, filename, loops, start_position } => {
            out.push(0u8);
            push_int(&mut out, *id);
            push_int(&mut out, *channel);
            push_text(&mut out, filename);
            push_int(&mut out, *loops);
            push_int(&mut out, *start_position);
        },
        Command::LoadSfx { filename, data } => {
            out.push(1u8);
            push_text(&mut out, filename);
            push_bytes(&mut out, data.as_slice());
        },
        Command::PlaySfx { id, filename, channel, note, panning, rate, loops } => {
            out.push(2u8);
            push_int(&mut out, *id);
            push_text(&mut out, filename);
            push_int(&mut out, *channel);
            push_u16(&mut out, *note);
            push_int(&mut out, *panning);
            push_int(&mut out, *rate);
            push_int(&mut out, *loops);
        },
        Command::MusicState { stop, chan, pause, resume } => {
            out.push(3u8);
            push_flag(&mut out, *stop);
            push_int(&mut out, *chan);
            push_flag(&mut out, *pause);
            push_flag(&mut out, *resume);
        },
        Command::Volume { volume } => {
            out.push(4u8);
            push_int(&mut out, *volume);
        },
    }
    assert(out@ =~= encoding(cmd@));
    out
}

fn get_int(b: &[u8], p: usize) -> (r: Option<(i32, usize)>)
    ensures
        same_read(r, read_int(b@, p as int)),
{
    if p <= b.len() && b.len() - p >= 4 {
        let v: u32 = (b[p] as u32) | ((b[p + 1] as u32) << 8u32) | ((b[p + 2] as u32) << 16u32)
            | ((b[p + 3] as u32) << 24u32);
        Some((v as i32, p + 4))
    } else {
        None
    }
}

fn get_u16(b: &[u8], p: usize) -> (r: Option<(u16, usize)>)
    ensures
        same_read(r, read_u16(b@, p as int)),
{
    if p <= b.len() && b.len() - p >= 2 {
        let v: u16 = (b[p] as u16) | ((b[p + 1] as u16) << 8u16);
        Some((v, p + 2))
    } else {
        None
    }
}

fn get_flag(b: &[u8], p: usize) -> (r: Option<(bool, usize)>)
    ensures
        same_read(r, read_flag(b@, p as int)),
{
    if p < b.len() && b[p] == 0 {
        Some((false, p + 1))
    } else if p < b.len() && b[p] == 1 {
        Some((true, p + 1))
    } else {
        None
    }
}

fn get_bytes(b: &[u8], p: usize) -> (r: Option<(Vec<u8>, usize)>)
    ensures
        match r {
            Some((d, q)) => read_bytes(b@, p as int) == Some((d@, q as int)),
            None => read_bytes(b@, p as int) is None,
        },
{
    if p <= b.len() && b.len() - p >= 8 {
        let n: u64 = (b[p] as u64) | ((b[p + 1] as u64) << 8u64) | ((b[p + 2] as u64) << 16u64)
            | ((b[p + 3] as u64) << 24u64) | ((b[p + 4] as u64) << 32u64) | ((b[p + 5] as u64)
            << 40u64) | ((b[p + 6] as u64) << 48u64) | ((b[p + 7] as u64) << 56u64);
        let start = p + 8;
        if n <= (b.len() - start) as u64 {
            let end = start + n as usize;
            let d = slice_to_vec(slice_subrange(b, start, end));
            Some((d, end))
        } else {
            None
        }
    } else {
        None
    }
}

fn get_text(b: &[u8], p: usize) -> (r: Option<(String, usize)>)
    ensures
        match r {
            Some((s, q)) => read_text(b@, p as int) == Some((s@, q as int)),
            None => read_text(b@, p as int) is None,
        },
{
    match get_bytes(b, p) {
        Some((d, q)) => match string_from_utf8(d) {
            Some(s) => Some((s, q)),
            None => None,
        },
        None => None,
    }
}

fn get_music(b: &[u8]) -> (r: Option<Command>)
    requires
        b@.len() > 0,
    ensures
        match r {
            Some(c) => decode_music(b@) == Some(c@),
            None => decode_music(b@) is None,
        },
{
    let pos0: usize = 1;
    let (id, pos1) = match get_int(b, pos0) {
        Some(x) => x,
        None => return None,
    };
    let (channel, pos2) = match get_int(b, pos1) {
        Some(x) => x,
        None => return None,
    };
    let (filename, pos3) = match get_text(b, pos2) {
        Some(x) => x,
        None => return None,
    };
    let (loops, pos4) = match get_int(b, pos3) {
        Some(x) => x,
        None => return None,
    };
    let (start_position, pos5) = match get_int(b, pos4) {
        Some(x) => x,
        None => return None,
    };
    if pos5 == b.len() {
        Some(Command::PlayMusic { id, channel, filename, loops, start_position })
    } else {
        None
    }
}

fn get_load(b: &[u8]) -> (r: Option<Command>)
    requires
        b@.len() > 0,
    ensures
        match r {
            Some(c) => decode_load(b@) == Some(c@),
            None => decode_load(b@) is None,
        },
{
    let pos0: usize = 1;
    let (filename, pos1) = match get_text(b, pos0) {
        Some(x) => x,
        None => return None,
    };
    let (data, pos2) = match get_bytes(b, pos1) {
        Some(x) => x,
        None => return None,
    };
    if pos2 == b.len() {
        Some(Command::LoadSfx { filename, data })
    } else {
        None
    }
}

fn get_sfx(b: &[u8]) -> (r: Option<Command>)
    requires
        b@.len() > 0,
    ensures
        match r {
            Some(c) => decode_sfx(b@) == Some(c@),
            None => decode_sfx(b@) is None,
        },
{
    let pos0: usize = 1;
    let (id, pos1) = match get_int(b, pos0) {
        Some(x) => x,
        None => return None,
    };
    let (filename, pos2) = match get_text(b, pos1) {
        Some(x) => x,
        None => return None,
    };
    let (channel, pos3) = match get_int(b, pos2) {
        Some(x) => x,
        None => return None,
    };
    let (note, pos4) = match get_u16(b, pos3) {
        Some(x) => x,
        None => return None,
    };
    let (panning, pos5) = match get_int(b, pos4) {
        Some(x) => x,
        None => return None,
    };
    let (rate, pos6) = match get_int(b, pos5) {
        Some(x) => x,
        None => return None,
    };
    let (loops, pos7) = match get_int(b, pos6) {
        Some(x) => x,
        None => return None,
    };
    if pos7 == b.len() {
        Some(Command::PlaySfx { id, filename, channel, note, panning, rate, loops })
    } else {
        None
    }
}

fn get_state(b: &[u8]) -> (r: Option<Command>)
    requires
        b@.len() > 0,
    ensures
        match r {
            Some(c) => decode_state(b@) == Some(c@),
            None => decode_state(b@) is None,
        },
{
    let pos0: usize = 1;
    let (stop, pos1) = match get_flag(b, pos0) {
        Some(x) => x,
        None => return None,
    };
    let (chan, pos2) = match get_int(b, pos1) {
        Some(x) => x,
        None => return None,
    };
    let (pause, pos3) = match get_flag(b, pos2) {
        Some(x) => x,
        None => return None,
    };
    let (resume, pos4) = match get_flag(b, pos3) {
        Some(x) => x,
        None => return None,
    };
    if pos4 == b.len() {
        Some(Command::MusicState { stop, chan, pause, resume })
    } else {
        None
    }
}

fn get_volume(b: &[u8]) -> (r: Option<Command>)
    requires
        b@.len() > 0,
    ensures
        match r {
            Some(c) => decode_volume(b@) == Some(c@),
            None => decode_volume(b@) is None,
        },
{
    let pos0: usize = 1;
    let (volume, pos1) = match get_int(b, pos0) {
        Some(x) => x,
        None => return None,
    };
    if pos1 == b.len() {
        Some(Command::Volume { volume })
    } else {
        None
    }
}

/// The command that `b` encodes; `ProtocolError` when `b` is the encoding of
/// no command.
pub fn decode(b: &[u8]) -> (r: Result<Command, ProtocolError>)
    ensures
        match r {
            Ok(c) => decoding(b@) == Some(c@) && encoding(c@) == b@,
            Err(_) => decoding(b@) is None && forall|c: CommandView| encoding(c) != b@,
        },
{
    let r = if b.len() == 0 {
        None
    } else if b[0] == 0 {
        get_music(b)
    } else if b[0] == 1 {
        get_load(b)
    } else if b[0] == 2 {
        get_sfx(b)
    } else if b[0] == 3 {
        get_state(b)
    } else if b[0] == 4 {
        get_volume(b)
    } else {
        None
    };
    match r {
        Some(c) => {
            proof {
                lemma_encode_decode(b@);
            }
            Ok(c)
        },
        None => {
            proof {
                assert forall|c: CommandView| encoding(c) != b@ by {
                    if encoding(c) == b@ && encodable(c) {
                        lemma_decode_encode(c);
                    }
                }
            }
            Err(ProtocolError)
        },
    }
}

} // verus!
