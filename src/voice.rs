//! The plaintext voice frame: a header byte (codec kind in the high three
//! bits, target id in the low five), the sender's session id on frames the
//! server sends, a sequence number, the codec payload, and an optional
//! 12-byte positional-audio trailer. The payload is one Opus frame, or for
//! CELT and Speex a list of frames each behind a 1-byte header whose top bit
//! says that another frame follows. Ping frames carry a timestamp alone.

use vstd::prelude::*;
use crate::varint::{varint_bytes, parse_varint, encode_varint, decode_varint, lemma_varint_round_trip};

verus! {

/// Codec kind of a CELT alpha frame.
pub const KIND_CELT_ALPHA: u8 = 0;
/// Codec kind of a ping frame.
pub const KIND_PING: u8 = 1;
/// Codec kind of a Speex frame.
pub const KIND_SPEEX: u8 = 2;
/// Codec kind of a CELT beta frame.
pub const KIND_CELT_BETA: u8 = 3;
/// Codec kind of an Opus frame.
pub const KIND_OPUS: u8 = 4;
/// Flag in the Opus length field that marks the last frame of a burst.
pub const OPUS_TERMINATOR: u64 = 0x2000;
/// Flag in a CELT or Speex frame header: another frame follows.
pub const FRAME_CONTINUES: u8 = 0x80;
/// Length of the positional-audio trailer: three 32-bit floats.
pub const POSITION_LEN: usize = 12;

/// A decoded voice frame.
pub enum VoicePacket {
    Ping { timestamp: i64 },
    Audio {
        target: u8,
        session_id: Option<u32>,
        seq_num: i64,
        opus: Vec<u8>,
        terminator: bool,
        position_info: Option<Vec<u8>>,
    },
    /// CELT alpha, Speex or CELT beta frames, by codec kind.
    Frames {
        kind: u8,
        target: u8,
        session_id: Option<u32>,
        seq_num: i64,
        frames: Vec<Vec<u8>>,
        position_info: Option<Vec<u8>>,
    },
}

/// What a voice frame holds, as mathematical values.
pub enum VoiceModel {
    Ping(int),
    Audio {
        target: u8,
        session_id: Option<u32>,
        seq_num: int,
        opus: Seq<u8>,
        terminator: bool,
        position_info: Option<Seq<u8>>,
    },
    Frames {
        kind: u8,
        target: u8,
        session_id: Option<u32>,
        seq_num: int,
        frames: Seq<Seq<u8>>,
        position_info: Option<Seq<u8>>,
    },
}

/// The contents of a list of byte vectors.
pub open spec fn deep(v: Seq<Vec<u8>>) -> Seq<Seq<u8>> {
    v.map_values(|f: Vec<u8>| f@)
}

pub open spec fn opt_view(p: Option<Vec<u8>>) -> Option<Seq<u8>> {
    match p {
        Some(q) => Some(q@),
        None => None,
    }
}

impl View for VoicePacket {
    type V = VoiceModel;

    open spec fn view(&self) -> VoiceModel {
        match self {
            VoicePacket::Ping { timestamp } => VoiceModel::Ping(*timestamp as int),
            VoicePacket::Audio { target, session_id, seq_num, opus, terminator, position_info } => VoiceModel::Audio {
                target: *target,
                session_id: *session_id,
                seq_num: *seq_num as int,
                opus: opus@,
                terminator: *terminator,
                position_info: opt_view(*position_info),
            },
            VoicePacket::Frames { kind, target, session_id, seq_num, frames, position_info } => VoiceModel::Frames {
                kind: *kind,
                target: *target,
                session_id: *session_id,
                seq_num: *seq_num as int,
                frames: deep(frames@),
                position_info: opt_view(*position_info),
            },
        }
    }
}

/// A codec kind whose payload is a list of frames.
pub open spec fn is_frame_kind(k: u8) -> bool {
    k == KIND_CELT_ALPHA || k == KIND_SPEEX || k == KIND_CELT_BETA
}

/// A list of frames that the 1-byte headers can carry.
pub open spec fn valid_frames(fs: Seq<Seq<u8>>) -> bool {
    fs.len() >= 1 && forall|i: int| 0 <= i < fs.len() ==> (#[trigger] fs[i]).len() < 0x80
}

pub open spec fn valid_trailer(p: Option<Seq<u8>>) -> bool {
    p matches Some(q) ==> q.len() == POSITION_LEN
}

/// A frame that the wire format can carry: a 5-bit target, an Opus frame
/// shorter than the terminator flag or a non-empty list of frames shorter
/// than 128 bytes, and a trailer of exactly 12 bytes.
pub open spec fn valid_voice(m: VoiceModel) -> bool {
    match m {
        VoiceModel::Ping(t) => i64::MIN <= t <= i64::MAX,
        VoiceModel::Audio { target, session_id, seq_num, opus, terminator, position_info } => {
            &&& target < 32
            &&& i64::MIN <= seq_num <= i64::MAX
            &&& opus.len() < OPUS_TERMINATOR
            &&& valid_trailer(position_info)
        },
        VoiceModel::Frames { kind, target, session_id, seq_num, frames, position_info } => {
            &&& is_frame_kind(kind)
            &&& target < 32
            &&& i64::MIN <= seq_num <= i64::MAX
            &&& valid_frames(frames)
            &&& valid_trailer(position_info)
        },
    }
}

/// The Opus length field: the length, with the terminator flag.
pub open spec fn opus_header(len: nat, terminator: bool) -> int {
    len + if terminator { OPUS_TERMINATOR as int } else { 0 }
}

/// The positional trailer's bytes, empty where there is none.
pub open spec fn trailer(position_info: Option<Seq<u8>>) -> Seq<u8> {
    match position_info {
        Some(q) => q,
        None => Seq::empty(),
    }
}

/// The session id's bytes, empty where there is none.
pub open spec fn session_bytes(session_id: Option<u32>) -> Seq<u8> {
    match session_id {
        Some(sid) => varint_bytes(sid as int),
        None => Seq::empty(),
    }
}

/// A list of CELT or Speex frames, each behind its header byte.
pub open spec fn frames_bytes(fs: Seq<Seq<u8>>) -> Seq<u8>
    decreases fs.len(),
{
    if fs.len() == 0 {
        Seq::empty()
    } else if fs.len() == 1 {
        seq![fs[0].len() as u8] + fs[0]
    } else {
        seq![(fs[0].len() + FRAME_CONTINUES) as u8] + fs[0] + frames_bytes(fs.drop_first())
    }
}

/// The bytes after the sequence number: the codec payload and the trailer.
pub open spec fn payload_bytes(m: VoiceModel) -> Seq<u8> {
    match m {
        VoiceModel::Audio { opus, terminator, position_info, .. } =>
            varint_bytes(opus_header(opus.len(), terminator)) + opus + trailer(position_info),
        VoiceModel::Frames { frames, position_info, .. } => frames_bytes(frames) + trailer(position_info),
        VoiceModel::Ping(_) => Seq::empty(),
    }
}

/// The bytes of a frame.
pub open spec fn voice_bytes(m: VoiceModel) -> Seq<u8> {
    match m {
        VoiceModel::Ping(t) => seq![(KIND_PING * 32) as u8] + varint_bytes(t),
        VoiceModel::Audio { target, session_id, seq_num, .. } => seq![(KIND_OPUS * 32 + target) as u8]
            + session_bytes(session_id) + (varint_bytes(seq_num) + payload_bytes(m)),
        VoiceModel::Frames { kind, target, session_id, seq_num, .. } => seq![(kind * 32 + target) as u8]
            + session_bytes(session_id) + (varint_bytes(seq_num) + payload_bytes(m)),
    }
}

/// Reads the Opus part and the trailer from `s`, which starts after the
/// sequence number.
pub open spec fn parse_opus(s: Seq<u8>, target: u8, session_id: Option<u32>, seq_num: int) -> Option<VoiceModel> {
    match parse_varint(s) {
        Some((h, n)) => {
            if h < 0 || h >= 2 * OPUS_TERMINATOR {
                None
            } else {
                let len = h % (OPUS_TERMINATOR as int);
                let rest = s.subrange(n as int, s.len() as int);
                if rest.len() == len || rest.len() == len + POSITION_LEN {
                    Some(VoiceModel::Audio {
                        target,
                        session_id,
                        seq_num,
                        opus: rest.subrange(0, len),
                        terminator: h >= OPUS_TERMINATOR,
                        position_info: if rest.len() == len { None } else { Some(rest.subrange(len, rest.len() as int)) },
                    })
                } else {
                    None
                }
            }
        },
        None => None,
    }
}

/// Reads a list of CELT or Speex frames from the start of `s`: the frames
/// and the number of bytes they took.
pub open spec fn parse_frames(s: Seq<u8>) -> Option<(Seq<Seq<u8>>, nat)>
    decreases s.len(),
{
    if s.len() == 0 {
        None
    } else {
        let h = s[0] as int;
        let len = h % 0x80;
        if 1 + len > s.len() {
            None
        } else if h < 0x80 {
            Some((seq![s.subrange(1, 1 + len)], (1 + len) as nat))
        } else {
            match parse_frames(s.subrange(1 + len, s.len() as int)) {
                Some((fs, n)) => Some((seq![s.subrange(1, 1 + len)] + fs, (1 + len + n) as nat)),
                None => None,
            }
        }
    }
}

/// Reads the frame list and the trailer from `s`, which starts after the
/// sequence number.
pub open spec fn parse_frame_part(s: Seq<u8>, kind: u8, target: u8, session_id: Option<u32>, seq_num: int) -> Option<VoiceModel> {
    match parse_frames(s) {
        Some((fs, n)) => {
            let rest = s.subrange(n as int, s.len() as int);
            if rest.len() == 0 {
                Some(VoiceModel::Frames { kind, target, session_id, seq_num, frames: fs, position_info: None })
            } else if rest.len() == POSITION_LEN {
                Some(VoiceModel::Frames { kind, target, session_id, seq_num, frames: fs, position_info: Some(rest) })
            } else {
                None
            }
        },
        None => None,
    }
}

/// Reads the sequence number and what follows it.
#[verifier::opaque]
pub open spec fn parse_after_session(s: Seq<u8>, kind: u8, target: u8, session_id: Option<u32>) -> Option<VoiceModel> {
    match parse_varint(s) {
        Some((q, n)) => {
            let rest = s.subrange(n as int, s.len() as int);
            if kind == KIND_OPUS {
                parse_opus(rest, target, session_id, q)
            } else {
                parse_frame_part(rest, kind, target, session_id, q)
            }
        },
        None => None,
    }
}

/// Reads a whole frame; `clientbound` frames carry the sender's session id.
/// A frame of an unknown codec kind, with bytes left over, or cut short reads
/// as `None`.
pub open spec fn parse_voice(s: Seq<u8>, clientbound: bool) -> Option<VoiceModel> {
    if s.len() == 0 {
        None
    } else {
        let kind = s[0] / 32;
        let target = (s[0] % 32) as u8;
        let body = s.drop_first();
        if kind == KIND_PING {
            match parse_varint(body) {
                Some((t, n)) => if n == body.len() { Some(VoiceModel::Ping(t)) } else { None },
                None => None,
            }
        } else if kind == KIND_OPUS || is_frame_kind(kind) {
            if clientbound {
                match parse_varint(body) {
                    Some((v, n)) => if 0 <= v <= u32::MAX {
                        parse_after_session(body.subrange(n as int, body.len() as int), kind, target, Some(v as u32))
                    } else {
                        None
                    },
                    None => None,
                }
            } else {
                parse_after_session(body, kind, target, None)
            }
        } else {
            None
        }
    }
}

proof fn lemma_opus_round_trip(target: u8, session_id: Option<u32>, seq_num: int, opus: Seq<u8>, terminator: bool, position_info: Option<Seq<u8>>)
    requires
        valid_voice(VoiceModel::Audio { target, session_id, seq_num, opus, terminator, position_info }),
    ensures
        parse_opus(varint_bytes(opus_header(opus.len(), terminator)) + opus + trailer(position_info), target, session_id, seq_num)
            == Some(VoiceModel::Audio { target, session_id, seq_num, opus, terminator, position_info }),
{
    let h = opus_header(opus.len(), terminator);
    let tail = trailer(position_info);
    let after_q = varint_bytes(h) + opus + tail;
    lemma_varint_round_trip(h as i64, opus + tail);
    assert(varint_bytes(h) + (opus + tail) == after_q);
    let rest = after_q.subrange(varint_bytes(h).len() as int, after_q.len() as int);
    assert(rest == opus + tail);
    assert(rest.subrange(0, opus.len() as int) == opus);
    if let Some(p) = position_info {
        assert(rest.subrange(opus.len() as int, rest.len() as int) == p);
    }
    assert(h % (OPUS_TERMINATOR as int) == opus.len() as int);
}

/// Frames read back from their bytes are the frames written, whatever follows.
proof fn lemma_frames_round_trip(fs: Seq<Seq<u8>>, rest: Seq<u8>)
    requires
        valid_frames(fs),
    ensures
        parse_frames(frames_bytes(fs) + rest) == Some((fs, frames_bytes(fs).len())),
    decreases fs.len(),
{
    let s = frames_bytes(fs) + rest;
    let f0 = fs[0];
    let l = f0.len();
    if fs.len() == 1 {
        assert(frames_bytes(fs) == seq![l as u8] + f0);
        assert(s[0] == l as u8);
        assert(s.subrange(1, 1 + l as int) == f0);
        assert(seq![f0] == fs);
    } else {
        let tail = fs.drop_first();
        assert(valid_frames(tail)) by {
            assert forall|i: int| 0 <= i < tail.len() implies (#[trigger] tail[i]).len() < 0x80 by {
                assert(tail[i] == fs[i + 1]);
            }
        }
        lemma_frames_round_trip(tail, rest);
        assert(frames_bytes(fs) == seq![(l + FRAME_CONTINUES) as u8] + f0 + frames_bytes(tail));
        assert(s[0] == (l + FRAME_CONTINUES) as u8);
        assert(s.subrange(1, 1 + l as int) == f0);
        assert(s.subrange(1 + l as int, s.len() as int) == frames_bytes(tail) + rest);
        assert(seq![f0] + tail == fs);
    }
}

proof fn lemma_frame_part_round_trip(kind: u8, target: u8, session_id: Option<u32>, seq_num: int, frames: Seq<Seq<u8>>, position_info: Option<Seq<u8>>)
    requires
        valid_voice(VoiceModel::Frames { kind, target, session_id, seq_num, frames, position_info }),
    ensures
        parse_frame_part(frames_bytes(frames) + trailer(position_info), kind, target, session_id, seq_num)
            == Some(VoiceModel::Frames { kind, target, session_id, seq_num, frames, position_info }),
{
    let tail = trailer(position_info);
    lemma_frames_round_trip(frames, tail);
    let s = frames_bytes(frames) + tail;
    assert(s.subrange(frames_bytes(frames).len() as int, s.len() as int) == tail);
}

#[verifier::spinoff_prover]
#[verifier::rlimit(60)]
proof fn lemma_after_session_round_trip(m: VoiceModel)
    requires
        valid_voice(m),
        !(m is Ping),
    ensures
        match m {
            VoiceModel::Audio { target, session_id, seq_num, .. } =>
                parse_after_session(varint_bytes(seq_num) + payload_bytes(m), KIND_OPUS, target, session_id) == Some(m),
            VoiceModel::Frames { kind, target, session_id, seq_num, .. } =>
                parse_after_session(varint_bytes(seq_num) + payload_bytes(m), kind, target, session_id) == Some(m),
            VoiceModel::Ping(_) => true,
        },
{
    reveal(parse_after_session);
    match m {
        VoiceModel::Audio { target, session_id, seq_num, opus, terminator, position_info } => {
            let after_q = payload_bytes(m);
            lemma_opus_round_trip(target, session_id, seq_num, opus, terminator, position_info);
            lemma_varint_round_trip(seq_num as i64, after_q);
            let s = varint_bytes(seq_num) + after_q;
            assert(s.subrange(varint_bytes(seq_num).len() as int, s.len() as int) == after_q);
        },
        VoiceModel::Frames { kind, target, session_id, seq_num, frames, position_info } => {
            let after_q = payload_bytes(m);
            lemma_frame_part_round_trip(kind, target, session_id, seq_num, frames, position_info);
            lemma_varint_round_trip(seq_num as i64, after_q);
            let s = varint_bytes(seq_num) + after_q;
            assert(s.subrange(varint_bytes(seq_num).len() as int, s.len() as int) == after_q);
            assert(kind != KIND_OPUS);
        },
        VoiceModel::Ping(_) => {},
    }
}

/// The header byte and the session id read back as written.
#[verifier::spinoff_prover]
#[verifier::rlimit(60)]
proof fn lemma_headed_round_trip(kind: u8, target: u8, session_id: Option<u32>, after: Seq<u8>)
    requires
        kind == KIND_OPUS || is_frame_kind(kind),
        target < 32,
    ensures
        parse_voice(seq![(kind * 32 + target) as u8] + session_bytes(session_id) + after, session_id is Some)
            == parse_after_session(after, kind, target, session_id),
{
    let e = seq![(kind * 32 + target) as u8] + session_bytes(session_id) + after;
    assert((kind * 32 + target) as u8 / 32 == kind);
    assert((kind * 32 + target) as u8 % 32 == target);
    let body = e.drop_first();
    assert(body == session_bytes(session_id) + after);
    match session_id {
        Some(sid) => {
            lemma_varint_round_trip(sid as i64, after);
            assert(body.subrange(varint_bytes(sid as int).len() as int, body.len() as int) == after);
        },
        None => {
            assert(body == after);
        },
    }
}

/// A frame read back from its bytes is the frame written, with the session id
/// read where it was written.
pub proof fn lemma_voice_round_trip(m: VoiceModel)
    requires
        valid_voice(m),
    ensures
        parse_voice(voice_bytes(m), match m {
            VoiceModel::Audio { session_id, .. } => session_id is Some,
            VoiceModel::Frames { session_id, .. } => session_id is Some,
            VoiceModel::Ping(_) => false,
        }) == Some(m),
{
    let e = voice_bytes(m);
    match m {
        VoiceModel::Ping(t) => {
            lemma_varint_round_trip(t as i64, Seq::empty());
            assert(e == seq![(KIND_PING * 32) as u8] + varint_bytes(t));
            assert(varint_bytes(t) + Seq::<u8>::empty() == varint_bytes(t));
            assert(e.drop_first() == varint_bytes(t));
        },
        VoiceModel::Audio { target, session_id, seq_num, .. } => {
            lemma_after_session_round_trip(m);
            lemma_headed_round_trip(KIND_OPUS, target, session_id, varint_bytes(seq_num) + payload_bytes(m));
        },
        VoiceModel::Frames { kind, target, session_id, seq_num, .. } => {
            lemma_after_session_round_trip(m);
            lemma_headed_round_trip(kind, target, session_id, varint_bytes(seq_num) + payload_bytes(m));
        },
    }
}

fn append_bytes(out: &mut Vec<u8>, src: &[u8], from: usize, to: usize)
    requires
        from <= to <= src@.len(),
    ensures
        final(out)@ == old(out)@ + src@.subrange(from as int, to as int),
{
    let mut i: usize = from;
    while i < to
        invariant
            from <= i <= to <= src@.len(),
            out@ == old(out)@ + src@.subrange(from as int, i as int),
        decreases to - i,
    {
        out.push(src[i]);
        i = i + 1;
        assert(out@ == old(out)@ + src@.subrange(from as int, i as int));
    }
}

fn append_all(out: &mut Vec<u8>, src: &Vec<u8>)
    ensures
        final(out)@ == old(out)@ + src@,
{
    append_bytes(out, src.as_slice(), 0, src.len());
    assert(src@.subrange(0, src@.len() as int) == src@);
}

fn append_trailer(out: &mut Vec<u8>, position_info: &Option<Vec<u8>>)
    ensures
        final(out)@ == old(out)@ + trailer(opt_view(*position_info)),
{
    match position_info {
        Some(q) => append_all(out, q),
        None => {
            assert(old(out)@ + Seq::<u8>::empty() == old(out)@);
        },
    }
}

/// Appends the frames from index `k` on, each behind its header byte.
fn encode_frame_list(frames: &Vec<Vec<u8>>, k: usize, out: &mut Vec<u8>)
    requires
        k < frames@.len(),
        forall|i: int| 0 <= i < frames@.len() ==> (#[trigger] frames@[i])@.len() < 0x80,
    ensures
        final(out)@ == old(out)@ + frames_bytes(deep(frames@).subrange(k as int, frames@.len() as int)),
    decreases frames@.len() - k,
{
    let fs = Ghost(deep(frames@).subrange(k as int, frames@.len() as int));
    let f = &frames[k];
    assert(fs@[0] == f@);
    let ghost pre = out@;
    if k == frames.len() - 1 {
        out.push(f.len() as u8);
        append_all(out, f);
    } else {
        out.push((f.len() + 0x80) as u8);
        append_all(out, f);
        encode_frame_list(frames, k + 1, out);
        assert(fs@.drop_first() == deep(frames@).subrange(k + 1, frames@.len() as int));
    }
}

fn encode_header(kind: u8, target: u8, session_id: Option<u32>, seq_num: i64, out: &mut Vec<u8>)
    requires
        kind < 8,
        target < 32,
    ensures
        final(out)@ == old(out)@ + seq![(kind * 32 + target) as u8] + session_bytes(session_id) + varint_bytes(seq_num as int),
{
    out.push(kind * 32 + target);
    match session_id {
        Some(sid) => encode_varint(sid as i64, out),
        None => {},
    }
    encode_varint(seq_num, out);
}

/// Appends the bytes of `p` to `out`.
pub fn encode_voice_packet(p: &VoicePacket, out: &mut Vec<u8>)
    requires
        valid_voice(p@),
    ensures
        final(out)@ == old(out)@ + voice_bytes(p@),
{
    let ghost pre = out@;
    match p {
        VoicePacket::Ping { timestamp } => {
            out.push(KIND_PING * 32);
            encode_varint(*timestamp, out);
            assert(out@ == pre + voice_bytes(p@));
        },
        VoicePacket::Audio { target, session_id, seq_num, opus, terminator, position_info } => {
            encode_header(KIND_OPUS, *target, *session_id, *seq_num, out);
            let ghost a = out@;
            let h: u64 = opus.len() as u64 + if *terminator { OPUS_TERMINATOR } else { 0 };
            encode_varint(h as i64, out);
            assert(h as int == opus_header(opus@.len(), *terminator));
            append_all(out, opus);
            append_trailer(out, position_info);
            assert(out@ == a + payload_bytes(p@));
            assert(out@ == pre + voice_bytes(p@));
        },
        VoicePacket::Frames { kind, target, session_id, seq_num, frames, position_info } => {
            encode_header(*kind, *target, *session_id, *seq_num, out);
            let ghost a = out@;
            proof {
                assert forall|i: int| 0 <= i < frames@.len() implies (#[trigger] frames@[i])@.len() < 0x80 by {
                    assert(deep(frames@)[i] == frames@[i]@);
                }
            }
            encode_frame_list(frames, 0, out);
            assert(deep(frames@).subrange(0, frames@.len() as int) == deep(frames@));
            append_trailer(out, position_info);
            assert(out@ == a + payload_bytes(p@));
            assert(out@ == pre + voice_bytes(p@));
        },
    }
}

fn copy_range(buf: &[u8], from: usize, to: usize) -> (r: Vec<u8>)
    requires
        from <= to <= buf@.len(),
    ensures
        r@ == buf@.subrange(from as int, to as int),
{
    let mut out: Vec<u8> = Vec::new();
    append_bytes(&mut out, buf, from, to);
    assert(out@ == Seq::<u8>::empty() + buf@.subrange(from as int, to as int));
    out
}

/// Reads the Opus length field and what follows it, from `pos` on.
fn decode_opus(buf: &[u8], pos: usize, target: u8, session_id: Option<u32>, seq_num: i64) -> (r: Option<VoicePacket>)
    requires
        pos <= buf@.len(),
        target < 32,
    ensures
        match parse_opus(buf@.subrange(pos as int, buf@.len() as int), target, session_id, seq_num as int) {
            Some(m) => r matches Some(p) && p@ == m,
            None => r is None,
        },
        r matches Some(p) ==> valid_voice(p@),
{
    let len = buf.len();
    let ghost t = buf@.subrange(pos as int, len as int);
    let (h, data_start) = match decode_varint(buf, pos) {
        Some(x) => x,
        None => return None,
    };
    if h < 0 || h >= 2 * OPUS_TERMINATOR as i64 {
        return None;
    }
    let oplen = (h % OPUS_TERMINATOR as i64) as usize;
    let rest = len - data_start;
    proof {
        let hdr_len = (data_start - pos) as int;
        assert(t.subrange(hdr_len, t.len() as int) == buf@.subrange(data_start as int, len as int));
    }
    if rest != oplen && rest != oplen + POSITION_LEN {
        return None;
    }
    let opus = copy_range(buf, data_start, data_start + oplen);
    let position_info = if rest == oplen {
        None
    } else {
        Some(copy_range(buf, data_start + oplen, len))
    };
    proof {
        let rs = buf@.subrange(data_start as int, len as int);
        assert(rs.subrange(0, oplen as int) == buf@.subrange(data_start as int, data_start + oplen));
        assert(rs.subrange(oplen as int, rs.len() as int) == buf@.subrange(data_start + oplen, len as int));
    }
    Some(VoicePacket::Audio { target, session_id, seq_num, opus, terminator: h >= OPUS_TERMINATOR as i64, position_info })
}

/// Reads a list of CELT or Speex frames at `pos`: the frames and the position
/// just after them.
fn decode_frame_list(buf: &[u8], pos: usize) -> (r: Option<(Vec<Vec<u8>>, usize)>)
    requires
        pos <= buf@.len(),
    ensures
        match parse_frames(buf@.subrange(pos as int, buf@.len() as int)) {
            Some((fs, n)) => r matches Some((v, end)) && deep(v@) == fs && end == pos + n && end <= buf@.len(),
            None => r is None,
        },
        r matches Some((v, end)) ==> valid_frames(deep(v@)),
    decreases buf@.len() - pos,
{
    let len = buf.len();
    let ghost s = buf@.subrange(pos as int, len as int);
    if pos >= len {
        return None;
    }
    let h = buf[pos];
    let l = (h % 0x80) as usize;
    if l + 1 > len - pos {
        return None;
    }
    let data = copy_range(buf, pos + 1, pos + 1 + l);
    assert(s.subrange(1, 1 + l as int) == data@);
    if h < 0x80 {
        let mut v: Vec<Vec<u8>> = Vec::new();
        v.push(data);
        assert(deep(v@) =~= seq![data@]);
        Some((v, pos + 1 + l))
    } else {
        assert(s.subrange(1 + l as int, s.len() as int) == buf@.subrange(pos + 1 + l, len as int));
        match decode_frame_list(buf, pos + 1 + l) {
            Some((v, end)) => {
                let ghost old_v = v@;
                let mut v = v;
                v.insert(0, data);
                assert(deep(v@) =~= seq![data@] + deep(old_v));
                proof {
                    let d = deep(v@);
                    assert forall|i: int| 0 <= i < d.len() implies (#[trigger] d[i]).len() < 0x80 by {
                        if i > 0 {
                            assert(d[i] == deep(old_v)[i - 1]);
                        }
                    }
                }
                Some((v, end))
            },
            None => None,
        }
    }
}

/// Reads the frame list and the trailer from `pos` on.
fn decode_frame_part(buf: &[u8], pos: usize, kind: u8, target: u8, session_id: Option<u32>, seq_num: i64) -> (r: Option<VoicePacket>)
    requires
        pos <= buf@.len(),
        is_frame_kind(kind),
        target < 32,
    ensures
        match parse_frame_part(buf@.subrange(pos as int, buf@.len() as int), kind, target, session_id, seq_num as int) {
            Some(m) => r matches Some(p) && p@ == m,
            None => r is None,
        },
        r matches Some(p) ==> valid_voice(p@),
{
    let len = buf.len();
    let ghost s = buf@.subrange(pos as int, len as int);
    let (frames, end) = match decode_frame_list(buf, pos) {
        Some(x) => x,
        None => return None,
    };
    assert(s.subrange(end - pos, s.len() as int) == buf@.subrange(end as int, len as int));
    let rest = len - end;
    if rest == 0 {
        Some(VoicePacket::Frames { kind, target, session_id, seq_num, frames, position_info: None })
    } else if rest == POSITION_LEN {
        let p = copy_range(buf, end, len);
        Some(VoicePacket::Frames { kind, target, session_id, seq_num, frames, position_info: Some(p) })
    } else {
        None
    }
}

/// Reads a whole frame; `clientbound` frames carry the sender's session id.
/// What it reads can always be written again.
pub fn decode_voice_packet(buf: &[u8], clientbound: bool) -> (r: Option<VoicePacket>)
    ensures
        match parse_voice(buf@, clientbound) {
            Some(m) => r matches Some(p) && p@ == m,
            None => r is None,
        },
        r matches Some(p) ==> valid_voice(p@),
{
    let len = buf.len();
    if len == 0 {
        return None;
    }
    let hdr = buf[0];
    let kind = hdr / 32;
    let target = hdr % 32;
    let ghost body = buf@.drop_first();
    assert(body == buf@.subrange(1, len as int));
    if kind == KIND_PING {
        match decode_varint(buf, 1) {
            Some((t, end)) => if end == len { Some(VoicePacket::Ping { timestamp: t }) } else { None },
            None => None,
        }
    } else if kind == KIND_OPUS || kind == KIND_CELT_ALPHA || kind == KIND_SPEEX || kind == KIND_CELT_BETA {
        let mut pos: usize = 1;
        let mut session_id: Option<u32> = None;
        if clientbound {
            match decode_varint(buf, 1) {
                Some((v, end)) => {
                    if v < 0 || v > u32::MAX as i64 {
                        return None;
                    }
                    session_id = Some(v as u32);
                    pos = end;
                    assert(body.subrange(end - 1, body.len() as int) == buf@.subrange(end as int, len as int));
                },
                None => return None,
            }
        }
        let ghost s = buf@.subrange(pos as int, len as int);
        proof {
            reveal(parse_after_session);
        }
        let (q, seq_end) = match decode_varint(buf, pos) {
            Some(x) => x,
            None => return None,
        };
        assert(s.subrange(seq_end - pos, s.len() as int) == buf@.subrange(seq_end as int, len as int));
        if kind == KIND_OPUS {
            decode_opus(buf, seq_end, target, session_id, q)
        } else {
            decode_frame_part(buf, seq_end, kind, target, session_id, q)
        }
    } else {
        None
    }
}

/// The frame as the server forwards it: an audio frame carries `session` as
/// its sender; a ping frame is unchanged.
pub fn with_session(p: VoicePacket, session: u32) -> (r: VoicePacket)
    ensures
        r@ == match p@ {
            VoiceModel::Audio { target, session_id, seq_num, opus, terminator, position_info } => VoiceModel::Audio {
                target, session_id: Some(session), seq_num, opus, terminator, position_info,
            },
            VoiceModel::Frames { kind, target, session_id, seq_num, frames, position_info } => VoiceModel::Frames {
                kind, target, session_id: Some(session), seq_num, frames, position_info,
            },
            VoiceModel::Ping(t) => VoiceModel::Ping(t),
        },
        valid_voice(p@) ==> valid_voice(r@),
{
    match p {
        VoicePacket::Audio { target, session_id: _, seq_num, opus, terminator, position_info } => VoicePacket::Audio {
            target, session_id: Some(session), seq_num, opus, terminator, position_info,
        },
        VoicePacket::Frames { kind, target, session_id: _, seq_num, frames, position_info } => VoicePacket::Frames {
            kind, target, session_id: Some(session), seq_num, frames, position_info,
        },
        VoicePacket::Ping { timestamp } => VoicePacket::Ping { timestamp },
    }
}

} // verus!
