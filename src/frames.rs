use vstd::prelude::*;
use crate::binary_helper::{BinaryHelper, UnexpectedEof};
use crate::mods::ModIdentifier;
use crate::replay::{lzma_decoded, legacy_mods, read_compressed_frames, version_at_least, read_compressed_block, KeyPressState, OsuReplay, ReplayEvent, ReplayFrame, ReplayKeyPressState};

verus! {

/// `s` split at every `sep`, as `str::split` splits: one piece more than there are
/// separators, empty pieces kept.
pub open spec fn split_at(s: Seq<u8>, sep: u8) -> Seq<Seq<u8>>
    decreases s.len(),
{
    if s.len() == 0 {
        seq![Seq::<u8>::empty()]
    } else {
        let r = split_at(s.drop_last(), sep);
        if s.last() == sep {
            r.push(Seq::<u8>::empty())
        } else {
            r.update(r.len() - 1, r.last().push(s.last()))
        }
    }
}

proof fn lemma_split_nonempty(s: Seq<u8>, sep: u8)
    ensures
        split_at(s, sep).len() > 0,
    decreases s.len(),
{
    if s.len() > 0 {
        lemma_split_nonempty(s.drop_last(), sep);
    }
}

pub open spec fn is_digit(b: u8) -> bool {
    48 <= b <= 57
}

pub open spec fn all_digits(s: Seq<u8>) -> bool {
    forall|i: int| 0 <= i < s.len() ==> is_digit(#[trigger] s[i])
}

/// The number that decimal digits `s` write.
pub open spec fn digits_value(s: Seq<u8>) -> int
    decreases s.len(),
{
    if s.len() == 0 {
        0
    } else {
        10 * digits_value(s.drop_last()) + (s.last() - 48)
    }
}

/// The integer that `s` writes, as `str::parse` reads one: an optional sign and at least
/// one digit.
pub open spec fn decimal(s: Seq<u8>) -> Option<int> {
    if s.len() > 1 && (s[0] == 45 || s[0] == 43) && all_digits(s.drop_first()) {
        if s[0] == 45 {
            Some(-digits_value(s.drop_first()))
        } else {
            Some(digits_value(s.drop_first()))
        }
    } else if s.len() > 0 && all_digits(s) {
        Some(digits_value(s))
    } else {
        None
    }
}

/// The integer that `s` writes, where it lies in `lo..=hi`.
pub open spec fn decimal_within(s: Seq<u8>, lo: int, hi: int) -> Option<int> {
    match decimal(s) {
        Some(v) => if lo <= v <= hi {
            Some(v)
        } else {
            None
        },
        None => None,
    }
}

proof fn lemma_digits_grow(s: Seq<u8>, k: int)
    requires
        all_digits(s),
        0 <= k <= s.len(),
    ensures
        digits_value(s.take(k)) <= digits_value(s),
        0 <= digits_value(s.take(k)),
    decreases s.len(),
{
    if k < s.len() {
        assert(all_digits(s.drop_last()));
        assert(s.drop_last().take(k) =~= s.take(k));
        lemma_digits_grow(s.drop_last(), k);
        lemma_digits_grow(s.drop_last(), s.len() - 1);
        assert(s.drop_last().take(s.len() - 1) =~= s.drop_last());
    } else {
        assert(s.take(k) =~= s);
        if s.len() > 0 {
            assert(all_digits(s.drop_last()));
            lemma_digits_grow(s.drop_last(), s.len() - 1);
            assert(s.drop_last().take(s.len() - 1) =~= s.drop_last());
        }
    }
}

pub const PARSE_CAP: i64 = 1_000_000_000_000;

/// Reads the digits of `s` from `start` on; nothing if one is not a digit, or the value
/// passes `PARSE_CAP`.
fn digits_from(s: &Vec<u8>, start: usize) -> (r: Option<i64>)
    requires
        start <= s@.len(),
    ensures
        match r {
            Some(v) => all_digits(s@.subrange(start as int, s@.len() as int)) && v == digits_value(
                s@.subrange(start as int, s@.len() as int),
            ) && 0 <= v <= PARSE_CAP,
            None => !all_digits(s@.subrange(start as int, s@.len() as int)) || digits_value(
                s@.subrange(start as int, s@.len() as int),
            ) > PARSE_CAP,
        },
{
    let ghost t = s@.subrange(start as int, s@.len() as int);
    let mut v: i64 = 0;
    let mut i: usize = start;
    while i < s.len()
        invariant
            start <= i <= s@.len(),
            t == s@.subrange(start as int, s@.len() as int),
            all_digits(t.take(i - start)),
            v == digits_value(t.take(i - start)),
            0 <= v <= PARSE_CAP,
        decreases s@.len() - i,
    {
        let b = s[i];
        assert(t.take(i - start + 1).drop_last() =~= t.take(i - start));
        assert(t.take(i - start + 1).last() == b);
        if !(48 <= b && b <= 57) {
            assert(!is_digit(t[i - start]));
            return None;
        }
        let next = 10 * v + (b - 48) as i64;
        if next > PARSE_CAP {
            proof {
                assert(all_digits(t.take(i - start + 1)));
                if all_digits(t) {
                    lemma_digits_grow(t, i - start + 1);
                }
            }
            return None;
        }
        v = next;
        i = i + 1;
    }
    assert(t.take(i - start) =~= t);
    Some(v)
}

/// The integer that `s` writes, where it lies in `lo..=hi`.
pub fn parse_decimal(s: &Vec<u8>, lo: i64, hi: i64) -> (r: Option<i64>)
    requires
        -PARSE_CAP <= lo <= hi <= PARSE_CAP,
    ensures
        match r {
            Some(v) => decimal_within(s@, lo as int, hi as int) == Some(v as int),
            None => decimal_within(s@, lo as int, hi as int).is_none(),
        },
{
    if s.len() > 1 && (s[0] == 45 || s[0] == 43) {
        let d = digits_from(s, 1);
        assert(s@.subrange(1, s@.len() as int) =~= s@.drop_first());
        match d {
            Some(v) => {
                let signed = if s[0] == 45 { -v } else { v };
                if lo <= signed && signed <= hi {
                    Some(signed)
                } else {
                    None
                }
            },
            None => None,
        }
    } else if s.len() > 0 {
        let d = digits_from(s, 0);
        assert(s@.subrange(0, s@.len() as int) =~= s@);
        match d {
            Some(v) => {
                if lo <= v && v <= hi {
                    Some(v)
                } else {
                    None
                }
            },
            None => None,
        }
    } else {
        None
    }
}

/// Splits `s` at every `sep`.
pub fn split_bytes(s: &Vec<u8>, sep: u8) -> (r: Vec<Vec<u8>>)
    ensures
        r@.len() == split_at(s@, sep).len(),
        forall|k: int| 0 <= k < r@.len() ==> (#[trigger] r@[k])@ == split_at(s@, sep)[k],
{
    let mut done: Vec<Vec<u8>> = Vec::new();
    let mut cur: Vec<u8> = Vec::new();
    let mut i: usize = 0;
    while i < s.len()
        invariant
            i <= s@.len(),
            done@.len() + 1 == split_at(s@.take(i as int), sep).len(),
            forall|k: int| 0 <= k < done@.len() ==> (#[trigger] done@[k])@ == split_at(s@.take(i as int), sep)[k],
            cur@ == split_at(s@.take(i as int), sep).last(),
        decreases s@.len() - i,
    {
        let b = s[i];
        proof {
            lemma_split_nonempty(s@.take(i as int), sep);
            assert(s@.take(i as int + 1).drop_last() =~= s@.take(i as int));
        }
        if b == sep {
            done.push(cur);
            cur = Vec::new();
        } else {
            cur.push(b);
        }
        i = i + 1;
    }
    assert(s@.take(i as int) =~= s@);
    done.push(cur);
    done
}

/// The frame that one piece `time|keys` of a replay's frame text gives; `Some(None)` for
/// a piece of another shape, which is passed over, and `None` for numbers out of range.
pub open spec fn frame_of_piece(p: Seq<u8>) -> Option<Option<ReplayFrame>> {
    let parts = split_at(p, 124);
    if parts.len() != 2 {
        Some(None)
    } else {
        match (decimal_within(parts[0], i32::MIN as int, i32::MAX as int), decimal_within(parts[1], 0, 511)) {
            (Some(t), Some(k)) => Some(Some(ReplayFrame { time: t as i32, keys: ReplayKeyPressState { bits: k as i16 } })),
            _ => None,
        }
    }
}

/// The frames of the first `n` pieces, or nothing if one of them is out of range.
pub open spec fn frames_of(pieces: Seq<Seq<u8>>, n: int) -> Option<Seq<ReplayFrame>>
    decreases n,
{
    if n <= 0 {
        Some(Seq::empty())
    } else {
        match (frames_of(pieces, n - 1), frame_of_piece(pieces[n - 1])) {
            (Some(fs), Some(Some(f))) => Some(fs.push(f)),
            (Some(fs), Some(None)) => Some(fs),
            _ => None,
        }
    }
}

proof fn lemma_frames_stay_none(pieces: Seq<Seq<u8>>, m: int, n: int)
    requires
        0 <= m <= n,
        frames_of(pieces, m).is_none(),
    ensures
        frames_of(pieces, n).is_none(),
    decreases n - m,
{
    if n > m {
        lemma_frames_stay_none(pieces, m, n - 1);
    }
}

/// The frames that a replay's decompressed frame text holds: pieces `time|keys` between
/// commas, other pieces passed over; nothing when a time or a key set is out of range.
pub fn parse_replay_frames(text: &Vec<u8>) -> (r: Option<Vec<ReplayFrame>>)
    ensures
        match r {
            Some(v) => frames_of(split_at(text@, 44), split_at(text@, 44).len() as int) == Some(v@),
            None => frames_of(split_at(text@, 44), split_at(text@, 44).len() as int).is_none(),
        },
{
    let pieces = split_bytes(text, 44);
    let ghost ps = split_at(text@, 44);
    let mut out: Vec<ReplayFrame> = Vec::new();
    let mut i: usize = 0;
    while i < pieces.len()
        invariant
            i <= pieces@.len(),
            ps == split_at(text@, 44),
            pieces@.len() == ps.len(),
            forall|k: int| 0 <= k < pieces@.len() ==> (#[trigger] pieces@[k])@ == ps[k],
            frames_of(ps, i as int) == Some(out@),
        decreases pieces@.len() - i,
    {
        let parts = split_bytes(&pieces[i], 124);
        if parts.len() == 2 {
            let t = parse_decimal(&parts[0], i32::MIN as i64, i32::MAX as i64);
            let k = parse_decimal(&parts[1], 0, 511);
            match (t, k) {
                (Some(t), Some(k)) => {
                    out.push(ReplayFrame { time: t as i32, keys: ReplayKeyPressState { bits: k as i16 } });
                },
                _ => {
                    proof {
                        assert(frame_of_piece(ps[i as int]).is_none());
                        assert(frames_of(ps, i as int + 1).is_none());
                        lemma_frames_stay_none(ps, i as int + 1, ps.len() as int);
                        assert(frames_of(split_at(text@, 44), split_at(text@, 44).len() as int).is_none());
                    }
                    return None;
                },
            }
        }
        i = i + 1;
    }
    Some(out)
}

/// The pieces that are not empty, in order.
pub open spec fn non_empty(ps: Seq<Seq<u8>>) -> Seq<Seq<u8>>
    decreases ps.len(),
{
    if ps.len() == 0 {
        Seq::empty()
    } else if ps.last().len() > 0 {
        non_empty(ps.drop_last()).push(ps.last())
    } else {
        non_empty(ps.drop_last())
    }
}

/// The marker time of the closing event of an osu! replay, which carries the seed.
pub const SEED_MARKER: i64 = -12345;

/// What piece `i` of `m` gives: an event, or, as the last piece with the marker time, the
/// seed; `None` when a number is missing or out of range.
pub open spec fn osu_piece(p: Seq<u8>, i: int, m: int) -> Option<(Option<ReplayEvent>, u32)> {
    let parts = split_at(p, 124);
    match decimal_within(parts[0], -PARSE_CAP as int, PARSE_CAP as int) {
        Some(t) => if t == SEED_MARKER && i == m - 1 {
            if parts.len() >= 4 {
                match decimal_within(parts[3], 0, u32::MAX as int) {
                    Some(seed) => Some((None, seed as u32)),
                    None => None,
                }
            } else {
                None
            }
        } else if parts.len() >= 2 {
            match decimal_within(parts[1], 0, u32::MAX as int) {
                Some(k) => Some((Some(ReplayEvent { time_delta: t as i64, keys: KeyPressState { bits: (k % 0x40000) as u32 } }), 0u32)),
                None => None,
            }
        } else {
            None
        },
        None => None,
    }
}

/// Events of the first `n` of the pieces `ps`, and the seed if one came.
pub open spec fn osu_events(ps: Seq<Seq<u8>>, n: int) -> Option<(Seq<ReplayEvent>, u32)>
    decreases n,
{
    if n <= 0 {
        Some((Seq::empty(), 0u32))
    } else {
        match (osu_events(ps, n - 1), osu_piece(ps[n - 1], n - 1, ps.len() as int)) {
            (Some((es, seed)), Some((Some(e), _))) => Some((es.push(e), seed)),
            (Some((es, _)), Some((None, seed))) => Some((es, seed)),
            _ => None,
        }
    }
}

proof fn lemma_osu_stay_none(ps: Seq<Seq<u8>>, m: int, n: int)
    requires
        0 <= m <= n,
        osu_events(ps, m).is_none(),
    ensures
        osu_events(ps, n).is_none(),
    decreases n - m,
{
    if n > m {
        lemma_osu_stay_none(ps, m, n - 1);
    }
}

/// The events of an osu! replay's decompressed text: non-empty pieces `time|keys|...`
/// between commas, keys kept to 18 lanes, and the seed from a closing piece with the
/// marker time; nothing when a number is missing or out of range.
pub fn parse_osu_replay_events(text: &Vec<u8>) -> (r: Option<(Vec<ReplayEvent>, u32)>)
    ensures
        match r {
            Some((es, seed)) => osu_events(non_empty(split_at(text@, 44)), non_empty(split_at(text@, 44)).len() as int) == Some((es@, seed)),
            None => osu_events(non_empty(split_at(text@, 44)), non_empty(split_at(text@, 44)).len() as int).is_none(),
        },
{
    let all = split_bytes(text, 44);
    let ghost sp = split_at(text@, 44);
    let mut kept: Vec<Vec<u8>> = Vec::new();
    let mut j: usize = 0;
    while j < all.len()
        invariant
            j <= all@.len(),
            all@.len() == sp.len(),
            forall|k: int| 0 <= k < all@.len() ==> (#[trigger] all@[k])@ == sp[k],
            kept@.len() == non_empty(sp.take(j as int)).len(),
            forall|k: int| 0 <= k < kept@.len() ==> (#[trigger] kept@[k])@ == non_empty(sp.take(j as int))[k],
        decreases all@.len() - j,
    {
        assert(sp.take(j as int + 1).drop_last() =~= sp.take(j as int));
        if all[j].len() > 0 {
            let piece = copy_bytes(&all[j]);
            kept.push(piece);
        }
        j = j + 1;
    }
    assert(sp.take(j as int) =~= sp);
    let ghost ps = non_empty(sp);
    let m = kept.len();
    let mut events: Vec<ReplayEvent> = Vec::new();
    let mut seed: u32 = 0;
    let mut i: usize = 0;
    while i < m
        invariant
            i <= m,
            m == kept@.len(),
            ps == non_empty(split_at(text@, 44)),
            kept@.len() == ps.len(),
            forall|k: int| 0 <= k < kept@.len() ==> (#[trigger] kept@[k])@ == ps[k],
            osu_events(ps, i as int) == Some((events@, seed)),
        decreases m - i,
    {
        let parts = split_bytes(&kept[i], 124);
        proof {
            lemma_split_nonempty(ps[i as int], 124);
        }
        let t = parse_decimal(&parts[0], -PARSE_CAP, PARSE_CAP);
        let step: Option<(Option<ReplayEvent>, u32)> = match t {
            Some(t) => {
                if t == SEED_MARKER && i == m - 1 {
                    if parts.len() >= 4 {
                        match parse_decimal(&parts[3], 0, u32::MAX as i64) {
                            Some(v) => Some((None, v as u32)),
                            None => None,
                        }
                    } else {
                        None
                    }
                } else if parts.len() >= 2 {
                    match parse_decimal(&parts[1], 0, u32::MAX as i64) {
                        Some(k) => Some((Some(ReplayEvent { time_delta: t, keys: KeyPressState { bits: (k % 0x40000) as u32 } }), 0u32)),
                        None => None,
                    }
                } else {
                    None
                }
            },
            None => None,
        };
        assert(step == osu_piece(ps[i as int], i as int, ps.len() as int));
        match step {
            Some((Some(e), _)) => {
                events.push(e);
            },
            Some((None, s)) => {
                seed = s;
            },
            None => {
                proof {
                    lemma_osu_stay_none(ps, i as int + 1, ps.len() as int);
                }
                return None;
            },
        }
        i = i + 1;
    }
    Some((events, seed))
}

/// The frames of a Quaver replay's frame text.
pub open spec fn frames_of_text(t: Seq<u8>) -> Option<Seq<ReplayFrame>> {
    frames_of(split_at(t, 44), split_at(t, 44).len() as int)
}

/// The events and seed of an osu! replay's event text.
pub open spec fn osu_events_of_text(t: Seq<u8>) -> Option<(Seq<ReplayEvent>, u32)> {
    osu_events(non_empty(split_at(t, 44)), non_empty(split_at(t, 44)).len() as int)
}

/// Why a replay could not be read.
#[derive(Clone, Copy, Debug, PartialEq, Eq, Structural)]
pub enum ReplayError {
    UnexpectedEof(UnexpectedEof),
    NotMania,
    BadString,
    BadData,
}

fn string_of(br: &mut BinaryHelper) -> (r: Result<String, ReplayError>)
    ensures
        final(br).data == old(br).data,
        final(br).length == old(br).length,
{
    match br.read_string() {
        Some(s) => Ok(s),
        None => Err(ReplayError::BadString),
    }
}

fn eof<T>(r: Result<T, UnexpectedEof>) -> (out: Result<T, ReplayError>)
    ensures
        match r {
            Ok(v) => out == Ok::<T, ReplayError>(v),
            Err(e) => out == Err::<T, ReplayError>(ReplayError::UnexpectedEof(e)),
        },
{
    match r {
        Ok(v) => Ok(v),
        Err(e) => Err(ReplayError::UnexpectedEof(e)),
    }
}

/// An osu!mania replay from its bytes: the header fields in file order, the compressed
/// events, and the replay id. A replay of another game mode is refused; a replay read
/// holds the events of a decompressed block of the bytes.
pub fn read_osu_replay(data: &Vec<u8>) -> (r: Result<OsuReplay, ReplayError>)
    ensures
        data@.len() == 0 ==> r.is_err(),
        data@.len() > 0 && data@[0] != 3 ==> r == Err::<OsuReplay, ReplayError>(ReplayError::NotMania),
        r.is_ok() ==> r.unwrap().mode == 3 && data@[0] == 3,
        r.is_ok() ==> exists|a: int, b: int|
            0 <= a <= b <= data@.len() && #[trigger] osu_events_of_text(
                lzma_decoded(data@.subrange(a, b)),
            ) == Some((r.unwrap().replay_data@, r.unwrap().rng_seed)),
{
    let mut br = BinaryHelper::from_u8(data.as_slice());
    let mode = eof(br.read_u8())?;
    if mode != 3 {
        return Err(ReplayError::NotMania);
    }
    let version = eof(br.read_u32())?;
    let map_md5 = string_of(&mut br)?;
    let username = string_of(&mut br)?;
    let replay_md5 = string_of(&mut br)?;
    let count_300 = eof(br.read_u16())?;
    let count_100 = eof(br.read_u16())?;
    let count_50 = eof(br.read_u16())?;
    let count_geki = eof(br.read_u16())?;
    let count_katu = eof(br.read_u16())?;
    let count_miss = eof(br.read_u16())?;
    let score = eof(br.read_u32())?;
    let max_combo = eof(br.read_u16())?;
    let perfect = eof(br.read_u8())?;
    let mods = eof(br.read_u32())?;
    let life_bar = string_of(&mut br)?;
    let time_stamp = eof(br.read_u64())?;
    let length = eof(br.read_u32())?;
    let ghost a = br.pos as int;
    let block = match read_compressed_block(&mut br, length as usize) {
        Some(b) => b,
        None => {
            return Err(ReplayError::BadData);
        },
    };
    let (replay_data, rng_seed) = match parse_osu_replay_events(&block) {
        Some(p) => p,
        None => {
            return Err(ReplayError::BadData);
        },
    };
    let replay_id = eof(br.read_u64())?;
    assert(osu_events_of_text(lzma_decoded(data@.subrange(a, a + length as int))) == Some((
        replay_data@,
        rng_seed,
    )));
    Ok(OsuReplay {
        mode,
        version,
        map_md5,
        username,
        replay_md5,
        count_300,
        count_100,
        count_50,
        count_geki,
        count_katu,
        count_miss,
        score,
        max_combo,
        perfect,
        mods,
        life_bar,
        time_stamp,
        replay_data,
        replay_id,
        rng_seed,
    })
}

/// A Quaver replay as its file holds it; the accuracy stays the bits of its float.
#[derive(Clone, Debug)]
pub struct QuaverReplay {
    pub replay_version: String,
    pub map_md5: String,
    pub md5: String,
    pub player_name: String,
    pub date: String,
    pub time_played: i64,
    pub mode: i32,
    pub mods: ModIdentifier,
    pub score: i32,
    pub accuracy_bits: u32,
    pub max_combo: i32,
    pub count_marv: i32,
    pub count_perf: i32,
    pub count_great: i32,
    pub count_good: i32,
    pub count_okay: i32,
    pub count_miss: i32,
    pub pause_count: i32,
    pub frames: Vec<ReplayFrame>,
}

fn i32_of(br: &mut BinaryHelper) -> (r: Result<i32, ReplayError>)
    ensures
        final(br).data == old(br).data,
        final(br).length == old(br).length,
{
    let v = eof(br.read_u32())?;
    Ok(#[verifier::truncate] (v as i32))
}

fn i64_of(br: &mut BinaryHelper) -> (r: Result<i64, ReplayError>)
    ensures
        final(br).data == old(br).data,
        final(br).length == old(br).length,
{
    let v = eof(br.read_u64())?;
    Ok(#[verifier::truncate] (v as i64))
}

/// A Quaver replay from its bytes: five strings, the play's numbers in file order (mods
/// in 32 bits for the oldest versions), one more field from version 0.0.1 on, and the
/// compressed frame text. Nothing of it is read past an error; a replay read holds the
/// frames of the decompressed rest of the bytes.
pub fn read_quaver_replay(data: &Vec<u8>) -> (r: Result<QuaverReplay, ReplayError>)
    ensures
        data@.len() == 0 ==> r.is_err(),
        r.is_ok() ==> exists|a: int|
            0 <= a <= data@.len() && #[trigger] frames_of_text(lzma_decoded(data@.subrange(a, data@.len() as int)))
                == Some(r.unwrap().frames@),
{
    let mut br = BinaryHelper::from_u8(data.as_slice());
    let replay_version = string_of(&mut br)?;
    let map_md5 = string_of(&mut br)?;
    let md5 = string_of(&mut br)?;
    let player_name = string_of(&mut br)?;
    let date = string_of(&mut br)?;
    let time_played = i64_of(&mut br)?;
    let mode = i32_of(&mut br)?;
    let none_version = "None".to_owned();
    let first_version = "0.0.1".to_owned();
    let is_none = replay_version == none_version;
    let mods = if replay_version == first_version || is_none {
        ModIdentifier::from_bits(legacy_mods(i32_of(&mut br)?))
    } else {
        ModIdentifier::from_bits(i64_of(&mut br)?)
    };
    let score = i32_of(&mut br)?;
    let accuracy_bits = eof(br.read_u32())?;
    let max_combo = i32_of(&mut br)?;
    let count_marv = i32_of(&mut br)?;
    let count_perf = i32_of(&mut br)?;
    let count_great = i32_of(&mut br)?;
    let count_good = i32_of(&mut br)?;
    let count_okay = i32_of(&mut br)?;
    let count_miss = i32_of(&mut br)?;
    let pause_count = i32_of(&mut br)?;
    if !is_none {
        match version_at_least(&replay_version, 0, 0, 1) {
            Some(true) => {
                i32_of(&mut br)?;
            },
            Some(false) => {},
            None => {
                return Err(ReplayError::BadData);
            },
        }
    }
    let ghost a = br.pos as int;
    let text = match read_compressed_frames(&mut br) {
        Some(t) => t,
        None => {
            return Err(ReplayError::BadData);
        },
    };
    let frames = match parse_replay_frames(&text) {
        Some(f) => f,
        None => {
            return Err(ReplayError::BadData);
        },
    };
    assert(frames_of_text(lzma_decoded(data@.subrange(a, data@.len() as int))) == Some(frames@));
    Ok(QuaverReplay {
        replay_version,
        map_md5,
        md5,
        player_name,
        date,
        time_played,
        mode,
        mods,
        score,
        accuracy_bits,
        max_combo,
        count_marv,
        count_perf,
        count_great,
        count_good,
        count_okay,
        count_miss,
        pause_count,
        frames,
    })
}

fn copy_bytes(b: &Vec<u8>) -> (r: Vec<u8>)
    ensures
        r@ == b@,
{
    let mut r: Vec<u8> = Vec::new();
    let mut k: usize = 0;
    while k < b.len()
        invariant
            k <= b@.len(),
            r@ == b@.take(k as int),
        decreases b@.len() - k,
    {
        r.push(b[k]);
        k = k + 1;
        assert(r@ =~= b@.take(k as int));
    }
    assert(b@.take(k as int) =~= b@);
    r
}

} // verus!
