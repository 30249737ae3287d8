//! The cache's two byte codecs, specified bit-exactly: fixed-width
//! little-endian record encoding (used inside the compressed stream) and the
//! variable-width integer encoding (used for the key bytes outside it). Both
//! reject trailing bytes at the layer above.

use vstd::prelude::*;

use crate::cache::CacheValue as EnvValue;
use crate::cache::CacheValueV as EnvValueV;
use crate::map::CacheValueV;
use crate::tile_renderer::{TileRange, Vec2u};

verus! {

// ---------------------------------------------------------------------------
// Little-endian integers
// ---------------------------------------------------------------------------

/// The two little-endian bytes of a 16-bit integer.
pub open spec fn le2_of(x: u16) -> Seq<u8> {
    seq![(x & 0xff) as u8, ((x >> 8) & 0xff) as u8]
}

/// The four little-endian bytes of a 32-bit integer.
pub open spec fn le4_of(x: u32) -> Seq<u8> {
    seq![
        (x & 0xff) as u8,
        ((x >> 8) & 0xff) as u8,
        ((x >> 16) & 0xff) as u8,
        ((x >> 24) & 0xff) as u8,
    ]
}

/// The eight little-endian bytes of a 64-bit integer.
pub open spec fn le8_of(x: u64) -> Seq<u8> {
    seq![
        (x & 0xff) as u8,
        ((x >> 8) & 0xff) as u8,
        ((x >> 16) & 0xff) as u8,
        ((x >> 24) & 0xff) as u8,
        ((x >> 32) & 0xff) as u8,
        ((x >> 40) & 0xff) as u8,
        ((x >> 48) & 0xff) as u8,
        ((x >> 56) & 0xff) as u8,
    ]
}

/// The 32-bit integer with the given little-endian bytes.
pub open spec fn le4_val(b0: u8, b1: u8, b2: u8, b3: u8) -> u32 {
    (b0 as u32) | ((b1 as u32) << 8) | ((b2 as u32) << 16) | ((b3 as u32) << 24)
}

/// The 64-bit integer with the given little-endian bytes.
pub open spec fn le8_val(b0: u8, b1: u8, b2: u8, b3: u8, b4: u8, b5: u8, b6: u8, b7: u8) -> u64 {
    (b0 as u64) | ((b1 as u64) << 8) | ((b2 as u64) << 16) | ((b3 as u64) << 24) | ((b4
        as u64) << 32) | ((b5 as u64) << 40) | ((b6 as u64) << 48) | ((b7 as u64) << 56)
}

/// Reading back the four little-endian bytes of `x` yields `x`.
pub proof fn lemma_le4_roundtrip(x: u32)
    ensures
        le4_val(
            (x & 0xff) as u8,
            ((x >> 8) & 0xff) as u8,
            ((x >> 16) & 0xff) as u8,
            ((x >> 24) & 0xff) as u8,
        ) == x,
{
    assert((((x & 0xff) as u8) as u32) | ((((x >> 8) & 0xff) as u8) as u32) << 8 | ((((x >> 16)
        & 0xff) as u8) as u32) << 16 | ((((x >> 24) & 0xff) as u8) as u32) << 24 == x)
        by (bit_vector);
}

/// Reading back the eight little-endian bytes of `x` yields `x`.
pub proof fn lemma_le8_roundtrip(x: u64)
    ensures
        le8_val(
            (x & 0xff) as u8,
            ((x >> 8) & 0xff) as u8,
            ((x >> 16) & 0xff) as u8,
            ((x >> 24) & 0xff) as u8,
            ((x >> 32) & 0xff) as u8,
            ((x >> 40) & 0xff) as u8,
            ((x >> 48) & 0xff) as u8,
            ((x >> 56) & 0xff) as u8,
        ) == x,
{
    assert((((x & 0xff) as u8) as u64) | ((((x >> 8) & 0xff) as u8) as u64) << 8 | ((((x >> 16)
        & 0xff) as u8) as u64) << 16 | ((((x >> 24) & 0xff) as u8) as u64) << 24 | ((((x >> 32)
        & 0xff) as u8) as u64) << 32 | ((((x >> 40) & 0xff) as u8) as u64) << 40 | ((((x >> 48)
        & 0xff) as u8) as u64) << 48 | ((((x >> 56) & 0xff) as u8) as u64) << 56 == x)
        by (bit_vector);
}

/// Appends the four little-endian bytes of `x`.
pub fn push_le4(out: &mut Vec<u8>, x: u32)
    ensures
        final(out)@ == old(out)@ + le4_of(x),
{
    out.push((x & 0xff) as u8);
    out.push(((x >> 8) & 0xff) as u8);
    out.push(((x >> 16) & 0xff) as u8);
    out.push(((x >> 24) & 0xff) as u8);
    proof {
        assert(out@ =~= old(out)@ + le4_of(x));
    }
}

/// Appends the eight little-endian bytes of `x`.
pub fn push_le8(out: &mut Vec<u8>, x: u64)
    ensures
        final(out)@ == old(out)@ + le8_of(x),
{
    out.push((x & 0xff) as u8);
    out.push(((x >> 8) & 0xff) as u8);
    out.push(((x >> 16) & 0xff) as u8);
    out.push(((x >> 24) & 0xff) as u8);
    out.push(((x >> 32) & 0xff) as u8);
    out.push(((x >> 40) & 0xff) as u8);
    out.push(((x >> 48) & 0xff) as u8);
    out.push(((x >> 56) & 0xff) as u8);
    proof {
        assert(out@ =~= old(out)@ + le8_of(x));
    }
}

/// Reads a 32-bit little-endian integer at `pos`.
pub fn read_le4(bytes: &[u8], pos: usize) -> (r: u32)
    requires
        pos + 4 <= bytes@.len(),
    ensures
        r == le4_val(bytes@[pos as int], bytes@[pos + 1], bytes@[pos + 2], bytes@[pos + 3]),
{
    (bytes[pos] as u32) | ((bytes[pos + 1] as u32) << 8) | ((bytes[pos + 2] as u32) << 16) | ((
    bytes[pos + 3] as u32) << 24)
}

/// Reads a 64-bit little-endian integer at `pos`.
pub fn read_le8(bytes: &[u8], pos: usize) -> (r: u64)
    requires
        pos + 8 <= bytes@.len(),
    ensures
        r == le8_val(
            bytes@[pos as int],
            bytes@[pos + 1],
            bytes@[pos + 2],
            bytes@[pos + 3],
            bytes@[pos + 4],
            bytes@[pos + 5],
            bytes@[pos + 6],
            bytes@[pos + 7],
        ),
{
    (bytes[pos] as u64) | ((bytes[pos + 1] as u64) << 8) | ((bytes[pos + 2] as u64) << 16) | ((
    bytes[pos + 3] as u64) << 24) | ((bytes[pos + 4] as u64) << 32) | ((bytes[pos + 5]
        as u64) << 40) | ((bytes[pos + 6] as u64) << 48) | ((bytes[pos + 7] as u64) << 56)
}

// ---------------------------------------------------------------------------
// Variable-width integers (key bytes)
// ---------------------------------------------------------------------------

/// The variable-width encoding of an unsigned integer: one byte up to 250,
/// otherwise a width marker followed by the value in little-endian.
pub open spec fn varint_of(x: u64) -> Seq<u8> {
    if x <= 250 {
        seq![x as u8]
    } else if x <= 0xffff {
        seq![251u8] + le2_of(x as u16)
    } else if x <= 0xffff_ffff {
        seq![252u8] + le4_of(x as u32)
    } else {
        seq![253u8] + le8_of(x)
    }
}

/// Appends the variable-width encoding of `x`.
pub fn push_varint(out: &mut Vec<u8>, x: u64)
    ensures
        final(out)@ == old(out)@ + varint_of(x),
{
    if x <= 250 {
        out.push(x as u8);
        proof {
            assert(out@ =~= old(out)@ + varint_of(x));
        }
    } else if x <= 0xffff {
        let v = x as u16;
        out.push(251);
        out.push((v & 0xff) as u8);
        out.push(((v >> 8) & 0xff) as u8);
        proof {
            assert(out@ =~= old(out)@ + varint_of(x));
        }
    } else if x <= 0xffff_ffff {
        out.push(252);
        push_le4(out, x as u32);
        proof {
            assert(out@ =~= old(out)@ + varint_of(x));
        }
    } else {
        out.push(253);
        push_le8(out, x);
        proof {
            assert(out@ =~= old(out)@ + varint_of(x));
        }
    }
}

// ---------------------------------------------------------------------------
// Record encoding (fixed-width, inside the compressed stream)
// ---------------------------------------------------------------------------

/// Shorthand: the 32-bit little-endian value at `pos`.
pub open spec fn le4_at(bytes: Seq<u8>, pos: int) -> u32 {
    le4_val(bytes[pos], bytes[pos + 1], bytes[pos + 2], bytes[pos + 3])
}

/// Shorthand: the 64-bit little-endian value at `pos`.
pub open spec fn le8_at(bytes: Seq<u8>, pos: int) -> u64 {
    le8_val(
        bytes[pos],
        bytes[pos + 1],
        bytes[pos + 2],
        bytes[pos + 3],
        bytes[pos + 4],
        bytes[pos + 5],
        bytes[pos + 6],
        bytes[pos + 7],
    )
}

/// Encoding of a tile range: the four 32-bit fields in order.
pub open spec fn enc_range(r: TileRange) -> Seq<u8> {
    le4_of(r.pos.x) + le4_of(r.pos.y) + le4_of(r.size.x) + le4_of(r.size.y)
}

/// Encoding of a sample payload: each 64-bit sample in little-endian.
pub open spec fn enc_samples(data: Seq<u64>) -> Seq<u8>
    decreases data.len(),
{
    if data.len() == 0 {
        Seq::empty()
    } else {
        le8_of(data[0]) + enc_samples(data.drop_first())
    }
}

/// Encoding of a map-domain value: a 32-bit variant tag, then the fields.
/// A block carries its range, a 64-bit sample count, and the samples.
pub open spec fn enc_map_value(v: CacheValueV) -> Seq<u8> {
    match v {
        CacheValueV::Block(range, data) => le4_of(0u32) + enc_range(range) + le8_of(
            data.len() as u64,
        ) + enc_samples(data),
        CacheValueV::Histogram => le4_of(1u32),
    }
}

/// Encoding of an envelope value: the envelope's 32-bit variant tag, then
/// the domain value.
pub open spec fn enc_env_value(v: EnvValueV) -> Seq<u8> {
    match v {
        EnvValueV::MapDomain(inner) => le4_of(0u32) + enc_map_value(inner),
    }
}

/// One stream record: a one-byte present marker, then the envelope value.
pub open spec fn enc_record(v: EnvValueV) -> Seq<u8> {
    seq![1u8] + enc_env_value(v)
}

/// The stream sentinel: a one-byte absent marker.
pub open spec fn sentinel() -> Seq<u8> {
    seq![0u8]
}

/// A value is encodable when its sample count fits the 64-bit length field.
pub open spec fn wf_value(v: EnvValueV) -> bool {
    match v {
        EnvValueV::MapDomain(CacheValueV::Block(_, data)) => data.len() <= u64::MAX,
        EnvValueV::MapDomain(CacheValueV::Histogram) => true,
    }
}

/// Appends the record encoding of `v`.
pub fn encode_record(out: &mut Vec<u8>, v: &EnvValue)
    ensures
        final(out)@ == old(out)@ + enc_record(v@),
{
    out.push(1u8);
    push_le4(out, 0);
    match v {
        EnvValue::MapDomain(inner) => match inner {
            crate::map::CacheValue::Block(range, data) => {
                push_le4(out, 0);
                push_le4(out, range.pos.x);
                push_le4(out, range.pos.y);
                push_le4(out, range.size.x);
                push_le4(out, range.size.y);
                push_le8(out, data.len() as u64);
                let ghost mid = out@;
                let mut i: usize = 0;
                while i < data.len()
                    invariant
                        i <= data@.len(),
                        out@ == mid + enc_samples(data@.take(i as int)),
                    decreases data@.len() - i,
                {
                    push_le8(out, data[i]);
                    i = i + 1;
                    proof {
                        lemma_enc_samples_snoc(data@.take(i - 1), data@[i - 1]);
                        assert(data@.take(i as int) == data@.take(i - 1).push(data@[i - 1]));
                    }
                }
                proof {
                    assert(data@.take(data@.len() as int) == data@);
                    assert(out@ =~= old(out)@ + enc_record(v@));
                }
            },
            crate::map::CacheValue::Histogram => {
                push_le4(out, 1);
                proof {
                    assert(out@ =~= old(out)@ + enc_record(v@));
                }
            },
        },
    }
}

/// Appends the stream sentinel.
pub fn encode_sentinel(out: &mut Vec<u8>)
    ensures
        final(out)@ == old(out)@ + sentinel(),
{
    out.push(0u8);
    proof {
        assert(out@ =~= old(out)@ + sentinel());
    }
}

/// Appending one sample extends the sample encoding on the right.
pub proof fn lemma_enc_samples_snoc(s: Seq<u64>, x: u64)
    ensures
        enc_samples(s.push(x)) == enc_samples(s) + le8_of(x),
    decreases s.len(),
{
    if s.len() == 0 {
        assert(s.push(x).drop_first() =~= Seq::<u64>::empty());
        assert(s.push(x)[0] == x);
        assert(enc_samples(Seq::<u64>::empty()) == Seq::<u8>::empty());
        assert(enc_samples(s.push(x)) == le8_of(x) + Seq::<u8>::empty());
        assert(le8_of(x) + Seq::<u8>::empty() =~= enc_samples(s) + le8_of(x));
    } else {
        assert(s.push(x).drop_first() =~= s.drop_first().push(x));
        assert(s.push(x)[0] == s[0]);
        lemma_enc_samples_snoc(s.drop_first(), x);
        assert(enc_samples(s.push(x)) == le8_of(s[0]) + (enc_samples(s.drop_first()) + le8_of(
            x,
        )));
        assert(le8_of(s[0]) + (enc_samples(s.drop_first()) + le8_of(x)) =~= (le8_of(s[0])
            + enc_samples(s.drop_first())) + le8_of(x));
    }
}

/// The sample encoding is eight bytes per sample.
pub proof fn lemma_enc_samples_len(s: Seq<u64>)
    ensures
        enc_samples(s).len() == 8 * s.len(),
    decreases s.len(),
{
    if s.len() > 0 {
        lemma_enc_samples_len(s.drop_first());
    }
}

// ---------------------------------------------------------------------------
// Record decoding
// ---------------------------------------------------------------------------

/// Result of reading one record at some position of a plaintext stream.
pub enum RecordReadV {
    /// A present record and the position just after it.
    Value(EnvValueV, int),
    /// The stream sentinel and the position just after it.
    Sentinel(int),
    /// The bytes at this position are not a record.
    Bad,
}

/// The samples decoded from `n` consecutive 64-bit little-endian fields
/// starting at `pos`.
pub open spec fn sample_seq(bytes: Seq<u8>, pos: int, n: nat) -> Seq<u64> {
    Seq::new(n, |i: int| le8_at(bytes, pos + 8 * i))
}

/// Decodes the fields of a block record at `pos`.
pub open spec fn dec_block(bytes: Seq<u8>, pos: int) -> Option<(CacheValueV, int)> {
    if pos + 24 <= bytes.len() {
        let range = TileRange {
            pos: Vec2u { x: le4_at(bytes, pos), y: le4_at(bytes, pos + 4) },
            size: Vec2u { x: le4_at(bytes, pos + 8), y: le4_at(bytes, pos + 12) },
        };
        let n = le8_at(bytes, pos + 16);
        if pos + 24 + 8 * n <= bytes.len() {
            Some((CacheValueV::Block(range, sample_seq(bytes, pos + 24, n as nat)), pos + 24 + 8
                * n))
        } else {
            None
        }
    } else {
        None
    }
}

/// Decodes a map-domain value at `pos`: a 32-bit variant tag, then fields.
pub open spec fn dec_map_value(bytes: Seq<u8>, pos: int) -> Option<(CacheValueV, int)> {
    if pos + 4 <= bytes.len() {
        let tag = le4_at(bytes, pos);
        if tag == 0 {
            dec_block(bytes, pos + 4)
        } else if tag == 1 {
            Some((CacheValueV::Histogram, pos + 4))
        } else {
            None
        }
    } else {
        None
    }
}

/// Decodes an envelope value at `pos`.
pub open spec fn dec_env_value(bytes: Seq<u8>, pos: int) -> Option<(EnvValueV, int)> {
    if pos + 4 <= bytes.len() && le4_at(bytes, pos) == 0 {
        match dec_map_value(bytes, pos + 4) {
            Some((v, p)) => Some((EnvValueV::MapDomain(v), p)),
            None => None,
        }
    } else {
        None
    }
}

/// Decodes one stream record at `pos`: the sentinel, a value, or garbage.
pub open spec fn dec_record(bytes: Seq<u8>, pos: int) -> RecordReadV {
    if 0 <= pos < bytes.len() {
        if bytes[pos] == 0 {
            RecordReadV::Sentinel(pos + 1)
        } else if bytes[pos] == 1 {
            match dec_env_value(bytes, pos + 1) {
                Some((v, p)) => RecordReadV::Value(v, p),
                None => RecordReadV::Bad,
            }
        } else {
            RecordReadV::Bad
        }
    } else {
        RecordReadV::Bad
    }
}

/// A decoded record never ends before the position it started at.
pub proof fn lemma_dec_record_advances(bytes: Seq<u8>, pos: int)
    ensures
        dec_record(bytes, pos) matches RecordReadV::Value(_, p) ==> pos + 1 < p <= bytes.len(),
        dec_record(bytes, pos) matches RecordReadV::Sentinel(p) ==> p == pos + 1
            <= bytes.len(),
{
}

/// Exec result of reading one record.
pub enum RecordRead {
    Value(EnvValue, usize),
    Sentinel(usize),
    Bad,
}

impl RecordRead {
    /// Whether this exec outcome matches the spec-level one.
    pub open spec fn matches_spec(self, s: RecordReadV) -> bool {
        match self {
            RecordRead::Value(v, p) => s == RecordReadV::Value(v@, p as int),
            RecordRead::Sentinel(p) => s == RecordReadV::Sentinel(p as int),
            RecordRead::Bad => s is Bad,
        }
    }
}

/// Reads one record of the plaintext stream at `pos`.
pub fn decode_record(bytes: &[u8], pos: usize) -> (r: RecordRead)
    requires
        pos <= bytes@.len(),
    ensures
        r.matches_spec(dec_record(bytes@, pos as int)),
        r matches RecordRead::Value(v, _) ==> wf_value(v@),
{
    if pos >= bytes.len() {
        return RecordRead::Bad;
    }
    let marker = bytes[pos];
    if marker == 0 {
        return RecordRead::Sentinel(pos + 1);
    }
    if marker != 1 {
        return RecordRead::Bad;
    }
    // Envelope tag.
    if bytes.len() - pos < 5 {
        return RecordRead::Bad;
    }
    let env_tag = read_le4(bytes, pos + 1);
    if env_tag != 0 {
        return RecordRead::Bad;
    }
    // Domain tag.
    if bytes.len() - pos < 9 {
        return RecordRead::Bad;
    }
    let tag = read_le4(bytes, pos + 5);
    if tag == 1 {
        return RecordRead::Value(
            EnvValue::MapDomain(crate::map::CacheValue::Histogram),
            pos + 9,
        );
    }
    if tag != 0 {
        return RecordRead::Bad;
    }
    // Block fields.
    if bytes.len() - pos < 33 {
        return RecordRead::Bad;
    }
    let px = read_le4(bytes, pos + 9);
    let py = read_le4(bytes, pos + 13);
    let sx = read_le4(bytes, pos + 17);
    let sy = read_le4(bytes, pos + 21);
    let n = read_le8(bytes, pos + 25);
    let start = pos + 33;
    if n > ((bytes.len() - start) / 8) as u64 {
        return RecordRead::Bad;
    }
    let n = n as usize;
    proof {
        assert(8 * (((bytes@.len() - start) as int) / 8) <= bytes@.len() - start);
        assert(start + 8 * n <= bytes@.len());
    }
    let mut data: Vec<u64> = Vec::new();
    let mut i: usize = 0;
    while i < n
        invariant
            i <= n,
            start + 8 * n <= bytes@.len(),
            bytes@.len() <= usize::MAX,
            data@ == sample_seq(bytes@, start as int, i as nat),
        decreases n - i,
    {
        data.push(read_le8(bytes, start + 8 * i));
        i = i + 1;
        proof {
            assert(data@ =~= sample_seq(bytes@, start as int, i as nat));
        }
    }
    let range = TileRange {
        pos: Vec2u { x: px, y: py },
        size: Vec2u { x: sx, y: sy },
    };
    proof {
        assert(dec_block(bytes@, pos + 9) matches Some((v, p)) && v == CacheValueV::Block(
            range,
            data@,
        ) && p == start + 8 * n);
    }
    RecordRead::Value(EnvValue::MapDomain(crate::map::CacheValue::Block(range, data)), start + 8
        * n)
}

// ---------------------------------------------------------------------------
// Key encoding (variable-width, outside the compressed stream)
// ---------------------------------------------------------------------------

/// The canonical serialization of a job configuration: the two size axes as
/// varints, the nine view-matrix entries and the base frequency as 64-bit
/// little-endian bit patterns, then the two curve tags as varints.
pub open spec fn enc_config(c: crate::map::Config) -> Seq<u8> {
    varint_of(c.size.x as u64) + varint_of(c.size.y as u64) + le8_of(c.view.m00) + le8_of(
        c.view.m01,
    ) + le8_of(c.view.m02) + le8_of(c.view.m10) + le8_of(c.view.m11) + le8_of(c.view.m12)
        + le8_of(c.view.m20) + le8_of(c.view.m21) + le8_of(c.view.m22) + le8_of(c.base_hz_bits)
        + varint_of(c.pitch.tag() as u64) + varint_of(c.overlap.tag() as u64)
}

/// The canonical serialization of an envelope key: the envelope's variant
/// tag as a varint, then the domain key.
pub open spec fn enc_env_key(k: crate::cache::CacheKey) -> Seq<u8> {
    match k {
        crate::cache::CacheKey::MapDomain(mk) => varint_of(0) + enc_config(mk.0),
    }
}

/// Serializes an envelope key to its canonical key bytes. Two keys share
/// cache state exactly when these bytes are equal.
pub fn encode_key(k: &crate::cache::CacheKey) -> (r: Vec<u8>)
    ensures
        r@ == enc_env_key(*k),
{
    let mut out: Vec<u8> = Vec::new();
    match k {
        crate::cache::CacheKey::MapDomain(mk) => {
            push_varint(&mut out, 0);
            let c = &mk.0;
            push_varint(&mut out, c.size.x as u64);
            push_varint(&mut out, c.size.y as u64);
            push_le8(&mut out, c.view.m00);
            push_le8(&mut out, c.view.m01);
            push_le8(&mut out, c.view.m02);
            push_le8(&mut out, c.view.m10);
            push_le8(&mut out, c.view.m11);
            push_le8(&mut out, c.view.m12);
            push_le8(&mut out, c.view.m20);
            push_le8(&mut out, c.view.m21);
            push_le8(&mut out, c.view.m22);
            push_le8(&mut out, c.base_hz_bits);
            push_varint(&mut out, c.pitch.tag_exec() as u64);
            push_varint(&mut out, c.overlap.tag_exec() as u64);
            proof {
                assert(out@ =~= enc_env_key(*k));
            }
        },
    }
    out
}

// ---------------------------------------------------------------------------
// Sessions: a run of records closed by the sentinel
// ---------------------------------------------------------------------------

/// Encoding of a run of records, in order.
pub open spec fn enc_records(vs: Seq<EnvValueV>) -> Seq<u8>
    decreases vs.len(),
{
    if vs.len() == 0 {
        Seq::empty()
    } else {
        enc_record(vs[0]) + enc_records(vs.drop_first())
    }
}

/// The plaintext of one write session: its records, then the sentinel.
pub open spec fn session_plain(vs: Seq<EnvValueV>) -> Seq<u8> {
    enc_records(vs) + sentinel()
}

/// Every value of the run is encodable.
pub open spec fn wf_values(vs: Seq<EnvValueV>) -> bool {
    forall|i: int| 0 <= i < vs.len() ==> wf_value(#[trigger] vs[i])
}

/// Result of parsing a session plaintext from some position: either the
/// sentinel was reached (with the records before it and the position after
/// it), or the stream broke first (with the records salvaged before the
/// break).
pub enum SessionParseV {
    Done(Seq<EnvValueV>, int),
    Corrupt(Seq<EnvValueV>),
}

/// Parses records until the sentinel, a decode failure, or the end.
pub open spec fn dec_session(bytes: Seq<u8>, pos: int) -> SessionParseV
    decreases bytes.len() - pos,
{
    match dec_record(bytes, pos) {
        RecordReadV::Sentinel(p) => SessionParseV::Done(Seq::empty(), p),
        RecordReadV::Value(v, p) => if pos < p <= bytes.len() {
            match dec_session(bytes, p) {
                SessionParseV::Done(vs, q) => SessionParseV::Done(seq![v] + vs, q),
                SessionParseV::Corrupt(vs) => SessionParseV::Corrupt(seq![v] + vs),
            }
        } else {
            SessionParseV::Corrupt(Seq::empty())
        },
        RecordReadV::Bad => SessionParseV::Corrupt(Seq::empty()),
    }
}

/// A complete session: the sentinel closes it and nothing trails it.
pub open spec fn session_complete(plain: Seq<u8>) -> bool {
    dec_session(plain, 0) matches SessionParseV::Done(_, p) && p == plain.len()
}

/// The records of a complete session.
pub open spec fn session_records(plain: Seq<u8>) -> Seq<EnvValueV> {
    match dec_session(plain, 0) {
        SessionParseV::Done(vs, _) => vs,
        SessionParseV::Corrupt(vs) => vs,
    }
}

/// Appending one record extends the run encoding on the right.
pub proof fn lemma_enc_records_snoc(vs: Seq<EnvValueV>, v: EnvValueV)
    ensures
        enc_records(vs.push(v)) == enc_records(vs) + enc_record(v),
    decreases vs.len(),
{
    if vs.len() == 0 {
        assert(vs.push(v).drop_first() =~= Seq::<EnvValueV>::empty());
        assert(vs.push(v)[0] == v);
        assert(enc_records(Seq::<EnvValueV>::empty()) == Seq::<u8>::empty());
        assert(enc_records(vs.push(v)) == enc_record(v) + Seq::<u8>::empty());
        assert(enc_record(v) + Seq::<u8>::empty() =~= enc_records(vs) + enc_record(v));
    } else {
        assert(vs.push(v).drop_first() =~= vs.drop_first().push(v));
        assert(vs.push(v)[0] == vs[0]);
        lemma_enc_records_snoc(vs.drop_first(), v);
        assert(enc_records(vs.push(v)) == enc_record(vs[0]) + (enc_records(vs.drop_first())
            + enc_record(v)));
        assert(enc_record(vs[0]) + (enc_records(vs.drop_first()) + enc_record(v)) =~= (enc_record(
            vs[0],
        ) + enc_records(vs.drop_first())) + enc_record(v));
    }
}

/// A session plaintext written by the encoder parses back to exactly the
/// records that were written, with the sentinel at its very end.
pub proof fn lemma_dec_session_of_enc(bytes: Seq<u8>, pos: int, vs: Seq<EnvValueV>)
    requires
        wf_values(vs),
        0 <= pos,
        pos + session_plain(vs).len() == bytes.len(),
        bytes.subrange(pos, bytes.len() as int) == session_plain(vs),
    ensures
        dec_session(bytes, pos) == SessionParseV::Done(vs, bytes.len() as int),
    decreases vs.len(),
{
    if vs.len() == 0 {
        assert(vs =~= Seq::<EnvValueV>::empty());
        assert(enc_records(vs) == Seq::<u8>::empty());
        assert(session_plain(vs) =~= seq![0u8]);
        assert(bytes[pos] == bytes.subrange(pos, bytes.len() as int)[0]);
        assert(bytes[pos] == 0u8);
        assert(pos + 1 == bytes.len());
    } else {
        let e0 = enc_record(vs[0]);
        let rest = vs.drop_first();
        assert(enc_records(vs) == e0 + enc_records(rest));
        assert(session_plain(vs) =~= e0 + session_plain(rest));
        assert(wf_values(rest)) by {
            assert(forall|i: int| 0 <= i < rest.len() ==> rest[i] == vs[i + 1]);
        }
        assert(bytes.subrange(pos, pos + e0.len() as int) =~= e0) by {
            assert(forall|k: int| 0 <= k < e0.len() ==> bytes.subrange(pos, bytes.len() as int)[k]
                == session_plain(vs)[k]);
        }
        lemma_dec_of_enc_record(bytes, pos, vs[0]);
        let p = pos + e0.len() as int;
        assert forall|k: int| 0 <= k < session_plain(rest).len() implies bytes.subrange(
            p,
            bytes.len() as int,
        )[k] == session_plain(rest)[k] by {
            assert(bytes.subrange(p, bytes.len() as int)[k] == bytes[p + k]);
            assert(bytes[p + k] == bytes.subrange(pos, bytes.len() as int)[e0.len() + k]);
            assert(bytes.subrange(pos, bytes.len() as int)[e0.len() + k] == session_plain(
                vs,
            )[e0.len() + k]);
            assert((e0 + session_plain(rest))[e0.len() + k] == session_plain(rest)[k]);
        }
        assert(bytes.subrange(p, bytes.len() as int) =~= session_plain(rest));
        lemma_dec_session_of_enc(bytes, p, rest);
        assert(seq![vs[0]] + rest =~= vs);
    }
}

/// If eight bytes at `p` spell `le8_of(x)`, the value read there is `x`.
proof fn lemma_le8_at_of(bytes: Seq<u8>, p: int, x: u64)
    requires
        0 <= p,
        p + 8 <= bytes.len(),
        forall|j: int| 0 <= j < 8 ==> bytes[p + j] == le8_of(x)[j],
    ensures
        le8_at(bytes, p) == x,
{
    lemma_le8_roundtrip(x);
    assert(bytes[p + 0] == le8_of(x)[0]);
    assert(bytes[p + 1] == le8_of(x)[1]);
    assert(bytes[p + 2] == le8_of(x)[2]);
    assert(bytes[p + 3] == le8_of(x)[3]);
    assert(bytes[p + 4] == le8_of(x)[4]);
    assert(bytes[p + 5] == le8_of(x)[5]);
    assert(bytes[p + 6] == le8_of(x)[6]);
    assert(bytes[p + 7] == le8_of(x)[7]);
}

/// If four bytes at `p` spell `le4_of(x)`, the value read there is `x`.
proof fn lemma_le4_at_of(bytes: Seq<u8>, p: int, x: u32)
    requires
        0 <= p,
        p + 4 <= bytes.len(),
        forall|j: int| 0 <= j < 4 ==> bytes[p + j] == le4_of(x)[j],
    ensures
        le4_at(bytes, p) == x,
{
    lemma_le4_roundtrip(x);
    assert(bytes[p + 0] == le4_of(x)[0]);
    assert(bytes[p + 1] == le4_of(x)[1]);
    assert(bytes[p + 2] == le4_of(x)[2]);
    assert(bytes[p + 3] == le4_of(x)[3]);
}

/// Decoding reads back exactly the record that was encoded, wherever it
/// stands in the stream: the codec round-trips.
pub proof fn lemma_dec_of_enc_record(bytes: Seq<u8>, pos: int, v: EnvValueV)
    requires
        0 <= pos,
        wf_value(v),
        pos + enc_record(v).len() <= bytes.len(),
        bytes.subrange(pos, pos + enc_record(v).len() as int) == enc_record(v),
    ensures
        dec_record(bytes, pos) == RecordReadV::Value(v, pos + enc_record(v).len()),
{
    let e = enc_record(v);
    let l = e.len() as int;
    assert forall|k: int| 0 <= k < l implies bytes[pos + k] == e[k] by {
        assert(bytes.subrange(pos, pos + l)[k] == e[k]);
    }
    match v {
        EnvValueV::MapDomain(inner) => {
            match inner {
                CacheValueV::Block(range, data) => {
                    lemma_enc_samples_len(data);
                    let n = data.len() as int;
                    assert(l == 33 + 8 * n);
                    assert(bytes[pos + 0] == e[0]);
                    assert(e[0] == (seq![1u8] + enc_env_value(v))[0]);
                    assert(bytes[pos] == 1u8);
                    // Envelope tag.
                    assert forall|j: int| 0 <= j < 4 implies bytes[pos + 1 + j] == le4_of(0u32)[j]
                        by {
                        assert(bytes[pos + (1 + j)] == e[1 + j]);
                    }
                    lemma_le4_at_of(bytes, pos + 1, 0u32);
                    // Domain tag.
                    assert forall|j: int| 0 <= j < 4 implies bytes[pos + 5 + j] == le4_of(0u32)[j]
                        by {
                        assert(bytes[pos + (5 + j)] == e[5 + j]);
                    }
                    lemma_le4_at_of(bytes, pos + 5, 0u32);
                    // Range fields.
                    assert forall|j: int| 0 <= j < 4 implies bytes[pos + 9 + j] == le4_of(
                        range.pos.x,
                    )[j] by {
                        assert(bytes[pos + (9 + j)] == e[9 + j]);
                    }
                    lemma_le4_at_of(bytes, pos + 9, range.pos.x);
                    assert forall|j: int| 0 <= j < 4 implies bytes[pos + 13 + j] == le4_of(
                        range.pos.y,
                    )[j] by {
                        assert(bytes[pos + (13 + j)] == e[13 + j]);
                    }
                    lemma_le4_at_of(bytes, pos + 13, range.pos.y);
                    assert forall|j: int| 0 <= j < 4 implies bytes[pos + 17 + j] == le4_of(
                        range.size.x,
                    )[j] by {
                        assert(bytes[pos + (17 + j)] == e[17 + j]);
                    }
                    lemma_le4_at_of(bytes, pos + 17, range.size.x);
                    assert forall|j: int| 0 <= j < 4 implies bytes[pos + 21 + j] == le4_of(
                        range.size.y,
                    )[j] by {
                        assert(bytes[pos + (21 + j)] == e[21 + j]);
                    }
                    lemma_le4_at_of(bytes, pos + 21, range.size.y);
                    // Sample count.
                    assert forall|j: int| 0 <= j < 8 implies #[trigger] bytes[pos + 25 + j]
                        == le8_of(data.len() as u64)[j] by {
                        assert(bytes[pos + (25 + j)] == e[25 + j]);
                    }
                    lemma_le8_at_of(bytes, pos + 25, data.len() as u64);
                    // Samples.
                    assert forall|i: int| 0 <= i < n implies le8_at(bytes, pos + 33 + 8 * i)
                        == data[i] by {
                        lemma_enc_samples_index(data, i);
                        assert forall|j: int| 0 <= j < 8 implies bytes[pos + 33 + 8 * i + j]
                            == le8_of(data[i])[j] by {
                            assert(bytes[pos + (33 + 8 * i + j)] == e[33 + 8 * i + j]);
                            assert(e[33 + 8 * i + j] == enc_samples(data)[8 * i + j]);
                            assert(enc_samples(data).subrange(8 * i, 8 * i + 8)[j] == enc_samples(
                                data,
                            )[8 * i + j]);
                        }
                        lemma_le8_at_of(bytes, pos + 33 + 8 * i, data[i]);
                    }
                    assert(sample_seq(bytes, pos + 33, data.len()) =~= data);
                    assert(dec_block(bytes, pos + 9) == Some((inner, pos + l)));
                    assert(dec_record(bytes, pos) == RecordReadV::Value(v, pos + l));
                },
                CacheValueV::Histogram => {
                    assert(bytes[pos + 0] == e[0]);
                    assert(e[0] == (seq![1u8] + enc_env_value(v))[0]);
                    assert(bytes[pos] == 1u8);
                    assert forall|j: int| 0 <= j < 4 implies bytes[pos + 1 + j] == le4_of(0u32)[j]
                        by {
                        assert(bytes[pos + (1 + j)] == e[1 + j]);
                    }
                    lemma_le4_at_of(bytes, pos + 1, 0u32);
                    assert forall|j: int| 0 <= j < 4 implies bytes[pos + 5 + j] == le4_of(1u32)[j]
                        by {
                        assert(bytes[pos + (5 + j)] == e[5 + j]);
                    }
                    lemma_le4_at_of(bytes, pos + 5, 1u32);
                    assert(dec_record(bytes, pos) == RecordReadV::Value(v, pos + l));
                },
            }
        },
    }
}

/// The bytes of sample `i` inside the sample encoding.
pub proof fn lemma_enc_samples_index(s: Seq<u64>, i: int)
    requires
        0 <= i < s.len(),
    ensures
        enc_samples(s).subrange(8 * i, 8 * i + 8) == le8_of(s[i]),
    decreases s.len(),
{
    lemma_enc_samples_len(s);
    lemma_enc_samples_len(s.drop_first());
    if i == 0 {
        assert(enc_samples(s).subrange(0, 8) =~= le8_of(s[0]));
    } else {
        lemma_enc_samples_index(s.drop_first(), i - 1);
        assert(enc_samples(s).subrange(8 * i, 8 * i + 8) =~= enc_samples(s.drop_first()).subrange(
            8 * (i - 1),
            8 * (i - 1) + 8,
        ));
    }
}

} // verus!
