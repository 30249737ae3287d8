//! The file-backed cache: magic header, fingerprint-to-path mapping, the
//! compressed frame layer, and the per-key entry state machine over an
//! in-memory image of the entry file. The binary owns the actual file
//! handles and locks; it loads an entry's bytes, drives the state machine,
//! and writes the resulting image back.

use vstd::prelude::*;

use crate::cache::CacheError;
use crate::cache::CacheKey as EnvKey;
use crate::cache::CacheValue as EnvValue;
use crate::cache::CacheValueV as EnvValueV;
use crate::codec::{
    decode_record, dec_session, enc_env_key, enc_record, enc_records, encode_key,
    encode_record, encode_sentinel, lemma_dec_session_of_enc, lemma_enc_records_snoc, sentinel,
    session_complete, session_plain, session_records, wf_value, wf_values, RecordRead,
    SessionParseV,
};

verus! {

/// The five magic bytes that open every cache file: `\0diss`.
pub open spec fn global_magic() -> Seq<u8> {
    seq![0u8, 100u8, 105u8, 115u8, 115u8]
}

/// The full magic header for a given version string: the five global magic
/// bytes, one length byte, then the version bytes.
pub open spec fn magic_of(version: Seq<u8>) -> Seq<u8> {
    global_magic() + seq![version.len() as u8] + version
}

/// The full header of an entry file: the magic, then the serialized key
/// bytes (kept for tamper detection).
pub open spec fn header_of(version: Seq<u8>, key: Seq<u8>) -> Seq<u8> {
    magic_of(version) + key
}

/// Builds the magic header: `\0diss`, a one-byte length prefix, then the
/// version bytes.
pub fn magic(version: &Vec<u8>) -> (r: Vec<u8>)
    requires
        version@.len() < 256,
    ensures
        r@ == magic_of(version@),
{
    let mut out: Vec<u8> = Vec::new();
    out.push(0u8);
    out.push(100u8);
    out.push(105u8);
    out.push(115u8);
    out.push(115u8);
    out.push(version.len() as u8);
    let mut i: usize = 0;
    while i < version.len()
        invariant
            i <= version@.len(),
            version@.len() < 256,
            out@ == global_magic() + seq![version@.len() as u8] + version@.take(i as int),
        decreases version@.len() - i,
    {
        out.push(version[i]);
        i = i + 1;
        proof {
            assert(out@ =~= global_magic() + seq![version@.len() as u8] + version@.take(i as int));
        }
    }
    proof {
        assert(version@.take(version@.len() as int) == version@);
    }
    out
}

// ---------------------------------------------------------------------------
// Outside calls: compression and the fingerprint hash
// ---------------------------------------------------------------------------

/// The zstd frame that compressing `plain` at the default level produces.
pub uninterp spec fn zstd_frame_of(plain: Seq<u8>) -> Seq<u8>;

/// What decoding the first zstd frame of `bytes` yields: the decoded bytes
/// (partial if the frame breaks off), the count of input bytes the frame
/// used, and whether the frame decoded completely.
pub uninterp spec fn zstd_first_frame(bytes: Seq<u8>) -> (Seq<u8>, int, bool);

/// The SHA-256 digest of `bytes`.
pub uninterp spec fn sha256_of(bytes: Seq<u8>) -> Seq<u8>;

/// Relies on `zstd::stream::encode_all` at level 0: compression of a byte
/// string is a pure function of it (the bundled single-threaded codec), the
/// result is one non-empty zstd frame, and the frame format is
/// self-delimiting, so decoding any stream that starts with this frame
/// yields exactly `plain` again and consumes exactly this frame. In-memory
/// compression cannot fail short of exhausting memory; that path panics.
#[verifier::external_body]
fn zstd_compress(plain: &[u8]) -> (r: Vec<u8>)
    ensures
        r@ == zstd_frame_of(plain@),
        r@.len() >= 1,
        forall|rest: Seq<u8>|
            #[trigger] zstd_first_frame(r@ + rest) == (plain@, r@.len() as int, true),
{
    zstd::stream::encode_all(std::io::Cursor::new(plain), 0).expect("in-memory compression failed")
}

/// Relies on `zstd::stream::read::Decoder` in single-frame mode over an
/// in-memory buffer: it decodes exactly the first frame, reports how many
/// input bytes that frame used, and on a broken frame hands back whatever
/// bytes were already decoded (`std::io::Read::read_to_end` keeps them).
#[verifier::external_body]
fn zstd_read_frame(bytes: &[u8]) -> (r: (Vec<u8>, usize, bool))
    ensures
        (r.0@, r.1 as int, r.2) == zstd_first_frame(bytes@),
        r.1 <= bytes@.len(),
{
    let cur = std::io::Cursor::new(bytes);
    match zstd::stream::read::Decoder::with_buffer(cur) {
        Ok(dec) => {
            let mut dec = dec.single_frame();
            let mut out = Vec::new();
            let ok = std::io::Read::read_to_end(&mut dec, &mut out).is_ok();
            let used = dec.finish().position() as usize;
            (out, used.min(bytes.len()), ok)
        },
        Err(_) => (Vec::new(), 0, false),
    }
}

/// Relies on `sha2::Sha256`: the digest is a pure function of the input and
/// is 32 bytes long.
#[verifier::external_body]
fn sha256(bytes: &[u8]) -> (r: Vec<u8>)
    ensures
        r@ == sha256_of(bytes@),
        r@.len() == 32,
{
    <sha2::Sha256 as sha2::Digest>::digest(bytes).to_vec()
}

// ---------------------------------------------------------------------------
// Fingerprint-to-path mapping
// ---------------------------------------------------------------------------

/// The ASCII code of a lowercase hex digit.
pub open spec fn hex_digit(n: u8) -> u8 {
    if n < 10 {
        (48 + n) as u8
    } else {
        (87 + n) as u8
    }
}

/// The two lowercase hex digits of a byte.
pub open spec fn hex_byte(b: u8) -> Seq<u8> {
    seq![hex_digit(b / 16), hex_digit((b % 16) as u8)]
}

/// The lowercase hex rendering of a byte string.
pub open spec fn hex_of(s: Seq<u8>) -> Seq<u8>
    decreases s.len(),
{
    if s.len() == 0 {
        Seq::empty()
    } else {
        hex_byte(s[0]) + hex_of(s.drop_first())
    }
}

/// Appending one byte extends the hex rendering by its two digits.
pub proof fn lemma_hex_of_snoc(s: Seq<u8>, b: u8)
    ensures
        hex_of(s.push(b)) == hex_of(s) + hex_byte(b),
    decreases s.len(),
{
    if s.len() == 0 {
        assert(s.push(b).drop_first() =~= Seq::<u8>::empty());
        assert(s.push(b)[0] == b);
        assert(hex_of(Seq::<u8>::empty()) == Seq::<u8>::empty());
        assert(hex_of(s.push(b)) == hex_byte(b) + Seq::<u8>::empty());
        assert(hex_byte(b) + Seq::<u8>::empty() =~= hex_of(s) + hex_byte(b));
    } else {
        assert(s.push(b).drop_first() =~= s.drop_first().push(b));
        assert(s.push(b)[0] == s[0]);
        lemma_hex_of_snoc(s.drop_first(), b);
        assert(hex_of(s.push(b)) == hex_byte(s[0]) + (hex_of(s.drop_first()) + hex_byte(b)));
        assert(hex_byte(s[0]) + (hex_of(s.drop_first()) + hex_byte(b)) =~= (hex_byte(s[0]) + hex_of(
            s.drop_first(),
        )) + hex_byte(b));
    }
}

/// Renders one byte as two lowercase hex digits.
fn push_hex_byte(out: &mut Vec<u8>, b: u8)
    ensures
        final(out)@ == old(out)@ + hex_byte(b),
{
    let hi = b / 16;
    let lo = b % 16;
    out.push(if hi < 10 { 48 + hi } else { 87 + hi });
    out.push(if lo < 10 { 48 + lo } else { 87 + lo });
    proof {
        assert(out@ =~= old(out)@ + hex_byte(b));
    }
}

/// Splits a fingerprint into the cache's two path components: the first
/// byte as a two-digit hex directory name, the remaining bytes as the hex
/// file name.
pub fn file_name(hash: &Vec<u8>) -> (r: (Vec<u8>, Vec<u8>))
    requires
        hash@.len() >= 1,
    ensures
        r.0@ == hex_byte(hash@[0]),
        r.1@ == hex_of(hash@.drop_first()),
{
    let mut dir: Vec<u8> = Vec::new();
    push_hex_byte(&mut dir, hash[0]);
    let mut file: Vec<u8> = Vec::new();
    let ghost rest = hash@.drop_first();
    let mut i: usize = 1;
    while i < hash.len()
        invariant
            1 <= i <= hash@.len(),
            rest == hash@.drop_first(),
            file@ == hex_of(rest.take(i - 1)),
        decreases hash@.len() - i,
    {
        push_hex_byte(&mut file, hash[i]);
        i = i + 1;
        proof {
            assert(rest.take(i - 1) == rest.take(i - 2).push(rest[i - 2]));
            assert(rest[i - 2] == hash@[i - 1]);
            lemma_hex_of_snoc(rest.take(i - 2), rest[i - 2]);
        }
    }
    proof {
        assert(rest.take(rest.len() as int) == rest);
    }
    (dir, file)
}

// ---------------------------------------------------------------------------
// The payload region: a chain of compressed sessions
// ---------------------------------------------------------------------------

/// What the compressor's contract promises of one frame `f` holding the
/// plaintext `plain`: it is non-empty, and decoding any stream that starts
/// with it yields `plain` and consumes exactly `f`.
pub open spec fn frame_facts(f: Seq<u8>, plain: Seq<u8>) -> bool {
    &&& f.len() >= 1
    &&& forall|rest: Seq<u8>| #[trigger] zstd_first_frame(f + rest) == (plain, f.len() as int, true)
}

/// The records of a run of sessions, in file order.
pub open spec fn flatten_sessions(ss: Seq<Seq<EnvValueV>>) -> Seq<EnvValueV>
    decreases ss.len(),
{
    if ss.len() == 0 {
        Seq::empty()
    } else {
        ss[0] + flatten_sessions(ss.drop_first())
    }
}

/// The payload region consists exactly of the frames of these sessions,
/// each a complete compressed session written by this library.
pub open spec fn clean_chain(payload: Seq<u8>, ss: Seq<Seq<EnvValueV>>) -> bool
    decreases ss.len(),
{
    if ss.len() == 0 {
        payload.len() == 0
    } else {
        let plain = session_plain(ss[0]);
        let f = zstd_frame_of(plain);
        &&& wf_values(ss[0])
        &&& frame_facts(f, plain)
        &&& f.len() <= payload.len()
        &&& payload.take(f.len() as int) == f
        &&& clean_chain(payload.skip(f.len() as int), ss.drop_first())
    }
}

/// The parse of a payload region: the records of its complete leading
/// sessions plus what could be salvaged from a broken trailing one, whether
/// the whole region was clean, how many bytes the complete sessions cover,
/// and the salvaged records alone.
pub struct PayloadParse {
    pub records: Seq<EnvValueV>,
    pub clean: bool,
    pub good_len: int,
    pub salvage: Seq<EnvValueV>,
}

/// Parses a payload region frame by frame. A frame that decodes completely
/// to a sentinel-closed session with nothing trailing is good; the first
/// frame that is not ends the parse, salvaging the records decoded before
/// the break.
pub open spec fn dec_payload(payload: Seq<u8>) -> PayloadParse
    decreases payload.len(),
{
    if payload.len() == 0 {
        PayloadParse { records: Seq::empty(), clean: true, good_len: 0, salvage: Seq::empty() }
    } else {
        let fr = zstd_first_frame(payload);
        if fr.2 && 1 <= fr.1 <= payload.len() && session_complete(fr.0) {
            let rest = dec_payload(payload.skip(fr.1));
            PayloadParse {
                records: session_records(fr.0) + rest.records,
                clean: rest.clean,
                good_len: fr.1 + rest.good_len,
                salvage: rest.salvage,
            }
        } else {
            PayloadParse {
                records: session_records(fr.0),
                clean: false,
                good_len: 0,
                salvage: session_records(fr.0),
            }
        }
    }
}

/// A payload written as a clean chain of sessions parses back to exactly
/// the records of those sessions, in order, with nothing salvaged and
/// nothing left over.
pub proof fn lemma_clean_chain_parses(payload: Seq<u8>, ss: Seq<Seq<EnvValueV>>)
    requires
        clean_chain(payload, ss),
    ensures
        dec_payload(payload).clean,
        dec_payload(payload).records == flatten_sessions(ss),
        dec_payload(payload).good_len == payload.len(),
    decreases ss.len(),
{
    if ss.len() == 0 {
        assert(flatten_sessions(ss) =~= Seq::<EnvValueV>::empty());
    } else {
        let plain = session_plain(ss[0]);
        let f = zstd_frame_of(plain);
        let rest = payload.skip(f.len() as int);
        assert(payload =~= f + rest);
        assert(zstd_first_frame(f + rest) == (plain, f.len() as int, true));
        assert(plain.subrange(0, plain.len() as int) =~= plain);
        lemma_dec_session_of_enc(plain, 0, ss[0]);
        assert(session_complete(plain));
        assert(session_records(plain) == ss[0]);
        lemma_clean_chain_parses(rest, ss.drop_first());
        assert(dec_payload(payload).records =~= flatten_sessions(ss));
    }
}

/// Appending one freshly compressed complete session keeps a chain clean.
pub proof fn lemma_clean_chain_snoc(payload: Seq<u8>, ss: Seq<Seq<EnvValueV>>, vs: Seq<EnvValueV>)
    requires
        clean_chain(payload, ss),
        wf_values(vs),
        frame_facts(zstd_frame_of(session_plain(vs)), session_plain(vs)),
    ensures
        clean_chain(payload + zstd_frame_of(session_plain(vs)), ss.push(vs)),
    decreases ss.len(),
{
    let f = zstd_frame_of(session_plain(vs));
    let whole = payload + f;
    if ss.len() == 0 {
        assert(whole =~= f);
        assert(ss.push(vs)[0] == vs);
        assert(f.take(f.len() as int) =~= f);
        assert(f.skip(f.len() as int) =~= Seq::<u8>::empty());
        assert(ss.push(vs).drop_first() =~= Seq::<Seq<EnvValueV>>::empty());
        assert(clean_chain(Seq::<u8>::empty(), Seq::<Seq<EnvValueV>>::empty()));
        assert(clean_chain(whole.skip(f.len() as int), ss.push(vs).drop_first()));
    } else {
        let plain0 = session_plain(ss[0]);
        let f0 = zstd_frame_of(plain0);
        assert(ss.push(vs)[0] == ss[0]);
        assert(whole.take(f0.len() as int) =~= payload.take(f0.len() as int));
        assert(whole.skip(f0.len() as int) =~= payload.skip(f0.len() as int) + f);
        lemma_clean_chain_snoc(payload.skip(f0.len() as int), ss.drop_first(), vs);
        assert(ss.push(vs).drop_first() =~= ss.drop_first().push(vs));
        assert(clean_chain(whole.skip(f0.len() as int), ss.push(vs).drop_first()));
    }
}

// ---------------------------------------------------------------------------
// The per-key entry state machine
// ---------------------------------------------------------------------------

/// The view of a run of decoded values.
pub open spec fn seq_views(s: Seq<EnvValue>) -> Seq<EnvValueV> {
    s.map_values(|v: EnvValue| v@)
}

enum EntryState {
    /// No bytes loaded yet; only the key is known.
    Unopened { version: Vec<u8>, key_bytes: Vec<u8> },
    /// The file image is loaded and its header verified.
    Open { version: Vec<u8>, key_bytes: Vec<u8>, file: Vec<u8> },
    /// A write session is in progress: `session` is its plaintext so far,
    /// encoding exactly the records of `pending`. When `chain_clean` holds,
    /// the payload already in `file` is a clean chain of the `chain`
    /// sessions (it was written by this handle, not loaded from outside).
    Streaming {
        version: Vec<u8>,
        key_bytes: Vec<u8>,
        file: Vec<u8>,
        session: Vec<u8>,
        pending: Ghost<Seq<EnvValueV>>,
        chain: Ghost<Seq<Seq<EnvValueV>>>,
        chain_clean: Ghost<bool>,
    },
    /// Terminal: the handle was finished and may not be used again.
    Closed,
}

/// A per-key cache entry over an in-memory image of its file. The binary
/// loads the file's bytes into it, drives reads, appends and truncation,
/// and persists the image that `finish` hands back.
pub struct FileCacheEntry {
    state: EntryState,
}

impl FileCacheEntry {
    pub closed spec fn is_unopened(&self) -> bool {
        self.state is Unopened
    }

    pub closed spec fn is_open(&self) -> bool {
        self.state is Open
    }

    pub closed spec fn is_streaming(&self) -> bool {
        self.state is Streaming
    }

    pub closed spec fn is_closed(&self) -> bool {
        self.state is Closed
    }

    /// The version bytes this entry stamps into and expects in headers.
    pub closed spec fn version(&self) -> Seq<u8> {
        match self.state {
            EntryState::Unopened { version, .. } => version@,
            EntryState::Open { version, .. } => version@,
            EntryState::Streaming { version, .. } => version@,
            EntryState::Closed => Seq::empty(),
        }
    }

    /// The serialized key bytes of this entry.
    pub closed spec fn key_bytes(&self) -> Seq<u8> {
        match self.state {
            EntryState::Unopened { key_bytes, .. } => key_bytes@,
            EntryState::Open { key_bytes, .. } => key_bytes@,
            EntryState::Streaming { key_bytes, .. } => key_bytes@,
            EntryState::Closed => Seq::empty(),
        }
    }

    /// The header this entry's file must carry.
    pub open spec fn header(&self) -> Seq<u8> {
        header_of(self.version(), self.key_bytes())
    }

    /// The whole file image.
    pub closed spec fn file_bytes(&self) -> Seq<u8> {
        match self.state {
            EntryState::Open { file, .. } => file@,
            EntryState::Streaming { file, .. } => file@,
            _ => Seq::empty(),
        }
    }

    /// The payload region of the file image (everything after the header).
    pub open spec fn payload(&self) -> Seq<u8> {
        if self.file_bytes().len() >= self.header().len() {
            self.file_bytes().skip(self.header().len() as int)
        } else {
            Seq::empty()
        }
    }

    /// The records of the write session in progress.
    pub closed spec fn pending(&self) -> Seq<EnvValueV> {
        match self.state {
            EntryState::Streaming { pending, .. } => pending@,
            _ => Seq::empty(),
        }
    }

    /// The sessions already compressed into the file, where known.
    pub closed spec fn chain(&self) -> Seq<Seq<EnvValueV>> {
        match self.state {
            EntryState::Streaming { chain, .. } => chain@,
            _ => Seq::empty(),
        }
    }

    /// Whether the file's payload is known to be a clean chain written by
    /// this handle.
    pub closed spec fn chain_clean(&self) -> bool {
        match self.state {
            EntryState::Streaming { chain_clean, .. } => chain_clean@,
            _ => false,
        }
    }

    /// The records this entry holds: what its payload parses to, plus the
    /// session in progress.
    pub open spec fn records(&self) -> Seq<EnvValueV> {
        dec_payload(self.payload()).records + self.pending()
    }

    /// Structural well-formedness: the version fits its length byte, the
    /// file starts with the header, the session plaintext encodes exactly
    /// the pending records, and a clean chain matches the payload.
    pub closed spec fn wf(&self) -> bool {
        match self.state {
            EntryState::Unopened { version, .. } => version@.len() < 256,
            EntryState::Open { version, file, .. } => {
                &&& version@.len() < 256
                &&& file@.len() >= self.header().len()
                &&& file@.take(self.header().len() as int) == self.header()
            },
            EntryState::Streaming { version, file, session, pending, chain, chain_clean, .. } => {
                &&& version@.len() < 256
                &&& file@.len() >= self.header().len()
                &&& file@.take(self.header().len() as int) == self.header()
                &&& session@ == enc_records(pending@)
                &&& wf_values(pending@)
                &&& (chain_clean@ ==> clean_chain(self.payload(), chain@))
            },
            EntryState::Closed => true,
        }
    }

    /// A fresh handle for the given key under the given version: no file
    /// bytes are touched until it is used.
    pub fn new(version: Vec<u8>, key_bytes: Vec<u8>) -> (r: Self)
        requires
            version@.len() < 256,
        ensures
            r.wf(),
            r.is_unopened(),
            r.version() == version@,
            r.key_bytes() == key_bytes@,
    {
        FileCacheEntry { state: EntryState::Unopened { version, key_bytes } }
    }

    /// Loads a file image into an unopened entry, verifying its header: the
    /// magic (with the version) and the embedded key bytes must match
    /// exactly. On any mismatch the bytes are rejected and the entry stays
    /// unopened, so a byte mutation anywhere inside the magic or key region
    /// makes the load fail before any record is decoded.
    pub fn open(&mut self, bytes: Vec<u8>) -> (r: Result<(), CacheError>)
        requires
            old(self).wf(),
            old(self).is_unopened(),
        ensures
            final(self).wf(),
            final(self).version() == old(self).version(),
            final(self).key_bytes() == old(self).key_bytes(),
            r is Ok <==> bytes@.len() >= old(self).header().len() && bytes@.take(
                old(self).header().len() as int,
            ) == old(self).header(),
            r is Ok ==> final(self).is_open() && final(self).file_bytes() == bytes@,
            r is Err ==> final(self).is_unopened(),
            r matches Err(e) ==> (e is TooShort || e is MagicMismatch || e is KeyMismatch),
    {
        let ghost h = old(self).header();
        let mut st = EntryState::Closed;
        core::mem::swap(&mut st, &mut self.state);
        match st {
            EntryState::Unopened { version, key_bytes } => {
                let m = magic(&version);
                if bytes.len() < m.len() || bytes.len() - m.len() < key_bytes.len() {
                    self.state = EntryState::Unopened { version, key_bytes };
                    proof {
                        assert(h.len() == m@.len() + key_bytes@.len());
                    }
                    return Err(CacheError::TooShort);
                }
                proof {
                    assert(h == m@ + key_bytes@);
                }
                let mut i: usize = 0;
                while i < m.len()
                    invariant
                        i <= m@.len(),
                        h == m@ + key_bytes@,
                        h == old(self).header(),
                        version@.len() < 256,
                        old(self).version() == version@,
                        old(self).key_bytes() == key_bytes@,
                        m@.len() + key_bytes@.len() <= bytes@.len() <= usize::MAX,
                        forall|j: int| 0 <= j < i ==> bytes@[j] == m@[j],
                    decreases m@.len() - i,
                {
                    if bytes[i] != m[i] {
                        let ghost bad = i as int;
                        self.state = EntryState::Unopened { version, key_bytes };
                        proof {
                            assert(bytes@.take(h.len() as int) != h) by {
                                assert(h[bad] == m@[bad]);
                                assert(bytes@.take(h.len() as int)[bad] == bytes@[bad]);
                            }
                        }
                        return Err(CacheError::MagicMismatch);
                    }
                    i = i + 1;
                }
                let mut k: usize = 0;
                while k < key_bytes.len()
                    invariant
                        k <= key_bytes@.len(),
                        h == m@ + key_bytes@,
                        h == old(self).header(),
                        version@.len() < 256,
                        old(self).version() == version@,
                        old(self).key_bytes() == key_bytes@,
                        m@.len() + key_bytes@.len() <= bytes@.len() <= usize::MAX,
                        forall|j: int| 0 <= j < k ==> bytes@[m@.len() + j] == key_bytes@[j],
                    decreases key_bytes@.len() - k,
                {
                    if bytes[m.len() + k] != key_bytes[k] {
                        let ghost mlen = m@.len() as int;
                        let ghost bad = k as int;
                        self.state = EntryState::Unopened { version, key_bytes };
                        proof {
                            assert(bytes@.take(h.len() as int) != h) by {
                                assert(h[mlen + bad] == key_bytes@[bad]);
                                assert(bytes@.take(h.len() as int)[mlen + bad] == bytes@[mlen
                                    + bad]);
                            }
                        }
                        return Err(CacheError::KeyMismatch);
                    }
                    k = k + 1;
                }
                proof {
                    assert(bytes@.take(h.len() as int) =~= h);
                }
                self.state = EntryState::Open { version, key_bytes, file: bytes };
                Ok(())
            },
            _ => {
                proof {
                    assert(false);
                }
                Err(CacheError::Closed)
            },
        }
    }
}

impl FileCacheEntry {
    /// Decodes every record of the loaded file, in order. On a clean file
    /// the entry stays open and unchanged. On a corrupt tail the good
    /// leading sessions are kept, the records salvaged from the broken one
    /// are still returned, the file image is truncated to the start of the
    /// broken frame, and the entry moves to streaming with the salvaged
    /// records re-encoded as the new session, so the next append continues
    /// from a clean point. Reads on an unopened or already-streaming entry
    /// yield nothing and change nothing.
    pub fn read(&mut self) -> (r: Vec<EnvValue>)
        requires
            old(self).wf(),
            !old(self).is_closed(),
        ensures
            final(self).wf(),
            !final(self).is_closed(),
            final(self).version() == old(self).version(),
            final(self).key_bytes() == old(self).key_bytes(),
            !old(self).is_open() ==> (r@.len() == 0
                && final(self).is_unopened() == old(self).is_unopened()
                && final(self).is_streaming() == old(self).is_streaming()
                && final(self).file_bytes() == old(self).file_bytes()
                && final(self).pending() == old(self).pending()
                && final(self).chain() == old(self).chain()
                && final(self).chain_clean() == old(self).chain_clean()),
            old(self).is_open() ==> seq_views(r@) == dec_payload(old(self).payload()).records,
            old(self).is_open() && dec_payload(old(self).payload()).clean ==> (
                final(self).is_open()
                && final(self).file_bytes() == old(self).file_bytes()),
            old(self).is_open() && !dec_payload(old(self).payload()).clean ==> (
            final(self).is_streaming() && final(self).file_bytes() == old(self).file_bytes().take(
                old(self).header().len() + dec_payload(old(self).payload()).good_len,
            ) && final(self).pending() == dec_payload(old(self).payload()).salvage
                && !final(self).chain_clean()),
    {
        let mut st = EntryState::Closed;
        core::mem::swap(&mut st, &mut self.state);
        match st {
            EntryState::Unopened { version, key_bytes } => {
                self.state = EntryState::Unopened { version, key_bytes };
                Vec::new()
            },
            EntryState::Streaming { version, key_bytes, file, session, pending, chain, chain_clean } => {
                self.state = EntryState::Streaming {
                    version,
                    key_bytes,
                    file,
                    session,
                    pending,
                    chain,
                    chain_clean,
                };
                Vec::new()
            },
            EntryState::Open { version, key_bytes, mut file } => {
                proof {
                    assert(old(self).header().len() == 6 + version@.len() + key_bytes@.len());
                }
                let flen = file.len();
                let hlen: usize = 6 + version.len() + key_bytes.len();
                let ghost full = file@.skip(hlen as int);
                let mut acc: Vec<EnvValue> = Vec::new();
                let mut offset: usize = hlen;
                loop
                    invariant
                        hlen <= offset <= file@.len() <= usize::MAX,
                        old(self).is_open(),
                        hlen == old(self).header().len(),
                        version@.len() < 256,
                        version@ == old(self).version(),
                        key_bytes@ == old(self).key_bytes(),
                        file@ == old(self).file_bytes(),
                        file@.take(hlen as int) == old(self).header(),
                        full == old(self).payload(),
                        dec_payload(full).records == seq_views(acc@) + dec_payload(
                            file@.skip(offset as int),
                        ).records,
                        dec_payload(full).clean == dec_payload(file@.skip(offset as int)).clean,
                        dec_payload(full).good_len == offset - hlen + dec_payload(
                            file@.skip(offset as int),
                        ).good_len,
                        dec_payload(full).salvage == dec_payload(file@.skip(offset as int)).salvage,
                    decreases file@.len() - offset,
                {
                    let ghost rem = file@.skip(offset as int);
                    if offset == file.len() {
                        proof {
                            assert(rem =~= Seq::<u8>::empty());
                            assert(seq_views(acc@) + Seq::<EnvValueV>::empty() =~= seq_views(acc@));
                        }
                        self.state = EntryState::Open { version, key_bytes, file };
                        return acc;
                    }
                    let sub = vstd::slice::slice_subrange(file.as_slice(), offset, file.len());
                    let fr = zstd_read_frame(sub);
                    let (plain, used, ok) = fr;
                    let (mut svals, complete) = parse_session(&plain);
                    proof {
                        assert(rem.len() > 0);
                        assert(zstd_first_frame(rem) == (plain@, used as int, ok));
                    }
                    if ok && used >= 1 && complete {
                        proof {
                            assert(dec_payload(rem).records == session_records(plain@)
                                + dec_payload(rem.skip(used as int)).records);
                        }
                        let ghost pre = acc@;
                        while svals.len() > 0
                            invariant
                                seq_views(pre) + session_records(plain@) == seq_views(acc@)
                                    + seq_views(svals@),
                            decreases svals@.len(),
                        {
                            let ghost a0 = acc@;
                            let ghost s0 = svals@;
                            let v = svals.remove(0);
                            acc.push(v);
                            proof {
                                assert(svals@ =~= s0.drop_first());
                                assert(seq_views(acc@) =~= seq_views(a0) + seq![v@]);
                                assert(seq_views(s0) =~= seq![v@] + seq_views(svals@));
                                assert((seq_views(a0) + seq![v@]) + seq_views(svals@) =~= seq_views(
                                    a0,
                                ) + (seq![v@] + seq_views(svals@)));
                            }
                        }
                        proof {
                            assert(seq_views(svals@) =~= Seq::<EnvValueV>::empty());
                            assert(seq_views(acc@) + Seq::<EnvValueV>::empty() =~= seq_views(acc@));
                        }
                        offset = offset + used;
                        proof {
                            assert(svals@ =~= Seq::<EnvValue>::empty());
                            assert(seq_views(acc@) =~= seq_views(pre) + session_records(plain@));
                            assert(file@.skip(offset as int) =~= rem.skip(used as int));
                            assert(seq_views(acc@) + dec_payload(rem.skip(used as int)).records
                                =~= (seq_views(pre) + session_records(plain@)) + dec_payload(
                                rem.skip(used as int),
                            ).records);
                            assert(seq_views(pre) + (session_records(plain@) + dec_payload(
                                rem.skip(used as int),
                            ).records) =~= (seq_views(pre) + session_records(plain@)) + dec_payload(
                                rem.skip(used as int),
                            ).records);
                        }
                    } else {
                        proof {
                            assert(dec_payload(rem).records == session_records(plain@));
                            assert(dec_payload(rem).salvage == session_records(plain@));
                            assert(!dec_payload(rem).clean);
                            assert(dec_payload(rem).good_len == 0);
                        }
                        let mut session: Vec<u8> = Vec::new();
                        let mut j: usize = 0;
                        while j < svals.len()
                            invariant
                                j <= svals@.len(),
                                session@ == enc_records(seq_views(svals@).take(j as int)),
                                forall|i: int| 0 <= i < svals@.len() ==> crate::codec::wf_value(
                                    #[trigger] svals@[i]@,
                                ),
                            decreases svals@.len() - j,
                        {
                            encode_record(&mut session, &svals[j]);
                            j = j + 1;
                            proof {
                                lemma_enc_records_snoc(
                                    seq_views(svals@).take(j - 1),
                                    svals@[j - 1]@,
                                );
                                assert(seq_views(svals@).take(j as int) =~= seq_views(
                                    svals@,
                                ).take(j - 1).push(svals@[j - 1]@));
                            }
                        }
                        proof {
                            assert(seq_views(svals@).take(svals@.len() as int) =~= seq_views(
                                svals@,
                            ));
                            assert(seq_views(svals@) == session_records(plain@));
                            assert(session@ == enc_records(session_records(plain@)));
                            assert forall|i: int|
                                0 <= i < session_records(plain@).len() implies wf_value(
                                #[trigger] session_records(plain@)[i],
                            ) by {
                                assert(session_records(plain@)[i] == svals@[i]@);
                            }
                        }
                        let ghost pre = acc@;
                        while svals.len() > 0
                            invariant
                                seq_views(pre) + session_records(plain@) == seq_views(acc@)
                                    + seq_views(svals@),
                            decreases svals@.len(),
                        {
                            let ghost a0 = acc@;
                            let ghost s0 = svals@;
                            let v = svals.remove(0);
                            acc.push(v);
                            proof {
                                assert(svals@ =~= s0.drop_first());
                                assert(seq_views(acc@) =~= seq_views(a0) + seq![v@]);
                                assert(seq_views(s0) =~= seq![v@] + seq_views(svals@));
                                assert((seq_views(a0) + seq![v@]) + seq_views(svals@) =~= seq_views(
                                    a0,
                                ) + (seq![v@] + seq_views(svals@)));
                            }
                        }
                        proof {
                            assert(seq_views(svals@) =~= Seq::<EnvValueV>::empty());
                            assert(seq_views(acc@) + Seq::<EnvValueV>::empty() =~= seq_views(acc@));
                        }
                        let ghost prefile = file@;
                        file.truncate(offset);
                        proof {
                            assert(file@.take(hlen as int) =~= prefile.take(hlen as int));
                        }
                        let ghost psalv: Seq<EnvValueV> = session_records(plain@);
                        let ghost csalv: Seq<Seq<EnvValueV>> = Seq::empty();
                        self.state = EntryState::Streaming {
                            version,
                            key_bytes,
                            file,
                            session,
                            pending: Ghost(psalv),
                            chain: Ghost(csalv),
                            chain_clean: Ghost(false),
                        };
                        return acc;
                    }
                }
            },
            EntryState::Closed => {
                proof {
                    assert(false);
                }
                Vec::new()
            },
        }
    }
}

impl FileCacheEntry {
    /// Appends one record. An unopened entry is recreated fresh: its file
    /// image starts as a bare header with a new, clean write session; an
    /// open entry keeps its bytes and opens a session at its end; a
    /// streaming entry just extends its session. Appending is the only
    /// operation that adds content; records already in the file are never
    /// rewritten.
    pub fn append(&mut self, v: &EnvValue)
        requires
            old(self).wf(),
            !old(self).is_closed(),
            wf_value(v@),
        ensures
            final(self).wf(),
            final(self).is_streaming(),
            final(self).version() == old(self).version(),
            final(self).key_bytes() == old(self).key_bytes(),
            final(self).records() == old(self).records().push(v@),
            final(self).pending() == old(self).pending().push(v@),
            old(self).is_unopened() ==> (final(self).file_bytes() == old(self).header()
                && final(self).chain() =~= Seq::<Seq<EnvValueV>>::empty()
                && final(self).chain_clean()),
            !old(self).is_unopened() ==> (final(self).file_bytes() == old(self).file_bytes()
                && final(self).chain() == old(self).chain()
                && final(self).chain_clean() == old(self).chain_clean()),
    {
        let mut st = EntryState::Closed;
        core::mem::swap(&mut st, &mut self.state);
        match st {
            EntryState::Unopened { version, key_bytes } => {
                let mut file = magic(&version);
                let mut k: usize = 0;
                proof {
                    assert(old(self).header() == magic_of(version@) + key_bytes@);
                }
                while k < key_bytes.len()
                    invariant
                        k <= key_bytes@.len(),
                        file@ == magic_of(version@) + key_bytes@.take(k as int),
                    decreases key_bytes@.len() - k,
                {
                    file.push(key_bytes[k]);
                    k = k + 1;
                    proof {
                        assert(file@ =~= magic_of(version@) + key_bytes@.take(k as int));
                    }
                }
                proof {
                    assert(key_bytes@.take(key_bytes@.len() as int) == key_bytes@);
                }
                let mut session: Vec<u8> = Vec::new();
                encode_record(&mut session, v);
                proof {
                    assert(file@ == old(self).header());
                    assert(file@.take(old(self).header().len() as int) =~= old(self).header());
                    assert(file@.skip(old(self).header().len() as int) =~= Seq::<u8>::empty());
                    assert(clean_chain(Seq::<u8>::empty(), Seq::<Seq<EnvValueV>>::empty()));
                    assert(enc_records(Seq::<EnvValueV>::empty()) == Seq::<u8>::empty());
                    lemma_enc_records_snoc(Seq::<EnvValueV>::empty(), v@);
                    assert(Seq::<u8>::empty() + enc_record(v@) =~= enc_record(v@));
                    assert(Seq::<u8>::empty() + session@ =~= session@);
                    assert(Seq::<EnvValueV>::empty().push(v@) =~= seq![v@]);
                }
                let ghost p0: Seq<EnvValueV> = seq![v@];
                let ghost c0: Seq<Seq<EnvValueV>> = Seq::empty();
                self.state = EntryState::Streaming {
                    version,
                    key_bytes,
                    file,
                    session,
                    pending: Ghost(p0),
                    chain: Ghost(c0),
                    chain_clean: Ghost(true),
                };
                proof {
                    assert(dec_payload(Seq::<u8>::empty()).records + seq![v@] =~= Seq::<
                        EnvValueV,
                    >::empty().push(v@));
                    assert(old(self).records() =~= Seq::<EnvValueV>::empty());
                    assert(old(self).records().push(v@) =~= seq![v@]);
                }
            },
            EntryState::Open { version, key_bytes, file } => {
                let mut session: Vec<u8> = Vec::new();
                encode_record(&mut session, v);
                proof {
                    lemma_enc_records_snoc(Seq::<EnvValueV>::empty(), v@);
                    assert(enc_records(Seq::<EnvValueV>::empty()) == Seq::<u8>::empty());
                    assert(Seq::<u8>::empty() + enc_record(v@) =~= enc_record(v@));
                    assert(Seq::<u8>::empty() + session@ =~= session@);
                }
                let ghost p0: Seq<EnvValueV> = seq![v@];
                let ghost c0: Seq<Seq<EnvValueV>> = Seq::empty();
                self.state = EntryState::Streaming {
                    version,
                    key_bytes,
                    file,
                    session,
                    pending: Ghost(p0),
                    chain: Ghost(c0),
                    chain_clean: Ghost(false),
                };
                proof {
                    assert(Seq::<EnvValueV>::empty().push(v@) =~= seq![v@]);
                    assert(dec_payload(final(self).payload()).records + seq![v@] =~= (dec_payload(
                        final(self).payload(),
                    ).records + Seq::<EnvValueV>::empty()).push(v@));
                    assert(dec_payload(final(self).payload()).records + Seq::<EnvValueV>::empty()
                        =~= dec_payload(final(self).payload()).records);
                }
            },
            EntryState::Streaming {
                version,
                key_bytes,
                file,
                mut session,
                pending,
                chain,
                chain_clean,
            } => {
                encode_record(&mut session, v);
                proof {
                    lemma_enc_records_snoc(pending@, v@);
                }
                let ghost p1: Seq<EnvValueV> = pending@.push(v@);
                self.state = EntryState::Streaming {
                    version,
                    key_bytes,
                    file,
                    session,
                    pending: Ghost(p1),
                    chain,
                    chain_clean,
                };
                proof {
                    assert(dec_payload(final(self).payload()).records + pending@.push(v@) =~= (
                    dec_payload(final(self).payload()).records + pending@).push(v@));
                }
            },
            EntryState::Closed => {
                proof {
                    assert(false);
                }
            },
        }
    }

    /// Discards every record: the file image shrinks back to its bare
    /// header and the entry is left open. A session in progress is thrown
    /// away (its work is wasted, as the caller was warned).
    pub fn truncate(&mut self)
        requires
            old(self).wf(),
            !old(self).is_closed(),
        ensures
            final(self).wf(),
            final(self).is_open(),
            final(self).version() == old(self).version(),
            final(self).key_bytes() == old(self).key_bytes(),
            final(self).file_bytes() == final(self).header(),
            final(self).records() =~= Seq::<EnvValueV>::empty(),
    {
        let mut st = EntryState::Closed;
        core::mem::swap(&mut st, &mut self.state);
        let (version, key_bytes) = match st {
            EntryState::Unopened { version, key_bytes } => (version, key_bytes),
            EntryState::Open { version, key_bytes, .. } => (version, key_bytes),
            EntryState::Streaming { version, key_bytes, .. } => (version, key_bytes),
            EntryState::Closed => {
                proof {
                    assert(false);
                }
                (Vec::new(), Vec::new())
            },
        };
        let mut file = magic(&version);
        let mut k: usize = 0;
        while k < key_bytes.len()
            invariant
                k <= key_bytes@.len(),
                file@ == magic_of(version@) + key_bytes@.take(k as int),
            decreases key_bytes@.len() - k,
        {
            file.push(key_bytes[k]);
            k = k + 1;
            proof {
                assert(file@ =~= magic_of(version@) + key_bytes@.take(k as int));
            }
        }
        proof {
            assert(key_bytes@.take(key_bytes@.len() as int) == key_bytes@);
        }
        self.state = EntryState::Open { version, key_bytes, file };
        proof {
            assert(final(self).file_bytes().take(final(self).header().len() as int) =~= final(self).header());
            assert(final(self).payload() =~= Seq::<u8>::empty());
        }
    }

    /// Closes the entry, compressing the session in progress (closed by the
    /// stream sentinel) into one more frame of the file image, and hands
    /// the final image back for the caller to persist. An entry that never
    /// loaded or produced an image yields nothing to write.
    pub fn finish(&mut self) -> (r: Option<Vec<u8>>)
        requires
            old(self).wf(),
        ensures
            final(self).is_closed(),
            old(self).is_streaming() ==> (r matches Some(f) && f@ == old(self).file_bytes()
                + zstd_frame_of(session_plain(old(self).pending()))),
            old(self).is_streaming() && old(self).chain_clean() ==> (r matches Some(f) && f@
                == old(self).header() + f@.skip(old(self).header().len() as int) && clean_chain(
                f@.skip(old(self).header().len() as int),
                old(self).chain().push(old(self).pending()),
            )),
            old(self).is_open() ==> (r matches Some(f) && f@ == old(self).file_bytes()),
            old(self).is_unopened() || old(self).is_closed() ==> r is None,
    {
        let mut st = EntryState::Closed;
        core::mem::swap(&mut st, &mut self.state);
        match st {
            EntryState::Unopened { .. } => None,
            EntryState::Closed => None,
            EntryState::Open { file, .. } => Some(file),
            EntryState::Streaming { version, key_bytes, mut file, mut session, pending, chain, chain_clean } => {
                encode_sentinel(&mut session);
                proof {
                    assert(session@ == session_plain(pending@));
                }
                let frame = zstd_compress(session.as_slice());
                let ghost prefile = file@;
                let mut j: usize = 0;
                while j < frame.len()
                    invariant
                        j <= frame@.len(),
                        file@ == prefile + frame@.take(j as int),
                    decreases frame@.len() - j,
                {
                    file.push(frame[j]);
                    j = j + 1;
                    proof {
                        assert(file@ =~= prefile + frame@.take(j as int));
                    }
                }
                proof {
                    assert(frame@.take(frame@.len() as int) == frame@);
                    assert(file@ == prefile + frame@);
                    if chain_clean@ {
                        lemma_clean_chain_snoc(
                            prefile.skip(old(self).header().len() as int),
                            chain@,
                            pending@,
                        );
                        assert(file@.skip(old(self).header().len() as int) =~= prefile.skip(
                            old(self).header().len() as int,
                        ) + frame@);
                        assert(file@.take(old(self).header().len() as int) =~= old(self).header());
                        assert(file@ =~= old(self).header() + file@.skip(
                            old(self).header().len() as int,
                        ));
                    }
                }
                Some(file)
            },
        }
    }
}

impl FileCacheEntry {
    /// The four states are mutually exclusive; an unopened entry holds no
    /// records, and an open one holds exactly what its payload parses to.
    pub proof fn lemma_state(&self)
        ensures
            self.is_open() ==> !self.is_closed() && !self.is_unopened() && !self.is_streaming(),
            self.is_unopened() ==> !self.is_closed() && !self.is_open() && !self.is_streaming(),
            self.is_streaming() ==> !self.is_closed() && !self.is_open() && !self.is_unopened(),
            self.is_closed() ==> !self.is_open() && !self.is_unopened() && !self.is_streaming(),
            self.is_unopened() ==> self.records() =~= Seq::<EnvValueV>::empty(),
            self.is_open() ==> self.records() == dec_payload(self.payload()).records,
    {
        if self.is_unopened() {
            assert(self.file_bytes().len() == 0);
            assert(self.header().len() >= 6);
            assert(self.payload() == Seq::<u8>::empty());
            assert(dec_payload(Seq::<u8>::empty()).records == Seq::<EnvValueV>::empty());
            assert(self.pending() == Seq::<EnvValueV>::empty());
        }
        if self.is_open() {
            assert(self.pending() == Seq::<EnvValueV>::empty());
            assert(dec_payload(self.payload()).records + Seq::<EnvValueV>::empty() =~= dec_payload(
                self.payload(),
            ).records);
        }
    }
}

/// A cache rooted at an explicit directory, or at the platform's per-user
/// cache directory when none is given (the binary resolves that default;
/// the path is carried as raw bytes).
pub struct FileCache(pub Option<Vec<u8>>);

impl FileCache {
    /// A handle for the entry of `key`, in the unopened state: no bytes are
    /// touched until the handle is used.
    pub fn entry(&self, key: &EnvKey, version: Vec<u8>) -> (r: FileCacheEntry)
        requires
            version@.len() < 256,
        ensures
            r.wf(),
            r.is_unopened(),
            r.version() == version@,
            r.key_bytes() == enc_env_key(*key),
    {
        let key_bytes = encode_key(key);
        FileCacheEntry::new(version, key_bytes)
    }

    /// The two path components of the entry of `key`, relative to the cache
    /// root: the first fingerprint byte as a hex directory name, the
    /// remaining thirty-one as the hex file name.
    pub fn entry_rel_path(key: &EnvKey) -> (r: (Vec<u8>, Vec<u8>))
        ensures
            sha256_of(enc_env_key(*key)).len() == 32,
            r.0@ == hex_byte(sha256_of(enc_env_key(*key))[0]),
            r.1@ == hex_of(sha256_of(enc_env_key(*key)).drop_first()),
    {
        let key_bytes = encode_key(key);
        let hash = sha256(key_bytes.as_slice());
        file_name(&hash)
    }
}

// ---------------------------------------------------------------------------
// Laws of the record stream
// ---------------------------------------------------------------------------

/// Round-trip: a file image produced by appending any run of records
/// through a clean chain of sessions reads back as exactly those records,
/// in order — nothing lost, nothing invented, nothing left over.
pub proof fn lemma_stream_roundtrip(payload: Seq<u8>, ss: Seq<Seq<EnvValueV>>)
    requires
        clean_chain(payload, ss),
    ensures
        dec_payload(payload).clean,
        dec_payload(payload).records == flatten_sessions(ss),
{
    lemma_clean_chain_parses(payload, ss);
}

/// Header tamper: flipping any byte inside the magic or key region of a
/// file image makes the next load fail before any record is decoded.
pub proof fn lemma_header_tamper(e: FileCacheEntry, bytes: Seq<u8>, mutated: Seq<u8>, i: int)
    requires
        bytes.len() >= e.header().len(),
        bytes.take(e.header().len() as int) == e.header(),
        mutated.len() == bytes.len(),
        0 <= i < e.header().len(),
        mutated[i] != bytes[i],
        forall|j: int| 0 <= j < bytes.len() && j != i ==> mutated[j] == bytes[j],
    ensures
        !(mutated.len() >= e.header().len() && mutated.take(e.header().len() as int)
            == e.header()),
{
    assert(mutated.take(e.header().len() as int)[i] == mutated[i]);
    assert(bytes.take(e.header().len() as int)[i] == bytes[i]);
}

/// Parses one session plaintext from its start: the records before the
/// sentinel, and whether the sentinel closed the session with nothing
/// trailing it.
fn parse_session(plain: &Vec<u8>) -> (r: (Vec<EnvValue>, bool))
    ensures
        seq_views(r.0@) == session_records(plain@),
        r.1 == session_complete(plain@),
        forall|i: int| 0 <= i < r.0@.len() ==> crate::codec::wf_value(#[trigger] r.0@[i]@),
{
    let mut acc: Vec<EnvValue> = Vec::new();
    let mut pos: usize = 0;
    loop
        invariant
            pos <= plain@.len(),
            forall|i: int| 0 <= i < acc@.len() ==> crate::codec::wf_value(#[trigger] acc@[i]@),
            (match dec_session(plain@, 0) {
                SessionParseV::Done(vs, q) => match dec_session(plain@, pos as int) {
                    SessionParseV::Done(vs2, q2) => vs == seq_views(acc@) + vs2 && q == q2,
                    SessionParseV::Corrupt(_) => false,
                },
                SessionParseV::Corrupt(vs) => match dec_session(plain@, pos as int) {
                    SessionParseV::Done(_, _) => false,
                    SessionParseV::Corrupt(vs2) => vs == seq_views(acc@) + vs2,
                },
            }),
        decreases plain@.len() - pos,
    {
        match decode_record(plain.as_slice(), pos) {
            RecordRead::Sentinel(p) => {
                proof {
                    assert(dec_session(plain@, pos as int) == SessionParseV::Done(
                        Seq::<EnvValueV>::empty(),
                        p as int,
                    ));
                    assert(seq_views(acc@) + Seq::<EnvValueV>::empty() =~= seq_views(acc@));
                }
                return (acc, p == plain.len());
            },
            RecordRead::Value(v, p) => {
                proof {
                    crate::codec::lemma_dec_record_advances(plain@, pos as int);
                    let ghost inner = dec_session(plain@, p as int);
                    assert(dec_session(plain@, pos as int) == (match inner {
                        SessionParseV::Done(vs, q) => SessionParseV::Done(seq![v@] + vs, q),
                        SessionParseV::Corrupt(vs) => SessionParseV::Corrupt(seq![v@] + vs),
                    }));
                }
                let ghost old_acc = acc@;
                acc.push(v);
                proof {
                    assert(seq_views(acc@) =~= seq_views(old_acc) + seq![v@]);
                    assert(forall|vs: Seq<EnvValueV>| (seq_views(old_acc) + seq![v@]) + vs =~= seq_views(
                        old_acc,
                    ) + (seq![v@] + vs));
                }
                pos = p;
            },
            RecordRead::Bad => {
                proof {
                    assert(dec_session(plain@, pos as int) == SessionParseV::Corrupt(
                        Seq::<EnvValueV>::empty(),
                    ));
                    assert(seq_views(acc@) + Seq::<EnvValueV>::empty() =~= seq_views(acc@));
                }
                return (acc, false);
            },
        }
    }
}

} // verus!
