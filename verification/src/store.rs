//! The sound store: named sound assets and their decoded tracks.
//!
//! A [`Sound`] names an asset and carries its payload: either inline
//! encoded audio (marked like a data URI) or a filesystem path. The
//! caller resolves path payloads to bytes; everything else — payload
//! classification, base64 decoding, container decoding into fixed-point
//! PCM — happens here. Decoded tracks live in a [`TrackStore`], keyed by
//! asset key; a later insertion under the same key shadows an earlier
//! one, as the mixer only ever sees the latest track.

use vstd::prelude::*;
use vstd::std_specs::iter::IteratorSpec;
use vstd::string::*;

verus! {

broadcast use vstd::string::group_string_axioms;

/// A named sound asset. `data` is either inline encoded audio (detected
/// by [`is_inline_payload`]) or a filesystem path.
#[derive(Debug, Clone)]
pub struct Sound {
    pub key: String,
    pub data: String,
}

/// Why decoding a sound asset failed. Any such failure aborts the whole
/// mix; `key` names the offending asset, `detail` carries the decoder's
/// own message.
#[derive(Debug)]
pub enum DecodeError {
    /// The inline payload was not valid base64.
    BadEncoding { key: String, detail: String },
    /// The byte buffer was not a decodable audio container.
    BadAudio { key: String, detail: String },
}

impl DecodeError {
    /// The key of the asset this error names.
    pub open spec fn spec_key(&self) -> Seq<char> {
        match self {
            DecodeError::BadEncoding { key, .. } => key@,
            DecodeError::BadAudio { key, .. } => key@,
        }
    }
}

/// Looks `key` up in an association sequence, newest entry first: the
/// track of the latest entry with that key, if any.
pub open spec fn assoc_lookup(s: Seq<(Seq<char>, Seq<i16>)>, key: Seq<char>) -> Option<Seq<i16>>
    decreases s.len(),
{
    if s.len() == 0 {
        None
    } else if s.last().0 == key {
        Some(s.last().1)
    } else {
        assoc_lookup(s.drop_last(), key)
    }
}

/// Decoded tracks keyed by asset key. Insertion order is kept; a lookup
/// returns the latest track stored under the key.
pub struct TrackStore {
    entries: Vec<(String, Vec<i16>)>,
}

impl View for TrackStore {
    type V = Seq<(Seq<char>, Seq<i16>)>;

    closed spec fn view(&self) -> Seq<(Seq<char>, Seq<i16>)> {
        self.entries@.map_values(|p: (String, Vec<i16>)| (p.0@, p.1@))
    }
}

impl TrackStore {
    /// An empty store.
    pub fn new() -> (r: TrackStore)
        ensures
            r@ == Seq::<(Seq<char>, Seq<i16>)>::empty(),
    {
        let r = TrackStore { entries: Vec::new() };
        proof {
            assert(r@ =~= Seq::<(Seq<char>, Seq<i16>)>::empty());
        }
        r
    }

    /// The number of entries stored.
    pub fn len(&self) -> (n: usize)
        ensures
            n == self@.len(),
    {
        self.entries.len()
    }

    /// Stores a decoded track under `key`, shadowing any earlier entry
    /// with the same key.
    pub fn insert(&mut self, key: String, samples: Vec<i16>)
        ensures
            final(self)@ == old(self)@.push((key@, samples@)),
    {
        let ghost prev = self@;
        let ghost pair = (key@, samples@);
        self.entries.push((key, samples));
        proof {
            assert(self@ =~= prev.push(pair));
        }
    }

    /// The latest track stored under `key`, if any.
    pub fn get(&self, key: &String) -> (r: Option<&Vec<i16>>)
        ensures
            match r {
                Some(t) => assoc_lookup(self@, key@) == Some(t@),
                None => assoc_lookup(self@, key@) is None,
            },
    {
        let mut i: usize = self.entries.len();
        proof {
            assert(self@.take(i as int) =~= self@);
        }
        while i > 0
            invariant
                i <= self.entries.len(),
                assoc_lookup(self@, key@) == assoc_lookup(self@.take(i as int), key@),
            decreases i,
        {
            i = i - 1;
            proof {
                assert(self@[i as int] == (self.entries@[i as int].0@, self.entries@[i as int].1@));
                assert(self@.take(i + 1).drop_last() =~= self@.take(i as int));
                assert(self@.take(i + 1).last() == self@[i as int]);
            }
            if self.entries[i].0 == *key {
                return Some(&self.entries[i].1);
            }
        }
        proof {
            assert(self@.take(0) =~= Seq::<(Seq<char>, Seq<i16>)>::empty());
        }
        None
    }
}

/// What base64's standard-alphabet decoder yields on this text: the
/// decoded bytes, or nothing when the text is not valid base64. A pure
/// function of the text.
pub uninterp spec fn b64_decode_of(s: Seq<char>) -> Option<Seq<u8>>;

/// What the WAV reader yields on this byte buffer: the stream of
/// 16-bit integer samples, or nothing when the buffer is not a WAV
/// container of 16-bit-or-narrower integer PCM. A pure function of the
/// bytes.
pub uninterp spec fn wav_samples_of(b: Seq<u8>) -> Option<Seq<i16>>;

/// Relies on base64's `STANDARD` engine: `decode` is a pure function
/// of its input and fails exactly on text that is not valid standard
/// base64.
#[verifier::external_body]
fn base64_decode(s: &str) -> (r: Result<Vec<u8>, String>)
    ensures
        match b64_decode_of(s@) {
            Some(b) => r matches Ok(v) && v@ == b,
            None => r is Err,
        },
{
    base64::Engine::decode(&base64::engine::general_purpose::STANDARD, s).map_err(|e| e.to_string())
}

/// Relies on hound's `WavReader`: reading a WAV container held wholly
/// in memory is a pure function of its bytes, and decoding its samples
/// as `i16` succeeds exactly for integer PCM up to 16 bits wide.
#[verifier::external_body]
fn wav_decode(bytes: &[u8]) -> (r: Result<Vec<i16>, String>)
    ensures
        match wav_samples_of(bytes@) {
            Some(t) => r matches Ok(v) && v@ == t,
            None => r is Err,
        },
{
    let reader = match hound::WavReader::new(std::io::Cursor::new(bytes)) {
        Ok(reader) => reader,
        Err(e) => return Err(e.to_string()),
    };
    reader.into_samples::<i16>().collect::<Result<Vec<i16>, _>>().map_err(|e| e.to_string())
}

/// The payload text opens like a data URI.
pub open spec fn has_data_prefix(s: Seq<char>) -> bool {
    s.len() >= 5 && s[0] == 'd' && s[1] == 'a' && s[2] == 't' && s[3] == 'a' && s[4] == ':'
}

/// The eight characters of a base64 data-URI marker stand at `i`.
pub open spec fn marker_at(s: Seq<char>, i: int) -> bool {
    &&& 0 <= i
    &&& i + 8 <= s.len()
    &&& s[i] == ';'
    &&& s[i + 1] == 'b'
    &&& s[i + 2] == 'a'
    &&& s[i + 3] == 's'
    &&& s[i + 4] == 'e'
    &&& s[i + 5] == '6'
    &&& s[i + 6] == '4'
    &&& s[i + 7] == ','
}

/// The payload text carries a base64 marker somewhere.
pub open spec fn has_base64_marker(s: Seq<char>) -> bool {
    exists|i: int| marker_at(s, i)
}

/// Whether a payload is inline encoded audio rather than a file path:
/// it opens like a data URI or carries a base64 marker.
pub open spec fn is_inline_payload(s: Seq<char>) -> bool {
    has_data_prefix(s) || has_base64_marker(s)
}

/// The index of the last comma of the text, or -1 when it has none.
pub open spec fn last_comma(s: Seq<char>) -> int
    decreases s.len(),
{
    if s.len() == 0 {
        -1
    } else if s[s.len() - 1] == ',' {
        s.len() - 1
    } else {
        last_comma(s.drop_last())
    }
}

/// The base64 body of an inline payload: everything after the last
/// comma, or the whole text when it has no comma.
pub open spec fn encoded_body(s: Seq<char>) -> Seq<char> {
    s.subrange(last_comma(s) + 1, s.len() as int)
}

/// The last comma's index never leaves `[-1, len)`.
proof fn lemma_last_comma_range(s: Seq<char>)
    ensures
        -1 <= last_comma(s) < s.len(),
    decreases s.len(),
{
    if s.len() > 0 && s[s.len() - 1] != ',' {
        lemma_last_comma_range(s.drop_last());
    }
}

/// Collects the characters of a string slice, in order.
pub(crate) fn chars_vec(s: &str) -> (v: Vec<char>)
    ensures
        v@ == s@,
{
    let n = s.unicode_len();
    let mut it = s.chars();
    let mut v: Vec<char> = Vec::new();
    while v.len() < n
        invariant
            it.obeys_prophetic_iter_laws(),
            v@ + IteratorSpec::remaining(&it) == s@,
            n == s@.len(),
            v@.len() <= n,
        decreases n - v@.len(),
    {
        match it.next() {
            Some(c) => {
                v.push(c);
                proof {
                    assert(v@ + IteratorSpec::remaining(&it) =~= s@);
                }
            },
            None => {
                // The iterator cannot run dry before `n` characters.
                proof {
                    assert(false);
                }
            },
        }
    }
    proof {
        assert(IteratorSpec::remaining(&it).len() == 0);
        assert(v@ =~= s@);
    }
    v
}

/// Whether the text opens like a data URI.
fn data_prefix(v: &Vec<char>) -> (r: bool)
    ensures
        r == has_data_prefix(v@),
{
    v.len() >= 5 && v[0] == 'd' && v[1] == 'a' && v[2] == 't' && v[3] == 'a' && v[4] == ':'
}

/// Whether the text carries a base64 data-URI marker anywhere.
fn base64_marker(v: &Vec<char>) -> (r: bool)
    ensures
        r == has_base64_marker(v@),
{
    if v.len() < 8 {
        proof {
            assert(forall|m: int| !marker_at(v@, m));
        }
        return false;
    }
    let mut i: usize = 0;
    while i <= v.len() - 8
        invariant
            v@.len() >= 8,
            forall|m: int| 0 <= m < i ==> !marker_at(v@, m),
            i <= v@.len(),
        decreases v@.len() - i,
    {
        if v[i] == ';' && v[i + 1] == 'b' && v[i + 2] == 'a' && v[i + 3] == 's' && v[i + 4] == 'e'
            && v[i + 5] == '6' && v[i + 6] == '4' && v[i + 7] == ',' {
            proof {
                assert(marker_at(v@, i as int));
            }
            return true;
        }
        i = i + 1;
    }
    proof {
        assert forall|m: int| !marker_at(v@, m) by {
            if 0 <= m && m + 8 <= v@.len() {
                assert(m < i);
            }
        }
    }
    false
}

/// One past the last comma of the text; 0 when it has none.
fn after_last_comma(v: &Vec<char>) -> (r: usize)
    ensures
        r == last_comma(v@) + 1,
{
    let mut i: usize = v.len();
    proof {
        assert(v@.take(i as int) =~= v@);
    }
    while i > 0
        invariant
            i <= v@.len(),
            last_comma(v@) == last_comma(v@.take(i as int)),
        decreases i,
    {
        proof {
            assert(v@.take(i as int).drop_last() =~= v@.take(i - 1));
            assert(v@.take(i as int).last() == v@[i - 1]);
        }
        if v[i - 1] == ',' {
            return i;
        }
        i = i - 1;
    }
    proof {
        assert(v@.take(0) =~= Seq::<char>::empty());
    }
    0
}

/// An asset payload made concrete: either the decoded inline bytes, or
/// the file path the caller must read itself.
#[derive(Debug)]
pub enum SoundPayload {
    /// The payload was inline base64; these are its decoded bytes.
    Inline(Vec<u8>),
    /// The payload is a filesystem path, returned verbatim.
    FileRef(String),
}

/// Classifies one asset's payload and decodes it where it is inline:
/// an inline payload (data-URI prefix or base64 marker) has everything
/// after its last comma base64-decoded; any other payload comes back
/// as a file path for the caller to read. A bad inline encoding is a
/// [`DecodeError::BadEncoding`] naming the asset.
pub fn resolve_payload(sound: &Sound) -> (r: Result<SoundPayload, DecodeError>)
    ensures
        !is_inline_payload(sound.data@) ==> (r matches Ok(SoundPayload::FileRef(p))
            && p@ == sound.data@),
        is_inline_payload(sound.data@) ==> match b64_decode_of(encoded_body(sound.data@)) {
            Some(b) => r matches Ok(SoundPayload::Inline(v)) && v@ == b,
            None => r matches Err(DecodeError::BadEncoding { key, .. }) && key@ == sound.key@,
        },
{
    let cv = chars_vec(sound.data.as_str());
    let inline = data_prefix(&cv) || base64_marker(&cv);
    if !inline {
        return Ok(SoundPayload::FileRef(sound.data.clone()));
    }
    let start = after_last_comma(&cv);
    proof {
        lemma_last_comma_range(sound.data@);
    }
    let body = sound.data.as_str().substring_char(start, cv.len());
    match base64_decode(body) {
        Ok(bytes) => Ok(SoundPayload::Inline(bytes)),
        Err(detail) => Err(
            DecodeError::BadEncoding { key: sound.key.clone(), detail },
        ),
    }
}

/// Decodes one asset's container bytes into its 16-bit PCM track; a
/// buffer the WAV reader refuses is a [`DecodeError::BadAudio`] naming
/// the asset.
pub fn decode_track(key: &String, bytes: &[u8]) -> (r: Result<Vec<i16>, DecodeError>)
    ensures
        match wav_samples_of(bytes@) {
            Some(t) => r matches Ok(v) && v@ == t,
            None => r matches Err(DecodeError::BadAudio { key: k, .. }) && k@ == key@,
        },
{
    match wav_decode(bytes) {
        Ok(samples) => Ok(samples),
        Err(detail) => Err(DecodeError::BadAudio { key: key.clone(), detail }),
    }
}

/// The index of the first asset whose bytes do not decode (meaningful
/// only when one exists).
pub open spec fn first_undecodable(assets: Seq<(Seq<char>, Seq<u8>)>) -> int
    decreases assets.len(),
{
    if assets.len() == 0 {
        0
    } else if wav_samples_of(assets[0].1) is None {
        0
    } else {
        1 + first_undecodable(assets.drop_first())
    }
}

/// If every asset before `k` decodes and asset `k` does not, then `k`
/// is the first undecodable index.
proof fn lemma_first_undecodable_at(assets: Seq<(Seq<char>, Seq<u8>)>, k: int)
    requires
        0 <= k < assets.len(),
        forall|m: int| 0 <= m < k ==> wav_samples_of((#[trigger] assets[m]).1) is Some,
        wav_samples_of(assets[k].1) is None,
    ensures
        first_undecodable(assets) == k,
    decreases k,
{
    if k > 0 {
        let rest = assets.drop_first();
        assert(forall|m: int| 0 <= m < k - 1 ==> wav_samples_of((#[trigger] rest[m]).1) is Some);
        assert(rest[k - 1] == assets[k]);
        lemma_first_undecodable_at(rest, k - 1);
    }
}

/// Decodes every asset and builds the track store, keys in the given
/// order. One undecodable asset aborts the whole load, naming the
/// first such asset: no partial store is produced.
pub fn load_tracks(assets: &Vec<(String, Vec<u8>)>) -> (r: Result<TrackStore, DecodeError>)
    ensures
        (r is Ok) <==> (forall|m: int|
            0 <= m < assets@.len() ==> wav_samples_of(
                (#[trigger] assets@[m]).1@,
            ) is Some),
        r matches Ok(store) ==> {
            &&& store@.len() == assets@.len()
            &&& forall|m: int|
                0 <= m < assets@.len() ==> (#[trigger] store@[m]).0 == assets@[m].0@ && Some(
                    store@[m].1,
                ) == wav_samples_of(assets@[m].1@)
        },
        r matches Err(e) ==> {
            let views = assets@.map_values(|p: (String, Vec<u8>)| (p.0@, p.1@));
            let m = first_undecodable(views);
            &&& e matches DecodeError::BadAudio { key, .. }
            &&& 0 <= m < assets@.len()
            &&& assets@[m].0@ == e.spec_key()
            &&& wav_samples_of(assets@[m].1@) is None
        },
{
    let mut store = TrackStore::new();
    let n = assets.len();
    let mut k: usize = 0;
    while k < n
        invariant
            n == assets@.len(),
            k <= n,
            store@.len() == k,
            forall|m: int|
                0 <= m < k ==> (#[trigger] store@[m]).0 == assets@[m].0@ && Some(store@[m].1)
                    == wav_samples_of(assets@[m].1@),
        decreases n - k,
    {
        match decode_track(&assets[k].0, assets[k].1.as_slice()) {
            Ok(samples) => {
                store.insert(assets[k].0.clone(), samples);
            },
            Err(e) => {
                proof {
                    let views = assets@.map_values(|p: (String, Vec<u8>)| (p.0@, p.1@));
                    assert(views.len() == assets@.len());
                    assert(forall|m: int|
                        0 <= m < views.len() ==> (#[trigger] views[m]) == (
                        assets@[m].0@,
                        assets@[m].1@,
                    ));
                    assert forall|m: int|
                        0 <= m < k implies wav_samples_of((#[trigger] views[m]).1) is Some by {
                        assert(Some(store@[m].1) == wav_samples_of(assets@[m].1@));
                        assert(views[m].1 == assets@[m].1@);
                    }
                    assert(wav_samples_of(views[k as int].1) is None);
                    lemma_first_undecodable_at(views, k as int);
                    assert(assets@[k as int].0@ == e.spec_key());
                }
                return Err(e);
            },
        }
        k = k + 1;
    }
    proof {
        assert forall|m: int| 0 <= m < assets@.len() implies wav_samples_of(
            (#[trigger] assets@[m]).1@,
        ) is Some by {
            assert(Some(store@[m].1) == wav_samples_of(assets@[m].1@));
        }
    }
    Ok(store)
}

} // verus!
