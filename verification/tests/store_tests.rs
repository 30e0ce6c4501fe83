use base64::Engine as _;
use render_core::store::{
    decode_track, load_tracks, resolve_payload, DecodeError, Sound, SoundPayload, TrackStore,
};

fn sound(key: &str, data: &str) -> Sound {
    Sound { key: key.to_string(), data: data.to_string() }
}

fn wav_bytes(samples: &[i16]) -> Vec<u8> {
    let spec = hound::WavSpec {
        channels: 1,
        sample_rate: 44100,
        bits_per_sample: 16,
        sample_format: hound::SampleFormat::Int,
    };
    let mut cursor = std::io::Cursor::new(Vec::new());
    let mut writer = hound::WavWriter::new(&mut cursor, spec).unwrap();
    for s in samples {
        writer.write_sample(*s).unwrap();
    }
    writer.finalize().unwrap();
    cursor.into_inner()
}

#[test]
fn a_plain_path_payload_is_a_file_reference() {
    let s = sound("kick", "sounds/kick.wav");
    match resolve_payload(&s).unwrap() {
        SoundPayload::FileRef(p) => assert_eq!(p, "sounds/kick.wav"),
        SoundPayload::Inline(_) => panic!("a path must not be decoded inline"),
    }
}

#[test]
fn a_data_uri_payload_is_decoded_inline() {
    let bytes = vec![1u8, 2, 3, 250];
    let encoded = base64::engine::general_purpose::STANDARD.encode(&bytes);
    let s = sound("kick", &format!("data:audio/wav;base64,{}", encoded));
    match resolve_payload(&s).unwrap() {
        SoundPayload::Inline(v) => assert_eq!(v, bytes),
        SoundPayload::FileRef(_) => panic!("a data URI must be decoded inline"),
    }
}

#[test]
fn a_marker_without_prefix_is_still_inline() {
    let s = sound("hat", "x;base64,QUJD");
    match resolve_payload(&s).unwrap() {
        SoundPayload::Inline(v) => assert_eq!(v, b"ABC".to_vec()),
        SoundPayload::FileRef(_) => panic!("the marker alone makes a payload inline"),
    }
}

#[test]
fn bad_base64_names_the_asset() {
    let s = sound("kick", "data:audio/wav;base64,!!!not-base64!!!");
    match resolve_payload(&s) {
        Err(DecodeError::BadEncoding { key, .. }) => assert_eq!(key, "kick"),
        other => panic!("bad base64 must abort, got {:?}", other),
    }
}

#[test]
fn a_data_prefix_without_comma_decodes_the_whole_text() {
    // With no comma, the whole payload is handed to the decoder; the
    // colon makes it invalid base64, so the asset is refused.
    let s = sound("kick", "data:QUJD");
    match resolve_payload(&s) {
        Err(DecodeError::BadEncoding { key, .. }) => assert_eq!(key, "kick"),
        other => panic!("expected a refused encoding, got {:?}", other),
    }
}

#[test]
fn wav_bytes_decode_to_their_samples() {
    let samples: Vec<i16> = vec![0, 32767, -32768, 1234, -1];
    let bytes = wav_bytes(&samples);
    let decoded = decode_track(&"kick".to_string(), &bytes).unwrap();
    assert_eq!(decoded, samples);
}

#[test]
fn garbage_bytes_are_a_bad_audio_error() {
    let out = decode_track(&"kick".to_string(), b"not a wav file");
    match out {
        Err(DecodeError::BadAudio { key, .. }) => assert_eq!(key, "kick"),
        other => panic!("garbage must be refused, got {:?}", other),
    }
}

#[test]
fn float_wav_is_refused_as_audio() {
    let spec = hound::WavSpec {
        channels: 1,
        sample_rate: 44100,
        bits_per_sample: 32,
        sample_format: hound::SampleFormat::Float,
    };
    let mut cursor = std::io::Cursor::new(Vec::new());
    let mut writer = hound::WavWriter::new(&mut cursor, spec).unwrap();
    writer.write_sample(0.5f32).unwrap();
    writer.finalize().unwrap();
    let bytes = cursor.into_inner();
    match decode_track(&"pad".to_string(), &bytes) {
        Err(DecodeError::BadAudio { key, .. }) => assert_eq!(key, "pad"),
        other => panic!("float samples cannot enter the 16-bit store, got {:?}", other),
    }
}

#[test]
fn load_tracks_builds_the_whole_store() {
    let assets = vec![
        ("kick".to_string(), wav_bytes(&[1, 2, 3])),
        ("hat".to_string(), wav_bytes(&[4, 5])),
    ];
    let store = load_tracks(&assets).unwrap();
    assert_eq!(store.len(), 2);
    assert_eq!(store.get(&"kick".to_string()).unwrap(), &vec![1i16, 2, 3]);
    assert_eq!(store.get(&"hat".to_string()).unwrap(), &vec![4i16, 5]);
    assert!(store.get(&"ghost".to_string()).is_none());
}

#[test]
fn one_bad_asset_aborts_the_whole_load() {
    let assets = vec![
        ("kick".to_string(), wav_bytes(&[1])),
        ("broken".to_string(), b"oops".to_vec()),
    ];
    match load_tracks(&assets) {
        Err(DecodeError::BadAudio { key, .. }) => assert_eq!(key, "broken"),
        Ok(_) => panic!("a bad asset must abort the load"),
        Err(other) => panic!("wrong error kind: {:?}", other),
    }
}

#[test]
fn a_later_insertion_shadows_an_earlier_one() {
    let mut store = TrackStore::new();
    store.insert("kick".to_string(), vec![1, 2]);
    store.insert("kick".to_string(), vec![9]);
    assert_eq!(store.get(&"kick".to_string()).unwrap(), &vec![9i16]);
    assert_eq!(store.len(), 2);
}

#[test]
fn inline_decode_roundtrip_through_wav() {
    // A complete inline asset: WAV bytes, base64-encoded into a data
    // URI, resolved and decoded back to the original samples.
    let samples: Vec<i16> = vec![100, -200, 300];
    let bytes = wav_bytes(&samples);
    let encoded = base64::engine::general_purpose::STANDARD.encode(&bytes);
    let s = sound("kick", &format!("data:audio/wav;base64,{}", encoded));
    let payload = match resolve_payload(&s).unwrap() {
        SoundPayload::Inline(v) => v,
        SoundPayload::FileRef(_) => panic!("inline expected"),
    };
    let decoded = decode_track(&s.key, &payload).unwrap();
    assert_eq!(decoded, samples);
}
