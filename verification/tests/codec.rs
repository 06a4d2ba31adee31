use lumin_cache::chunk::Chunk;
use lumin_cache::meta::{deserialize_chunks, serialize_chunks};

fn sample_chunks() -> Vec<Chunk> {
    vec![
        Chunk {
            index: 0,
            offset: 0,
            size: 8388608,
            accessed_at_secs: 1700000000,
            cached: true,
            downloading: false,
        },
        Chunk {
            index: 1,
            offset: 8388608,
            size: 8388608,
            accessed_at_secs: 1700000123,
            cached: false,
            downloading: false,
        },
        Chunk {
            index: 2,
            offset: 16777216,
            size: 4194304,
            accessed_at_secs: 0,
            cached: true,
            downloading: false,
        },
    ]
}

#[test]
fn serialized_form_is_the_sidecar_json() {
    let chunks = vec![Chunk {
        index: 0,
        offset: 0,
        size: 42,
        accessed_at_secs: 7,
        cached: true,
        downloading: false,
    }];
    let bytes = serialize_chunks(&chunks);
    assert_eq!(
        String::from_utf8(bytes).unwrap(),
        "[{\"index\":0,\"offset\":0,\"size\":42,\"accessed_at_secs\":7,\"cached\":true}]"
    );
}

#[test]
fn serialize_deserialize_reserialize_is_byte_identical() {
    let chunks = sample_chunks();
    let bytes = serialize_chunks(&chunks);
    let back = deserialize_chunks(&bytes).expect("own encoding must deserialise");
    let bytes2 = serialize_chunks(&back);
    assert_eq!(bytes, bytes2);
}

#[test]
fn deserialize_returns_the_same_vector() {
    let chunks = sample_chunks();
    let bytes = serialize_chunks(&chunks);
    let back = deserialize_chunks(&bytes).unwrap();
    assert_eq!(back, chunks);
}

#[test]
fn empty_vector_round_trips() {
    let chunks: Vec<Chunk> = Vec::new();
    let bytes = serialize_chunks(&chunks);
    assert_eq!(bytes, b"[]".to_vec());
    let back = deserialize_chunks(&bytes).unwrap();
    assert!(back.is_empty());
}

#[test]
fn deserialize_rejects_foreign_bytes() {
    assert!(deserialize_chunks(b"").is_none());
    assert!(deserialize_chunks(b"{}").is_none());
    assert!(deserialize_chunks(b"[{}]").is_none());
    // trailing bytes after the vector are refused
    let mut bytes = serialize_chunks(&sample_chunks());
    bytes.push(b' ');
    assert!(deserialize_chunks(&bytes).is_none());
    // a non-canonical number spelling is refused
    assert!(
        deserialize_chunks(
            b"[{\"index\":00,\"offset\":0,\"size\":1,\"accessed_at_secs\":0,\"cached\":false}]"
        )
        .is_none()
    );
}

#[test]
fn deserialize_never_returns_held_guards() {
    let mut chunks = sample_chunks();
    chunks[1].downloading = true;
    let bytes = serialize_chunks(&chunks);
    let back = deserialize_chunks(&bytes).unwrap();
    // the guard is runtime state and is not persisted
    assert!(back.iter().all(|c| !c.downloading));
    // everything else round-trips
    let mut expected = chunks.clone();
    expected[1].downloading = false;
    assert_eq!(back, expected);
}
