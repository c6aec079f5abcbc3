use srch::bitmap::WordBitMapRow;
use srch::cache::Cache;
use srch::cache::CacheError;
use srch::cache::FileEntry;
use srch::cache::build_cache;
use srch::cache::decode_cache;
use srch::cache::encode_cache;

fn sample_cache() -> Cache {
    let dict = vec!["cat".to_string(), "dog".to_string(), "fish".to_string()];
    let files = vec![
        ("pets.txt".to_string(), "A dog and a cat".to_string()),
        ("sea.txt".to_string(), "fish fish fish".to_string()),
        ("empty.txt".to_string(), "".to_string()),
    ];
    build_cache("/usr/share/dict/words".to_string(), &dict, &files)
}

#[test]
fn build_cache_pairs_each_file_with_its_bitmap() {
    let c = sample_cache();
    assert_eq!(c.dict_path, "/usr/share/dict/words".to_string());
    assert_eq!(c.entries.len(), 3);
    assert_eq!(c.entries[0].name, "pets.txt".to_string());
    assert_eq!(c.entries[0].bitmap.bytes, vec![0b011]);
    assert_eq!(c.entries[1].name, "sea.txt".to_string());
    assert_eq!(c.entries[1].bitmap.bytes, vec![0b100]);
    assert_eq!(c.entries[2].name, "empty.txt".to_string());
    assert_eq!(c.entries[2].bitmap.bytes, vec![0]);
}

#[test]
fn round_trip_keeps_names_and_every_bitmap_byte() {
    let c = sample_cache();
    let bytes = encode_cache(&c);
    let c2 = decode_cache(&bytes).unwrap();
    assert_eq!(c2.dict_path, c.dict_path);
    assert_eq!(c2.entries.len(), c.entries.len());
    for (e2, e) in c2.entries.iter().zip(c.entries.iter()) {
        assert_eq!(e2.name, e.name);
        assert_eq!(e2.bitmap.bytes, e.bitmap.bytes);
    }
}

#[test]
fn round_trip_of_empty_cache() {
    let c = Cache { dict_path: ".words".to_string(), entries: Vec::new() };
    let bytes = encode_cache(&c);
    let c2 = decode_cache(&bytes).unwrap();
    assert_eq!(c2.dict_path, ".words".to_string());
    assert_eq!(c2.entries.len(), 0);
}

#[test]
fn round_trip_keeps_non_ascii_names() {
    let c = Cache {
        dict_path: "wörter".to_string(),
        entries: vec![FileEntry {
            name: "naïve café.txt".to_string(),
            bitmap: WordBitMapRow { bytes: vec![7, 0] },
        }],
    };
    let bytes = encode_cache(&c);
    let c2 = decode_cache(&bytes).unwrap();
    assert_eq!(c2.dict_path, "wörter".to_string());
    assert_eq!(c2.entries[0].name, "naïve café.txt".to_string());
    assert_eq!(c2.entries[0].bitmap.bytes, vec![7, 0]);
}

#[test]
fn names_with_newlines_survive_the_codec() {
    let c = Cache {
        dict_path: "dict\npath".to_string(),
        entries: vec![FileEntry {
            name: "odd\nname".to_string(),
            bitmap: WordBitMapRow { bytes: vec![1] },
        }],
    };
    let bytes = encode_cache(&c);
    let c2 = decode_cache(&bytes).unwrap();
    assert_eq!(c2.dict_path, "dict\npath".to_string());
    assert_eq!(c2.entries[0].name, "odd\nname".to_string());
}

#[test]
fn truncated_tail_is_malformed_cache_layout() {
    let c = sample_cache();
    let mut bytes = encode_cache(&c);
    bytes.pop();
    assert!(matches!(decode_cache(&bytes), Err(CacheError::MalformedCacheLayout)));
}

#[test]
fn short_or_garbled_bytes_are_cache_unreadable() {
    assert!(matches!(decode_cache(&vec![]), Err(CacheError::CacheUnreadable)));
    assert!(matches!(decode_cache(&vec![1, 2, 3]), Err(CacheError::CacheUnreadable)));
    // a path length that runs past the end
    let mut bytes = vec![9, 0, 0, 0, 0, 0, 0, 0];
    bytes.push(b'x');
    assert!(matches!(decode_cache(&bytes), Err(CacheError::CacheUnreadable)));
    // a path that is not UTF-8
    let mut bytes = vec![1, 0, 0, 0, 0, 0, 0, 0, 0xff];
    bytes.extend_from_slice(&[0, 0, 0, 0, 0, 0, 0, 0]);
    bytes.extend_from_slice(&[0, 0, 0, 0, 0, 0, 0, 0]);
    assert!(matches!(decode_cache(&bytes), Err(CacheError::CacheUnreadable)));
}

#[test]
fn decode_checks_the_chunk_grid() {
    // a well-formed empty cache, then one stray byte
    let c = Cache { dict_path: "d".to_string(), entries: Vec::new() };
    let mut bytes = encode_cache(&c);
    bytes.push(0);
    assert!(matches!(decode_cache(&bytes), Err(CacheError::MalformedCacheLayout)));
}
