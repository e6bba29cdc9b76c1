use minigit::object::{Blob, Commit, Object, Tree, TreeEntry};
use minigit::hash_bytes;

#[test]
fn hash_is_stable_for_same_object() {
    let object1 = Object::Blob(Blob {
        bytes: b"hello\n".to_vec(),
    });

    let object2 = Object::Blob(Blob {
        bytes: b"hello\n".to_vec(),
    });

    assert_eq!(object1.hash(), object2.hash());
}

#[test]
fn hash_changes_when_content_changes() {
    let object1 = Object::Blob(Blob {
        bytes: b"hello\n".to_vec(),
    });

    let object2 = Object::Blob(Blob {
        bytes: b"goodbye\n".to_vec(),
    });

    assert_ne!(object1.hash(), object2.hash());
}

#[test]
fn object_encoding_parses_as_json() {
    let object = Object::Blob(Blob {
        bytes: b"hello\n".to_vec(),
    });

    let bytes = object.to_bytes();
    let decoded: serde_json::Value = serde_json::from_slice(&bytes).unwrap();

    assert_eq!(decoded["kind"], serde_json::Value::from("Blob"));
    let numbers: Vec<u64> = decoded["data"]["bytes"]
        .as_array()
        .unwrap()
        .iter()
        .map(|v| v.as_u64().unwrap())
        .collect();
    assert_eq!(numbers, vec![104, 101, 108, 108, 111, 10]);
}

#[test]
fn blob_encoding_is_pretty_json() {
    let object = Object::Blob(Blob { bytes: vec![1, 22] });
    let text = String::from_utf8(object.to_bytes()).unwrap();
    assert_eq!(
        text,
        "{\n  \"kind\": \"Blob\",\n  \"data\": {\n    \"bytes\": [\n      1,\n      22\n    ]\n  }\n}"
    );
}

#[test]
fn empty_blob_encodes_empty_array() {
    let object = Object::Blob(Blob { bytes: Vec::new() });
    let text = String::from_utf8(object.to_bytes()).unwrap();
    assert_eq!(text, "{\n  \"kind\": \"Blob\",\n  \"data\": {\n    \"bytes\": []\n  }\n}");
}

#[test]
fn tree_encoding_lists_entries() {
    let object = Object::Tree(Tree {
        entries: vec![TreeEntry {
            path: "a \"b\".txt".to_string(),
            blob: "ff".to_string(),
        }],
    });
    let text = String::from_utf8(object.to_bytes()).unwrap();
    assert_eq!(
        text,
        "{\n  \"kind\": \"Tree\",\n  \"data\": {\n    \"entries\": [\n      {\n        \"path\": \"a \\\"b\\\".txt\",\n        \"blob\": \"ff\"\n      }\n    ]\n  }\n}"
    );
}

#[test]
fn commit_encoding_lists_fields_in_order() {
    let object = Object::Commit(Commit {
        tree: "t".to_string(),
        parents: vec!["p1".to_string(), "p2".to_string()],
        message: "line\nnext".to_string(),
        timestamp_secs: 1700000000,
    });
    let text = String::from_utf8(object.to_bytes()).unwrap();
    assert_eq!(
        text,
        "{\n  \"kind\": \"Commit\",\n  \"data\": {\n    \"tree\": \"t\",\n    \"parents\": [\n      \"p1\",\n      \"p2\"\n    ],\n    \"message\": \"line\\nnext\",\n    \"timestamp_secs\": 1700000000\n  }\n}"
    );
}

#[test]
fn commit_without_parents_encodes_empty_array() {
    let object = Object::Commit(Commit {
        tree: "t".to_string(),
        parents: Vec::new(),
        message: String::new(),
        timestamp_secs: 0,
    });
    let text = String::from_utf8(object.to_bytes()).unwrap();
    assert!(text.contains("\"parents\": [],"));
    assert!(text.contains("\"timestamp_secs\": 0\n"));
}

#[test]
fn hash_bytes_is_sha256_hex() {
    assert_eq!(
        hash_bytes(b"abc"),
        "ba7816bf8f01cfea414140de5dae2223b00361a396177a9cb410ff61f20015ad"
    );
    assert_eq!(
        hash_bytes(b""),
        "e3b0c44298fc1c149afbf4c8996fb92427ae41e4649b934ca495991b7852b855"
    );
}

#[test]
fn object_hash_is_hash_of_encoding() {
    let object = Object::Blob(Blob { bytes: b"x".to_vec() });
    assert_eq!(object.hash(), hash_bytes(&object.to_bytes()));
    assert_eq!(object.hash().len(), 64);
}

#[test]
fn byte_array_layout_matches_serde_json() {
    let bytes: Vec<u8> = vec![0, 7, 255];
    assert_eq!(minigit::json::write_byte_array(&bytes, 1), serde_json::to_vec_pretty(&bytes).unwrap());
    let empty: Vec<u8> = Vec::new();
    assert_eq!(minigit::json::write_byte_array(&empty, 1), serde_json::to_vec_pretty(&empty).unwrap());
}

#[test]
fn string_array_layout_matches_serde_json() {
    let paths = vec!["a.txt".to_string(), "dir/\"q\".txt".to_string()];
    assert_eq!(minigit::json::write_string_array(&paths, 1), serde_json::to_vec_pretty(&paths).unwrap());
}

#[test]
fn index_layout_matches_serde_json() {
    let mut index = minigit::pathmap::PathMap::new();
    index.insert("b.txt".to_string(), "2".to_string());
    index.insert("a.txt".to_string(), "1".to_string());
    let mut entries = serde_json::Map::new();
    entries.insert("a.txt".to_string(), serde_json::Value::from("1"));
    entries.insert("b.txt".to_string(), serde_json::Value::from("2"));
    let mut top = serde_json::Map::new();
    top.insert("entries".to_string(), serde_json::Value::Object(entries));
    let expected = serde_json::to_vec_pretty(&serde_json::Value::Object(top)).unwrap();
    assert_eq!(minigit::repo::index_bytes(&index), expected);
}

#[test]
fn string_literals_are_escaped_as_serde_json_does() {
    let text = "tab\there \"quoted\" back\\slash \u{1} é";
    assert_eq!(minigit::json::write_str(text), serde_json::to_vec(text).unwrap());
}

#[test]
fn decimal_numbers_are_written_in_full() {
    assert_eq!(minigit::json::write_u64(0), b"0".to_vec());
    assert_eq!(minigit::json::write_u64(u64::MAX), u64::MAX.to_string().into_bytes());
}

#[test]
fn control_characters_are_written_as_unicode_escapes() {
    assert_eq!(minigit::json::write_str("\u{1}\u{1f}"), b"\"\\u0001\\u001f\"".to_vec());
    assert_eq!(minigit::json::write_str("\u{8}\u{c}\r"), b"\"\\b\\f\\r\"".to_vec());
    assert_eq!(minigit::json::write_str("/\u{7f}"), "\"/\u{7f}\"".as_bytes().to_vec());
}
