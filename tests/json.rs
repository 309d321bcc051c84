use dupscan::index::DuplicateIndex;
use dupscan::scan::build_index;
use serde_json::Value;

fn to_json(index: &DuplicateIndex) -> Value {
    let mut obj = serde_json::Map::new();
    for d in index.digests() {
        let e = index.entry(&d).unwrap();
        let mut group = serde_json::Map::new();
        group.insert("size".to_string(), Value::from(e.size));
        group.insert("files".to_string(), Value::Array(e.files.iter().map(|f| Value::from(f.as_str())).collect()));
        obj.insert(d, Value::Object(group));
    }
    Value::Object(obj)
}

#[test]
fn json_round_trip_keeps_groups() {
    let files = vec![
        ("a.txt".to_string(), 5u64, b"hello".to_vec()),
        ("b.txt".to_string(), 5u64, b"hello".to_vec()),
        ("c.txt".to_string(), 5u64, b"world".to_vec()),
    ];
    let shown = build_index(&files).select_groups(true);
    let text = to_json(&shown).to_string();
    let back: Value = serde_json::from_str(&text).unwrap();
    let obj = back.as_object().unwrap();
    assert_eq!(obj.len(), shown.total_groups());
    for d in shown.digests() {
        let e = shown.entry(&d).unwrap();
        let g = &obj[&d];
        assert_eq!(g["size"].as_u64().unwrap(), e.size);
        let paths: Vec<String> = g["files"].as_array().unwrap().iter().map(|v| v.as_str().unwrap().to_string()).collect();
        assert_eq!(paths, e.files);
    }
}
