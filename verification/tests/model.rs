use waview::model::Waveform;

#[test]
fn test_new() {
    let waveform = Waveform::new();
    assert_eq!(waveform.len(), 0);
}

#[test]
fn test_insert_and_get() {
    let mut waveform = Waveform::new();
    let key = "test_key".to_string();
    let value = vec!["1.0".to_string(), "2.0".to_string(), "3.0".to_string()];

    waveform.insert(key.clone(), value.clone());

    assert_eq!(waveform.get(&key), Some(&value));
    assert_eq!(waveform.get("non_existent_key"), None);
}

#[test]
fn test_multiple_inserts() {
    let mut waveform = Waveform::new();
    waveform.insert("key1".to_string(), vec!["1.0".to_string(), "2.0".to_string()]);
    waveform.insert("key1".to_string(), vec!["3.0".to_string(), "4.0".to_string()]);

    assert_eq!(
        waveform.get("key1"),
        Some(&vec!["3.0".to_string(), "4.0".to_string()])
    );
    assert_eq!(waveform.len(), 1);
}

#[test]
fn test_empty_vec() {
    let mut waveform = Waveform::new();
    waveform.insert("empty".to_string(), vec![]);

    assert_eq!(waveform.get("empty"), Some(&vec![]));
}

#[test]
fn test_large_dataset() {
    let mut waveform = Waveform::new();
    let large_vec: Vec<String> = (0..1000000).map(|i| i.to_string()).collect();

    waveform.insert("large".to_string(), large_vec.clone());

    assert_eq!(waveform.get("large"), Some(&large_vec));
}

#[test]
fn append_value_extends_one_channel() {
    let mut waveform = Waveform::new();
    waveform.insert("a".to_string(), vec![]);
    waveform.insert("b".to_string(), vec!["9".to_string()]);

    assert!(waveform.append_value("a", "1".to_string()));
    assert!(waveform.append_value("a", "2".to_string()));
    assert!(!waveform.append_value("missing", "3".to_string()));

    assert_eq!(
        waveform.get("a"),
        Some(&vec!["1".to_string(), "2".to_string()])
    );
    assert_eq!(waveform.get("b"), Some(&vec!["9".to_string()]));
    assert_eq!(waveform.get("missing"), None);
}

#[test]
fn drop_empty_removes_only_empty_channels() {
    let mut waveform = Waveform::new();
    waveform.insert("kept".to_string(), vec!["1".to_string()]);
    waveform.insert("dropped".to_string(), vec![]);

    waveform.drop_empty();

    assert_eq!(waveform.len(), 1);
    assert_eq!(waveform.get("kept"), Some(&vec!["1".to_string()]));
    assert_eq!(waveform.get("dropped"), None);
}

#[test]
fn channel_at_names_every_channel() {
    let mut waveform = Waveform::new();
    waveform.insert("x".to_string(), vec!["1".to_string()]);
    waveform.insert("y".to_string(), vec!["2".to_string()]);

    let mut names: Vec<String> = Vec::new();
    for i in 0..waveform.len() {
        names.push(waveform.channel_at(i).clone());
    }
    names.sort();
    assert_eq!(names, vec!["x".to_string(), "y".to_string()]);
}

#[test]
fn test_retain() {
    let mut waveform = Waveform::new();
    waveform.insert("key1".to_string(), vec!["1.0".to_string(), "2.0".to_string()]);
    waveform.insert(
        "key2".to_string(),
        vec!["3.0".to_string(), "4.0".to_string(), "5.0".to_string()],
    );
    waveform.insert(
        "key3".to_string(),
        vec!["5.0".to_string(), "6.0".to_string(), "7.0".to_string()],
    );

    waveform.retain(|_, values| values.len() > 2);

    assert_eq!(waveform.get("key1"), None);
    assert_eq!(
        waveform.get("key2"),
        Some(&vec!["3.0".to_string(), "4.0".to_string(), "5.0".to_string()])
    );
    assert_eq!(
        waveform.get("key3"),
        Some(&vec!["5.0".to_string(), "6.0".to_string(), "7.0".to_string()])
    );
}

#[test]
fn default_is_empty() {
    let waveform = Waveform::default();
    assert_eq!(waveform.len(), 0);
}
