use waview::parse::parse_waveform;

fn floats(samples: &Vec<String>) -> Vec<f64> {
    samples.iter().map(|s| s.parse::<f64>().unwrap()).collect()
}

#[test]
fn scenario_basic_table() {
    let w = parse_waveform(b"time,value\n0,1\n1,2\n2,3").unwrap();
    assert_eq!(w.len(), 2);
    assert_eq!(floats(w.get("time").unwrap()), vec![0.0, 1.0, 2.0]);
    assert_eq!(floats(w.get("value").unwrap()), vec![1.0, 2.0, 3.0]);
}

#[test]
fn scenario_mixed_columns() {
    let w = parse_waveform(b"a,b\nfoo,1\n2,bar").unwrap();
    assert_eq!(w.len(), 2);
    assert_eq!(floats(w.get("a").unwrap()), vec![2.0]);
    assert_eq!(floats(w.get("b").unwrap()), vec![1.0]);
}

#[test]
fn scenario_empty_input() {
    let w = parse_waveform(b"").unwrap();
    assert_eq!(w.len(), 0);
}

#[test]
fn scenario_header_only() {
    let w = parse_waveform(b"x,y\n").unwrap();
    assert_eq!(w.len(), 0);
    assert_eq!(w.get("x"), None);
    assert_eq!(w.get("y"), None);
}

#[test]
fn parse_is_idempotent() {
    let bytes = b"time,value\n0,1\n1,2\n2,3";
    let w1 = parse_waveform(bytes).unwrap();
    let w2 = parse_waveform(bytes).unwrap();
    assert_eq!(w1.len(), w2.len());
    assert_eq!(w1.get("time"), w2.get("time"));
    assert_eq!(w1.get("value"), w2.get("value"));
}

#[test]
fn empty_channel_is_dropped() {
    let w = parse_waveform(b"a,b\n1,x\n2,y").unwrap();
    assert_eq!(w.len(), 1);
    assert_eq!(floats(w.get("a").unwrap()), vec![1.0, 2.0]);
    assert_eq!(w.get("b"), None);
}

#[test]
fn ragged_rows_are_tolerated() {
    let w = parse_waveform(b"a,b\n1\n4,5,6\n").unwrap();
    assert_eq!(w.len(), 2);
    assert_eq!(floats(w.get("a").unwrap()), vec![1.0, 4.0]);
    assert_eq!(floats(w.get("b").unwrap()), vec![5.0]);
}

#[test]
fn duplicate_headers_share_one_channel() {
    let w = parse_waveform(b"a,a\n1,2\n3,4\n").unwrap();
    assert_eq!(w.len(), 1);
    assert_eq!(floats(w.get("a").unwrap()), vec![1.0, 2.0, 3.0, 4.0]);
}

#[test]
fn headers_and_fields_are_trimmed() {
    let w = parse_waveform(b" time , value \n 0 , 1 \n").unwrap();
    assert_eq!(w.len(), 2);
    assert_eq!(floats(w.get("time").unwrap()), vec![0.0]);
    assert_eq!(floats(w.get("value").unwrap()), vec![1.0]);
}

#[test]
fn crlf_line_endings() {
    let w = parse_waveform(b"a,b\r\n1,2\r\n3,4").unwrap();
    assert_eq!(floats(w.get("a").unwrap()), vec![1.0, 3.0]);
    assert_eq!(floats(w.get("b").unwrap()), vec![2.0, 4.0]);
}

#[test]
fn float_literal_grammar() {
    let w = parse_waveform(b"x\n+1.5e-3\ninf\nNaN\n.5\n5.\n1e\n.\n--2\nabc\n2e+10\n").unwrap();
    let kept = w.get("x").unwrap();
    assert_eq!(
        kept,
        &vec![
            "+1.5e-3".to_string(),
            "inf".to_string(),
            "NaN".to_string(),
            ".5".to_string(),
            "5.".to_string(),
            "2e+10".to_string(),
        ]
    );
    for s in kept {
        assert!(s.parse::<f64>().is_ok());
    }
    for s in ["1e", ".", "--2", "abc"] {
        assert!(s.parse::<f64>().is_err());
    }
}

#[test]
fn non_numeric_rows_leave_channel_absent() {
    let w = parse_waveform(b"name,score\nalice,x\nbob,y\n").unwrap();
    assert_eq!(w.len(), 0);
}

#[test]
fn invalid_utf8_is_parse_error() {
    let r = parse_waveform(&[0x61, 0x2c, 0x62, 0x0a, 0xff, 0xfe]);
    assert_eq!(r.err().unwrap(), waview::WaveError::Parse);
}
