use mvitop::gpu_process::{parse_i32, sample_tasks, task_records, XmlItem};

const SAMPLE: &[u8] = br#"<?xml version="1.0" encoding="UTF-8"?>
<plist version="1.0"><dict>
<key>tasks</key><array>
<dict><key>pid</key><integer>42</integer><key>name</key><string>Metal App</string><key>gputime_ms_per_s</key><real>127.5</real></dict>
<dict><key>pid</key><integer>43</integer><key>name</key><string>Idle</string><key>gputime_ms_per_s</key><real>0</real></dict>
</array>
<key>all_tasks</key><dict><key>gputime_ms_per_s</key><real>127.5</real></dict>
</dict></plist>"#;

#[test]
fn parses_only_active_gpu_tasks() {
    let records = sample_tasks(SAMPLE).unwrap();
    let active: Vec<(i32, String, f64)> = records
        .iter()
        .filter_map(|r| {
            let time: f64 = r.gpu_time.parse().ok()?;
            (time.is_finite() && time > 0.0).then(|| (r.pid, r.name.clone(), time))
        })
        .collect();
    assert_eq!(active, vec![(42, "Metal App".to_string(), 127.5)]);
}

#[test]
fn rejects_malformed_plist() {
    assert!(sample_tasks(b"<plist><dict>").is_err());
}

#[test]
fn keeps_every_task_with_a_pid_and_a_time() {
    let records = sample_tasks(SAMPLE).unwrap();
    assert_eq!(records.len(), 2);
    assert_eq!((records[0].pid, records[0].name.as_str(), records[0].gpu_time.as_str()), (42, "Metal App", "127.5"));
    assert_eq!((records[1].pid, records[1].name.as_str(), records[1].gpu_time.as_str()), (43, "Idle", "0"));
}

#[test]
fn tasks_without_a_positive_pid_or_a_time_are_dropped() {
    let input = br#"<plist><dict><key>tasks</key><array>
<dict><key>pid</key><integer>0</integer><key>gputime_ms_per_s</key><real>5</real></dict>
<dict><key>pid</key><integer>7</integer><key>name</key><string>no time</string></dict>
<dict><key>pid</key><integer> 9 </integer><key>gputime_ms_per_s</key><real> 1.5 </real></dict>
</array></dict></plist>"#;
    let records = sample_tasks(input).unwrap();
    assert_eq!(records.len(), 1);
    assert_eq!(records[0].pid, 9);
    assert_eq!(records[0].name, "");
    assert_eq!(records[0].gpu_time, "1.5");
}

#[test]
fn dictionaries_outside_the_task_list_are_ignored() {
    let input = br#"<plist><dict><key>other</key><array><dict><key>pid</key><integer>5</integer><key>gputime_ms_per_s</key><real>2</real></dict></array></dict></plist>"#;
    assert!(sample_tasks(input).unwrap().is_empty());
}

#[test]
fn reads_events_as_the_parser_reports_them() {
    let items = vec![
        XmlItem::Start("key".into()),
        XmlItem::Text("tasks".into()),
        XmlItem::End("key".into()),
        XmlItem::Start("array".into()),
        XmlItem::Start("dict".into()),
        XmlItem::Start("key".into()),
        XmlItem::Text("pid".into()),
        XmlItem::End("key".into()),
        XmlItem::Start("integer".into()),
        XmlItem::Text("12".into()),
        XmlItem::End("integer".into()),
        XmlItem::Start("key".into()),
        XmlItem::Text("gputime_ms_per_s".into()),
        XmlItem::End("key".into()),
        XmlItem::Start("real".into()),
        XmlItem::Text("3".into()),
        XmlItem::End("real".into()),
        XmlItem::End("dict".into()),
        XmlItem::End("array".into()),
        XmlItem::Other,
    ];
    let records = task_records(&items);
    assert_eq!(records.len(), 1);
    assert_eq!(records[0].pid, 12);
}

#[test]
fn parses_decimal_integers_like_str_parse() {
    let p = |s: &str| parse_i32(&s.chars().collect());
    assert_eq!(p("42"), Some(42));
    assert_eq!(p("-17"), Some(-17));
    assert_eq!(p("+8"), Some(8));
    assert_eq!(p("2147483647"), Some(i32::MAX));
    assert_eq!(p("-2147483648"), Some(i32::MIN));
    assert_eq!(p("2147483648"), None);
    assert_eq!(p(""), None);
    assert_eq!(p("-"), None);
    assert_eq!(p("4x"), None);
    assert_eq!(p(" 4"), None);
}
