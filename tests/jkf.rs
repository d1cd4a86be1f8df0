use w7a::jkf::{json_block, quot, Header, Initial};

#[test]
fn test_initial_json() {
    let init = Initial::default();
    let json = init.as_json();
    assert!(json.starts_with("\t\"initial\":"));
    assert!(json.contains("HIRATE"));
}

#[test]
fn test_header_json() {
    let fields: Vec<(String, String)> = vec![
        ("開始日時", "2013/07/10 00:00:00"),
        ("先手", "Habu Yoshiharu, Oi"),
        ("後手", "Namekata Hisashi, Challenger"),
        ("棋戦", "54th Oi-sen, Game 1"),
    ]
    .into_iter()
    .map(|(k, v)| (k.to_string(), v.to_string()))
    .collect();
    let header = Header::new(fields);
    let json = header.as_json();
    assert!(json.starts_with("\t\"header\":"));
    assert!(json.contains("Habu"));
    assert!(json.contains("2013"));
    assert!(json.contains("54th Oi-sen"));
}

#[test]
fn block_layout() {
    let attribs = vec![
        ("a".to_string(), "1".to_string()),
        ("b".to_string(), "2".to_string()),
    ];
    assert_eq!(
        "\t\"x\":\n\t\t{\n\t\t\t\"a\": \"1\",\n\t\t\t\"b\": \"2\" }\n",
        json_block("x", &attribs)
    );
    assert_eq!("\t\"x\":\n\t\t{\n\t\t\t }\n", json_block("x", &vec![]));
}

#[test]
fn quot_wraps() {
    assert_eq!("\"Habu\"", quot("Habu"));
    assert_eq!("\"\"", quot(""));
}

#[test]
fn initial_block_text() {
    assert_eq!(
        "\t\"initial\":\n\t\t{\n\t\t\t\"preset\": \"HIRATE\" }\n",
        Initial::default().as_json()
    );
}
