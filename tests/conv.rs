use w7a::conv::{
    convert_date, convert_month, mk_jstr, two_digits, Convert, Converter, DateConverter,
    FieldRule, JsonString, Xform,
};
use w7a::w7a::{Header, Scanner};
use w7a::ErrStr;

fn month(m: &str) -> ErrStr<JsonString> {
    DateConverter::MONTH.convert(&m.to_string())
}

fn date(dt: &str) -> ErrStr<JsonString> {
    DateConverter::DATE.convert(&dt.to_string())
}

fn pass_month(m: &str, exp: &str) {
    assert_eq!(Ok(mk_jstr(exp)), month(m));
}

fn fail_month(m: &str) {
    assert!(month(m).is_err());
}

fn pass_date(dt: &str, exp: &str) {
    assert_eq!(Ok(mk_jstr(&format!("{exp} 00:00:01"))), date(dt));
}

fn sample_header() -> Vec<String> {
    vec![
        "[Black \"Habu Yoshiharu, Oi\"]",
        "[White \"Namekata Hisashi, Challenger\"]",
        "[Event \"54th Oi-sen, Game 1\"]",
        "[Date \"July 10th and 11th 2013\"]",
        "",
        "This is the first game of the 54th Oi title match.",
    ]
    .into_iter()
    .map(String::from)
    .collect()
}

#[test]
fn test_convert_month() {
    pass_month("April", "04");
}

#[test]
fn fail_convert_month() {
    fail_month("Lavinge");
}

#[test]
fn test_my_birthday() {
    pass_date("April 26th, 1967", "1967/04/26");
}

#[test]
fn test_54th_oi_game_1_date() {
    pass_date("July 10th and 11th 2013", "2013/07/10");
}

#[test]
fn fail_mayan_date() {
    let garbage_out = date("12 Caban 15 Ceh");
    assert!(garbage_out.is_err());
}

#[test]
fn test_convert_w7a_header() {
    let (hdr, _rest) = Header::ingest(&sample_header()).unwrap();
    let conv = Converter::default();
    let json = conv.convert(&hdr);
    assert!(!json.is_err());
}

#[test]
fn month_names_in_any_case_and_short() {
    assert_eq!(convert_month("december").unwrap().as_json(), "12");
    assert_eq!(convert_month("JAN").unwrap().as_json(), "01");
    assert_eq!(convert_month("Sep").unwrap().as_json(), "09");
    assert!(convert_month("Septem").is_err());
    assert!(convert_month("").is_err());
}

#[test]
fn date_errors() {
    // no month
    assert!(convert_date("").is_err());
    // no day token
    assert!(convert_date("April").is_err());
    // a day token without digits
    assert!(convert_date("April the 1967").is_err());
    // a year that is not all digits
    assert!(convert_date("April 26th, 1967AD").is_err());
    // a day that does not fit
    assert!(convert_date("April 99999999999 1967").is_err());
}

#[test]
fn date_with_two_digit_day() {
    assert_eq!(
        convert_date("november 3rd 2001").unwrap().as_json(),
        "2001/11/03 00:00:01"
    );
    assert_eq!(
        convert_date("Dec 31st 1999").unwrap().as_json(),
        "1999/12/31 00:00:01"
    );
}

#[test]
fn two_digits_pads() {
    assert_eq!(two_digits(0).as_json(), "00");
    assert_eq!(two_digits(7).as_json(), "07");
    assert_eq!(two_digits(10).as_json(), "10");
    assert_eq!(two_digits(123).as_json(), "123");
}

#[test]
fn converter_maps_fields() {
    let (hdr, _rest) = Header::ingest(&sample_header()).unwrap();
    let p = Converter::default().convert(&hdr).unwrap();
    let f = &p.header.fields;
    assert_eq!(4, f.len());
    assert_eq!(("先手".to_string(), "Habu Yoshiharu, Oi".to_string()), f[0]);
    assert_eq!(("後手".to_string(), "Namekata Hisashi, Challenger".to_string()), f[1]);
    assert_eq!(("棋戦".to_string(), "54th Oi-sen, Game 1".to_string()), f[2]);
    assert_eq!(("開始日時".to_string(), "2013/07/10 00:00:01".to_string()), f[3]);
    assert_eq!("HIRATE", p.initial.preset);
    let json = p.as_json();
    assert!(json.starts_with("\t\"header\":"));
    assert!(json.contains("\"preset\": \"HIRATE\""));
}

#[test]
fn converter_skips_missing_fields() {
    let lines: Vec<String> = vec!["[Event \"Meijin-sen\"]".to_string()];
    let (hdr, _rest) = Header::ingest(&lines).unwrap();
    let p = Converter::default().convert(&hdr).unwrap();
    assert_eq!(vec![("棋戦".to_string(), "Meijin-sen".to_string())], p.header.fields);
}

#[test]
fn converter_fails_on_bad_date() {
    let lines: Vec<String> = vec!["[Date \"12 Caban 15 Ceh\"]".to_string()];
    let (hdr, _rest) = Header::ingest(&lines).unwrap();
    assert!(Converter::default().convert(&hdr).is_err());
}

#[test]
fn converter_with_own_table() {
    let conv = Converter {
        header: vec![FieldRule {
            w7a: "Site".to_string(),
            jkf: "場所".to_string(),
            xform: Xform::Identity,
        }],
    };
    let lines: Vec<String> = vec!["[Site \"Tokyo\"]".to_string()];
    let (hdr, _rest) = Header::ingest(&lines).unwrap();
    let p = conv.convert(&hdr).unwrap();
    assert_eq!(vec![("場所".to_string(), "Tokyo".to_string())], p.header.fields);
}

#[test]
fn convert_whole_record() {
    let mut file = sample_header();
    file.push("1.P7g-7f     00:00:00  00:00:00".to_string());
    let json = w7a::conv::convert(&file).unwrap();
    assert!(json.starts_with("{\n\t\"header\":"));
    assert!(json.contains("\"開始日時\": \"2013/07/10 00:00:01\""));
    assert!(json.ends_with("\"preset\": \"HIRATE\" }\n}\n"));
}

#[test]
fn convert_fails_on_bad_move() {
    let mut file = sample_header();
    file.push("1.G7g-7f     00:00:00  00:00:00".to_string());
    assert!(w7a::conv::convert(&file).is_err());
}

#[test]
fn date_split_on_any_whitespace() {
    assert_eq!(
        convert_date("April\t26th,\t1967").unwrap().as_json(),
        "1967/04/26 00:00:01"
    );
    assert_eq!(
        convert_date("April  26th, 1967").unwrap().as_json(),
        "1967/04/26 00:00:01"
    );
    assert_eq!(
        convert_date(" April 26th, 1967 ").unwrap().as_json(),
        "1967/04/26 00:00:01"
    );
    assert!(convert_date("   ").is_err());
}

#[test]
fn date_middle_tokens_ignored() {
    assert_eq!(
        convert_date("July 10th and 11th 2013"),
        convert_date("July 10th 2013")
    );
}
