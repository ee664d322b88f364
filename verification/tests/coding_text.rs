use phase_similarity::convert_to_coding;
use phase_similarity::try_convert_to_coding;

#[test]
fn test_convert_to_coding() {
    let coding = String::from("256:256:0:0:38");
    let c = convert_to_coding(coding);
    let expected_c: Vec<u16> = vec![256, 256, 0, 0, 38];
    assert_eq!(expected_c, c);
}

#[test]
fn empty_text_gives_no_values() {
    assert!(convert_to_coding(String::new()).is_empty());
}

#[test]
fn empty_fields_are_skipped() {
    let c = convert_to_coding(String::from(":7::65535:"));
    assert_eq!(c, vec![7, 65535]);
}

#[test]
fn leading_zeros_are_read_as_decimal() {
    let c = convert_to_coding(String::from("007:10"));
    assert_eq!(c, vec![7, 10]);
}

#[test]
fn single_field_without_colon() {
    let c = convert_to_coding(String::from("4096"));
    assert_eq!(c, vec![4096]);
}

#[test]
fn try_accepts_well_formed_text() {
    let c = try_convert_to_coding("256:256:0:0:38");
    assert_eq!(c, Some(vec![256, 256, 0, 0, 38]));
}

#[test]
fn try_rejects_a_stray_character() {
    assert_eq!(try_convert_to_coding("1:2a:3"), None);
    assert_eq!(try_convert_to_coding("-4"), None);
    assert_eq!(try_convert_to_coding("1,2"), None);
}

#[test]
fn try_rejects_an_oversized_field() {
    assert_eq!(try_convert_to_coding("65536"), None);
    assert_eq!(try_convert_to_coding("1:99999999999999999999:2"), None);
    assert_eq!(try_convert_to_coding("65535"), Some(vec![65535]));
}
