use icon_theme::color::{apply_color_mappings, replace_color_insensitive, to_short_hex};

fn mapping(from: &str, to: &str) -> (String, String) {
    (from.to_string(), to.to_string())
}

#[test]
fn longer_hex_literal_is_left_alone() {
    let content = "fill=\"#aabbcc\" stroke=\"#aabbccdd\"";
    let r = apply_color_mappings(content, &[mapping("#AABBCC", "#112233")]);
    assert_eq!(r, "fill=\"#112233\" stroke=\"#aabbccdd\"");
}

#[test]
fn short_form_is_rewritten_to_short_form() {
    let content = "<path fill=\"#abc\" stroke=\"#ABC\"/>";
    let r = apply_color_mappings(content, &[mapping("#AABBCC", "#112233")]);
    assert_eq!(r, "<path fill=\"#123\" stroke=\"#123\"/>");
}

#[test]
fn short_form_is_rewritten_to_full_target_without_short_form() {
    let r = apply_color_mappings("a #abc b", &[mapping("#aabbcc", "#123456")]);
    assert_eq!(r, "a #123456 b");
}

#[test]
fn no_short_form_when_channels_differ() {
    let r = apply_color_mappings("#abc #abcdef", &[mapping("#abcdef", "#000000")]);
    assert_eq!(r, "#abc #000000");
}

#[test]
fn empty_mapping_list_is_a_fixed_point() {
    let content = "<svg fill=\"#AaBbCc\">#abc</svg>";
    let ms = vec![mapping("#aabbcc", "#ffffff"), mapping("#FFFFFF", "#010203")];
    let once = apply_color_mappings(content, &ms);
    assert_eq!(apply_color_mappings(&once, &[]), once);
    assert_eq!(apply_color_mappings(content, &[]), content);
}

#[test]
fn mappings_compound_in_order() {
    let ms = vec![mapping("#aabbcc", "#112233"), mapping("#112233", "#445566")];
    assert_eq!(apply_color_mappings("x=#AABBCC;", &ms), "x=#445566;");
    let reversed = vec![mapping("#112233", "#445566"), mapping("#aabbcc", "#112233")];
    assert_eq!(apply_color_mappings("x=#AABBCC;", &reversed), "x=#112233;");
}

#[test]
fn match_is_case_insensitive_and_keeps_other_text() {
    let r = replace_color_insensitive("Fill:#AbCdEf;Stroke:#abcdef", "#ABCDEF", "#000000");
    assert_eq!(r, "Fill:#000000;Stroke:#000000");
}

#[test]
fn match_followed_by_non_hex_letter_is_replaced() {
    assert_eq!(replace_color_insensitive("#aabbccg", "#aabbcc", "#1"), "#1g");
    assert_eq!(replace_color_insensitive("#aabbccF", "#aabbcc", "#1"), "#aabbccF");
    assert_eq!(replace_color_insensitive("#aabbcc", "#aabbcc", "#1"), "#1");
}

#[test]
fn match_preceded_by_hex_digit_is_replaced() {
    assert_eq!(replace_color_insensitive("#abc", "bc", "ZZ"), "#aZZ");
}

#[test]
fn no_match_returns_content_unchanged() {
    assert_eq!(replace_color_insensitive("héllo wörld", "#abcdef", "#000000"), "héllo wörld");
    assert_eq!(replace_color_insensitive("", "#abcdef", "#000000"), "");
}

#[test]
fn short_hex_of_doubled_channels() {
    assert_eq!(to_short_hex("#112233"), Some("#123".to_string()));
    assert_eq!(to_short_hex("#AABBCC"), Some("#ABC".to_string()));
    assert_eq!(to_short_hex("#123456"), None);
    assert_eq!(to_short_hex("#abc"), None);
    assert_eq!(to_short_hex(""), None);
    assert_eq!(to_short_hex("#gghhii"), None);
    assert_eq!(to_short_hex("xaabbcc"), None);
    assert_eq!(to_short_hex("#aabbc "), None);
}
