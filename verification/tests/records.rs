use yomikata::parse::{
    CutPattern, JaPronAccent, cut, parse_ja_altread, parse_ja_kanjitab, parse_ja_pos,
    parse_ja_pron, parse_number,
};

fn cv(s: &str) -> Vec<char> {
    s.chars().collect()
}

#[test]
fn number_parsing() {
    assert_eq!(parse_number(&cv("0")), Some(0));
    assert_eq!(parse_number(&cv("27")), Some(27));
    assert_eq!(parse_number(&cv("255")), Some(255));
    assert_eq!(parse_number(&cv("256")), None);
    assert_eq!(parse_number(&cv("")), None);
    assert_eq!(parse_number(&cv("2x")), None);
}

#[test]
fn cut_at_first_digit() {
    let (head, tail) = cut(&cv("\u{30A2}2"), CutPattern::Digit);
    assert_eq!(head, cv("\u{30A2}"));
    assert_eq!(tail, cv("2"));
    let (head2, tail2) = cut(&cv("12_loc"), CutPattern::NonDigit);
    assert_eq!(head2, cv("12"));
    assert_eq!(tail2, cv("_loc"));
    let (head3, tail3) = cut(&cv("abc"), CutPattern::Digit);
    assert_eq!(head3, cv("abc"));
    assert_eq!(tail3, cv(""));
}

#[test]
fn kanjitab_positional_cells() {
    let kt = parse_ja_kanjitab(&cv("\u{30AB}\u{30F3}|\u{30E8}\u{30A6}")).expect("parsed");
    assert_eq!(kt.readings.len(), 2);
    assert_eq!(kt.readings[0], (cv("\u{30AB}\u{30F3}"), 1));
    assert_eq!(kt.readings[1], (cv("\u{30E8}\u{30A6}"), 1));
    assert!(kt.alterations.is_empty());
    assert!(kt.omissions.is_empty());
}

#[test]
fn kanjitab_span_suffix() {
    let kt = parse_ja_kanjitab(&cv("\u{30A2}2")).expect("parsed");
    assert_eq!(kt.readings[0], (cv("\u{30A2}"), 2));
}

#[test]
fn kanjitab_alterations_and_omissions() {
    let kt = parse_ja_kanjitab(&cv("\u{30AB}\u{30F3}|k=\u{30E6}\u{30A6}|o2=\u{30CE}"))
        .expect("parsed");
    assert_eq!(kt.alterations.len(), 1);
    assert_eq!(kt.alterations[0], Some(cv("\u{30E6}\u{30A6}")));
    assert_eq!(kt.omissions.len(), 2);
    assert_eq!(kt.omissions[0], None);
    assert_eq!(kt.omissions[1], Some(cv("\u{30CE}")));
}

#[test]
fn kanjitab_numbered_cells_must_increase() {
    let kt = parse_ja_kanjitab(&cv("2=\u{30A2}")).expect("parsed");
    assert_eq!(kt.readings.len(), 2);
    assert_eq!(kt.readings[0], (cv(""), 1));
    assert_eq!(kt.readings[1], (cv("\u{30A2}"), 1));
    assert!(parse_ja_kanjitab(&cv("\u{30A2}|1=\u{30A4}")).is_none());
}

#[test]
fn kanjitab_rejects_malformed_cells() {
    assert!(parse_ja_kanjitab(&cv("k999=\u{30A2}")).is_none());
    assert!(parse_ja_kanjitab(&cv("k=\u{30A2}|k=\u{30A4}")).is_none());
    assert!(parse_ja_kanjitab(&cv("\u{30A2}2x")).is_none());
}

#[test]
fn kanjitab_empty_table_is_none() {
    assert!(parse_ja_kanjitab(&cv("")).is_none());
    assert!(parse_ja_kanjitab(&cv("x=y")).is_none());
}

#[test]
fn pron_readings_and_accents() {
    let jp = parse_ja_pron(&cv("\u{30AB}\u{30F3}\u{30E8}\u{30A6}|acc=h|acc2=o"))
        .expect("parsed");
    assert_eq!(jp.readings.len(), 1);
    assert_eq!(jp.readings[0], cv("\u{30AB}\u{30F3}\u{30E8}\u{30A6}"));
    assert_eq!(jp.accents.len(), 2);
    assert!(matches!(jp.accents[0], JaPronAccent::Numeric(0)));
    assert!(matches!(jp.accents[1], JaPronAccent::Odaka));
}

#[test]
fn pron_accent_codes() {
    let jp = parse_ja_pron(&cv("acc=a|acc2=3|acc3=")).expect("parsed");
    assert!(matches!(jp.accents[0], JaPronAccent::Numeric(1)));
    assert!(matches!(jp.accents[1], JaPronAccent::Numeric(3)));
    assert!(matches!(jp.accents[2], JaPronAccent::Unmarked));
}

#[test]
fn pron_location_and_reference_suffixes() {
    let jp = parse_ja_pron(&cv("acc=h|acc_loc=Kyoto|acc_ref=DJR|acc_note=rare"))
        .expect("parsed");
    assert_eq!(jp.accent_locations.len(), 1);
    assert!(jp.accent_locations[0]);
}

#[test]
fn pron_rejects_malformed_cells() {
    assert!(parse_ja_pron(&cv("acc=q")).is_none());
    assert!(parse_ja_pron(&cv("2=\u{30A2}")).is_none());
    assert!(parse_ja_pron(&cv("acc_x=1")).is_none());
}

#[test]
fn pos_generic_skips_leading_word() {
    let jp = parse_ja_pos(true, &cv("noun|\u{304B}\u{3093}")).expect("parsed");
    assert_eq!(jp.readings.len(), 1);
    assert_eq!(jp.readings[0], cv("\u{304B}\u{3093}"));
}

#[test]
fn pos_plain_keeps_all_positionals() {
    let jp = parse_ja_pos(false, &cv("\u{304B}\u{3093}|\u{3088}\u{3046}")).expect("parsed");
    assert_eq!(jp.readings.len(), 2);
}

#[test]
fn pos_numbered_parameters_in_order() {
    let jp = parse_ja_pos(true, &cv("1=\u{304B}\u{3093}")).expect("parsed");
    assert_eq!(jp.readings[0], cv("\u{304B}\u{3093}"));
    assert!(parse_ja_pos(true, &cv("2=\u{304B}")).is_none());
}

#[test]
fn altread_takes_hira_values() {
    let jp = parse_ja_altread(&cv("hira=\u{304B}\u{3093}|x=y|hira=\u{3088}\u{3046}"));
    assert_eq!(jp.readings.len(), 2);
    assert_eq!(jp.readings[0], cv("\u{304B}\u{3093}"));
    assert_eq!(jp.readings[1], cv("\u{3088}\u{3046}"));
}
