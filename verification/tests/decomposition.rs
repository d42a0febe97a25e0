use yomikata::infer::{
    Atom, DecompositionError, align, infer_accent, infer_decompositions, infer_pos_readings,
    pos_reading_ignore, reading_ignore,
};
use yomikata::parse::{JaKanjitab, JaPos, JaPron, JaPronAccent};

fn cv(s: &str) -> Vec<char> {
    s.chars().collect()
}

fn table(cells: &[(&str, u8)]) -> JaKanjitab {
    JaKanjitab {
        readings: cells.iter().map(|(r, n)| (cv(r), *n)).collect(),
        alterations: Vec::new(),
        omissions: Vec::new(),
    }
}

// A two-ideograph title (kan'you).
fn two_kanji_title() -> Vec<char> {
    cv("\u{5BDB}\u{5BB9}")
}

#[test]
fn decomposition_two_ruby_atoms() {
    let kt = table(&[("\u{30AB}\u{30F3}", 1), ("\u{30E8}\u{30A6}", 1)]);
    let cands = vec![cv("\u{30AB}\u{30F3}\u{30E8}\u{30A6}")];
    let d = infer_decompositions(&two_kanji_title(), kt, &cands).expect("decomposes");
    assert_eq!(d.atoms.len(), 2);
    assert!(matches!(&d.atoms[0], Atom::Ruby { character_count: 1, .. }));
    assert!(matches!(&d.atoms[1], Atom::Ruby { character_count: 1, .. }));
    assert_eq!(d.reading(), cv("\u{30AB}\u{30F3}\u{30E8}\u{30A6}"));
}

#[test]
fn decomposition_round_trip_reading_is_a_candidate() {
    let kt = table(&[("\u{30AB}\u{30F3}", 1), ("\u{30E8}\u{30A6}", 1)]);
    let cands = vec![
        cv("\u{30DF}\u{30BA}"),
        cv("\u{30AB}\u{30F3}\u{30E8}\u{30A6}"),
    ];
    let d = infer_decompositions(&two_kanji_title(), kt, &cands).expect("decomposes");
    assert!(cands.contains(&d.reading()));
}

#[test]
fn decomposition_short_table_is_incomplete() {
    let kt = table(&[("\u{30AB}\u{30F3}", 1)]);
    let cands = vec![cv("\u{30AB}\u{30F3}\u{30E8}\u{30A6}")];
    let r = infer_decompositions(&two_kanji_title(), kt, &cands);
    assert!(matches!(r, Err(DecompositionError::Incomplete)));
}

#[test]
fn decomposition_empty_table() {
    let kt = table(&[]);
    let cands = vec![cv("\u{30AB}\u{30F3}")];
    let r = infer_decompositions(&two_kanji_title(), kt, &cands);
    assert!(matches!(r, Err(DecompositionError::Empty)));
}

#[test]
fn decomposition_no_candidate_matches() {
    let kt = table(&[("\u{30AB}\u{30F3}", 1), ("\u{30E8}\u{30A6}", 1)]);
    let cands = vec![cv("\u{30AB}\u{30F3}\u{30AB}\u{30F3}")];
    let r = infer_decompositions(&two_kanji_title(), kt, &cands);
    assert!(matches!(r, Err(DecompositionError::Mismatch)));
}

#[test]
fn decomposition_unsupported_title_character() {
    let kt = table(&[("\u{30AB}\u{30F3}", 1)]);
    let cands = vec![cv("\u{30AB}\u{30F3}")];
    let r = infer_decompositions(&cv("X\u{5BDB}"), kt, &cands);
    assert!(matches!(r, Err(DecompositionError::Unconsidered)));
}

#[test]
fn decomposition_wide_span_cell() {
    let kt = table(&[("\u{30AB}\u{30F3}\u{30E8}\u{30A6}", 2)]);
    let cands = vec![cv("\u{30AB}\u{30F3}\u{30E8}\u{30A6}")];
    let d = infer_decompositions(&two_kanji_title(), kt, &cands).expect("decomposes");
    assert_eq!(d.atoms.len(), 1);
    assert!(matches!(&d.atoms[0], Atom::Ruby { character_count: 2, .. }));
}

#[test]
fn decomposition_trailing_nonempty_cell_fails() {
    let kt = table(&[
        ("\u{30AB}\u{30F3}", 1),
        ("\u{30E8}\u{30A6}", 1),
        ("\u{30A8}", 1),
    ]);
    let cands = vec![cv("\u{30AB}\u{30F3}\u{30E8}\u{30A6}")];
    let r = infer_decompositions(&two_kanji_title(), kt, &cands);
    assert!(matches!(r, Err(DecompositionError::Inconsistent)));
}

#[test]
fn decomposition_prefers_alteration() {
    let mut kt = table(&[("\u{30AB}\u{30F3}", 1), ("\u{30E8}\u{30A6}", 1)]);
    kt.alterations = vec![None, Some(cv("\u{3086}\u{3046}"))];
    let cands = vec![cv("\u{30AB}\u{30F3}\u{30E6}\u{30A6}")];
    let d = infer_decompositions(&two_kanji_title(), kt, &cands).expect("decomposes");
    assert_eq!(d.reading(), cv("\u{30AB}\u{30F3}\u{30E6}\u{30A6}"));
}

#[test]
fn decomposition_emits_omission_atom() {
    let mut kt = table(&[("\u{30AB}\u{30F3}", 1), ("\u{30E8}\u{30A6}", 1)]);
    kt.omissions = vec![Some(cv("\u{30CE}")), None];
    let cands = vec![cv("\u{30AB}\u{30F3}\u{30CE}\u{30E8}\u{30A6}")];
    let d = infer_decompositions(&two_kanji_title(), kt, &cands).expect("decomposes");
    assert_eq!(d.atoms.len(), 3);
    assert!(matches!(&d.atoms[1], Atom::Ruby { character_count: 0, .. }));
    assert_eq!(d.reading(), cv("\u{30AB}\u{30F3}\u{30CE}\u{30E8}\u{30A6}"));
}

#[test]
fn decomposition_dash_reading_is_empty() {
    let kt = table(&[("\u{30FC}", 1), ("\u{30E8}\u{30A6}", 1)]);
    let cands = vec![cv("\u{30E8}\u{30A6}")];
    let d = infer_decompositions(&two_kanji_title(), kt, &cands).expect("decomposes");
    assert_eq!(d.reading(), cv("\u{30E8}\u{30A6}"));
}

#[test]
fn decomposition_genitive_marker_resolves() {
    // One ideograph followed by the genitive marker.
    let title = cv("\u{5BDB}\u{30F6}");
    let kt = table(&[("\u{30AB}\u{30F3}", 1)]);
    let cands = vec![cv("\u{30AB}\u{30F3}\u{30AC}")];
    let d = infer_decompositions(&title, kt, &cands).expect("decomposes");
    assert_eq!(d.atoms.len(), 2);
    assert!(matches!(&d.atoms[1], Atom::Ruby { character_count: 1, .. }));
    assert_eq!(d.reading(), cv("\u{30AB}\u{30F3}\u{30AC}"));
}

#[test]
fn decomposition_kana_du_matches_zu() {
    // An ideograph followed by hiragana du; the candidate spells it zu.
    let title = cv("\u{5BDB}\u{3065}");
    let kt = table(&[("\u{30AB}\u{30F3}", 1)]);
    let cands = vec![cv("\u{30AB}\u{30F3}\u{30BA}")];
    let d = infer_decompositions(&title, kt, &cands).expect("decomposes");
    assert_eq!(d.reading(), cv("\u{30AB}\u{30F3}\u{30BA}"));
}

#[test]
fn decomposition_first_matching_candidate_wins() {
    // Both candidates align, with different substitutions for the genitive
    // marker; the earlier one in the candidate order is taken.
    let title = cv("\u{5BDB}\u{30F6}");
    let kt = table(&[("\u{30AB}\u{30F3}", 1)]);
    let cands = vec![
        cv("\u{30AB}\u{30F3}\u{30AC}"),
        cv("\u{30AB}\u{30F3}\u{30AB}"),
    ];
    let d = infer_decompositions(&title, kt, &cands).expect("decomposes");
    assert_eq!(d.reading(), cv("\u{30AB}\u{30F3}\u{30AC}"));
}

#[test]
fn align_records_substitutions() {
    let atoms = vec![
        Atom::Ruby { character_count: 1, reading: cv("\u{30AB}\u{30F3}") },
        Atom::Unknown('\u{30F6}'),
    ];
    let readings = vec![cv("\u{30AB}\u{30F3}\u{30AB}")];
    let reps = align(&atoms, &readings).expect("aligns");
    assert_eq!(reps.len(), 1);
    assert_eq!(reps[0].0, 1);
    assert_eq!(reps[0].1, cv("\u{30AB}"));
}

#[test]
fn align_requires_full_consumption() {
    let atoms = vec![Atom::Ruby { character_count: 1, reading: cv("\u{30AB}") }];
    let readings = vec![cv("\u{30AB}\u{30F3}")];
    assert!(align(&atoms, &readings).is_none());
}

#[test]
fn accent_inference_reuses_previous_reading() {
    let jp = JaPron {
        readings: vec![cv("\u{30AB}\u{30F3}\u{30E8}\u{30A6}"), cv("")],
        accents: vec![JaPronAccent::Numeric(0), JaPronAccent::Numeric(1)],
        accent_locations: Vec::new(),
    };
    let infos = infer_accent(&two_kanji_title(), jp).expect("resolves");
    assert_eq!(infos.len(), 2);
    assert_eq!(infos[0].reading, cv("\u{30AB}\u{30F3}\u{30E8}\u{30A6}"));
    assert_eq!(infos[0].accent, Some(0));
    assert_eq!(infos[1].reading, cv("\u{30AB}\u{30F3}\u{30E8}\u{30A6}"));
    assert_eq!(infos[1].accent, Some(1));
}

#[test]
fn accent_inference_always_final_code() {
    let jp = JaPron {
        readings: vec![cv("\u{30AB}\u{30F3}\u{30E8}\u{30A6}")],
        accents: vec![JaPronAccent::Odaka],
        accent_locations: Vec::new(),
    };
    let infos = infer_accent(&two_kanji_title(), jp).expect("resolves");
    assert_eq!(infos[0].accent, Some(4));
}

#[test]
fn accent_inference_skips_dialect_entries() {
    let jp = JaPron {
        readings: vec![cv("\u{30AB}\u{30F3}")],
        accents: vec![JaPronAccent::Numeric(0)],
        accent_locations: vec![true],
    };
    let infos = infer_accent(&two_kanji_title(), jp).expect("resolves");
    assert!(infos.is_empty());
}

#[test]
fn accent_inference_title_is_initial_fallback() {
    let jp = JaPron {
        readings: vec![cv("")],
        accents: vec![JaPronAccent::Numeric(0)],
        accent_locations: Vec::new(),
    };
    let infos = infer_accent(&cv("\u{304B}\u{3093}"), jp).expect("resolves");
    assert_eq!(infos.len(), 1);
    assert_eq!(infos[0].reading, cv("\u{30AB}\u{30F3}"));
}

#[test]
fn accent_inference_rejects_position_past_duration() {
    let jp = JaPron {
        readings: vec![cv("\u{30AB}")],
        accents: vec![JaPronAccent::Numeric(9)],
        accent_locations: Vec::new(),
    };
    assert!(infer_accent(&two_kanji_title(), jp).is_none());
}

#[test]
fn pos_readings_strip_links_and_normalize() {
    let jp = JaPos {
        readings: vec![cv("[[\u{304B}\u{3093}|\u{3088}\u{3046}]]"), cv("x")],
    };
    let rs = infer_pos_readings(jp);
    assert_eq!(rs.len(), 1);
    assert_eq!(rs[0], cv("\u{30E8}\u{30A6}"));
}

#[test]
fn ignore_predicates() {
    assert!(pos_reading_ignore('.'));
    assert!(pos_reading_ignore('\u{30FB}'));
    assert!(pos_reading_ignore(' '));
    assert!(!pos_reading_ignore('\u{30AB}'));
    assert!(reading_ignore('%'));
    assert!(!reading_ignore('\''));
}
