use yomikata::ja::{
    IgnoreClass, KeepClass, compute_duration, expand_katakana, is_ideograph, is_kana_start,
    reiterate_dakuon, reiterate_seion, try_consume_kana, try_katakanify,
};

fn cv(s: &str) -> Vec<char> {
    s.chars().collect()
}

#[test]
fn ideograph_classification() {
    assert!(is_ideograph('\u{5BDB}'));
    assert!(is_ideograph('\u{3005}'));
    assert!(is_ideograph('\u{20000}'));
    assert!(!is_ideograph('\u{30AB}'));
    assert!(!is_ideograph('a'));
}

#[test]
fn kana_cluster_consumption() {
    // A base character absorbs a following combining voicing mark.
    let s = cv("\u{304B}\u{3099}\u{304D}");
    let (cluster, next) = try_consume_kana(&s, 0).expect("kana start");
    assert_eq!(cluster, cv("\u{304B}\u{3099}"));
    assert_eq!(next, 2);
    let (cluster2, next2) = try_consume_kana(&s, 2).expect("kana start");
    assert_eq!(cluster2, cv("\u{304D}"));
    assert_eq!(next2, 3);
    assert!(try_consume_kana(&cv("x"), 0).is_none());
    assert!(is_kana_start('\u{30A1}'));
    assert!(!is_kana_start('\u{30FB}'));
}

#[test]
fn katakanify_hiragana_shifts() {
    // Hiragana maps to katakana by a fixed offset.
    let r = try_katakanify(&cv("\u{304B}\u{3093}"), IgnoreClass::Nothing, KeepClass::Nothing);
    assert_eq!(r.expect("accepted"), cv("\u{30AB}\u{30F3}"));
}

#[test]
fn katakanify_rejects_foreign_characters() {
    let r = try_katakanify(&cv("x"), IgnoreClass::Nothing, KeepClass::Nothing);
    assert!(r.is_none());
}

#[test]
fn katakanify_ignore_and_keep() {
    // Whitespace dropped under the spaces policy.
    let r = try_katakanify(&cv("\u{30AB} \u{30F3}"), IgnoreClass::Spaces, KeepClass::Nothing);
    assert_eq!(r.expect("accepted"), cv("\u{30AB}\u{30F3}"));
    // Ideographs pass only when kept.
    let title = cv("\u{5BDB}\u{304B}");
    assert!(try_katakanify(&title, IgnoreClass::Nothing, KeepClass::Nothing).is_none());
    let kept = try_katakanify(&title, IgnoreClass::Nothing, KeepClass::Ideographs);
    assert_eq!(kept.expect("accepted"), cv("\u{5BDB}\u{30AB}"));
}

#[test]
fn katakanify_idempotent_on_own_output() {
    let once = try_katakanify(&cv("\u{304D}\u{3083}"), IgnoreClass::Nothing, KeepClass::Nothing)
        .expect("accepted");
    let twice = try_katakanify(&once, IgnoreClass::Nothing, KeepClass::Nothing)
        .expect("still accepted");
    assert_eq!(once, twice);
}

#[test]
fn expansion_fails_on_lone_iteration_mark() {
    // A voiced iteration mark with nothing to look back on is undefined.
    assert!(expand_katakana(&cv("\u{30FE}")).is_none());
    assert!(expand_katakana(&cv("\u{30FD}")).is_none());
}

#[test]
fn expansion_repeats_with_voicing() {
    // su + voiced mark: the mark repeats su with a dakuten.
    assert_eq!(
        expand_katakana(&cv("\u{30B9}\u{30FE}")).expect("expands"),
        cv("\u{30B9}\u{30BA}")
    );
    // ka + plain mark.
    assert_eq!(
        expand_katakana(&cv("\u{30AB}\u{30FD}")).expect("expands"),
        cv("\u{30AB}\u{30AB}")
    );
    // A chain of two marks repeats the last two clusters.
    assert_eq!(
        expand_katakana(&cv("\u{30A4}\u{30B9}\u{30FD}\u{30FE}")).expect("expands"),
        cv("\u{30A4}\u{30B9}\u{30A4}\u{30BA}")
    );
    // A chain longer than the lookback fails.
    assert!(expand_katakana(&cv("\u{30B9}\u{30FD}\u{30FD}\u{30FD}")).is_none());
}

#[test]
fn expansion_fails_on_unvoiceable_repeat() {
    // n has no voiced counterpart.
    assert!(expand_katakana(&cv("\u{30F3}\u{30FE}")).is_none());
}

#[test]
fn expansion_passes_plain_text_through() {
    assert_eq!(
        expand_katakana(&cv("\u{30AB}\u{30F3}")).expect("unchanged"),
        cv("\u{30AB}\u{30F3}")
    );
}

#[test]
fn voicing_transforms() {
    assert_eq!(reiterate_dakuon('\u{30AB}'), Some('\u{30AC}'));
    assert_eq!(reiterate_dakuon('\u{30AC}'), Some('\u{30AC}'));
    assert_eq!(reiterate_dakuon('\u{30CF}'), Some('\u{30D1}'));
    assert_eq!(reiterate_dakuon('\u{30A6}'), Some('\u{30F4}'));
    assert_eq!(reiterate_dakuon('\u{30F3}'), None);
    assert_eq!(reiterate_dakuon('\u{30A2}'), None);
    assert_eq!(reiterate_seion('\u{30AC}'), Some('\u{30AB}'));
    assert_eq!(reiterate_seion('\u{30D7}'), Some('\u{30D5}'));
    assert_eq!(reiterate_seion('\u{30F4}'), Some('\u{30A6}'));
    assert_eq!(reiterate_seion('\u{30A2}'), Some('\u{30A2}'));
    assert_eq!(reiterate_seion('\u{30FC}'), None);
}

#[test]
fn mora_duration_counts() {
    // kya: the small glide attaches to the preceding mora.
    assert_eq!(compute_duration(&cv("\u{30AD}\u{30E3}")), 1);
    assert_eq!(compute_duration(&cv("\u{30AB}\u{30F3}\u{30E8}\u{30A6}")), 4);
    assert_eq!(compute_duration(&cv("")), 0);
}

#[test]
fn mora_duration_bounded_by_source_length() {
    let source = cv("\u{304D}\u{3083}");
    let normalized = try_katakanify(&source, IgnoreClass::Nothing, KeepClass::Nothing)
        .expect("accepted");
    assert!(compute_duration(&normalized) <= source.len());
    // Without small glides the two lengths agree.
    let plain = cv("\u{304B}\u{3093}");
    let normalized_plain = try_katakanify(&plain, IgnoreClass::Nothing, KeepClass::Nothing)
        .expect("accepted");
    assert_eq!(compute_duration(&normalized_plain), plain.len());
}
