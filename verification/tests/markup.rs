use yomikata::wikitext::{FindTemplates, TemplateParameters, remove_links, try_consume};

fn cv(s: &str) -> Vec<char> {
    s.chars().collect()
}

#[test]
fn scanner_nested_template_single_pair() {
    let mut ft = FindTemplates::new(cv("{{foo|a={{bar|b}}|c}}"));
    let (name, args) = ft.next().expect("one invocation");
    assert_eq!(name, cv("foo"));
    assert_eq!(args, cv("a={{bar|b}}|c"));
    assert!(ft.next().is_none());
}

#[test]
fn scanner_unbalanced_stops_permanently() {
    let mut ft = FindTemplates::new(cv("{{foo}}}"));
    let (name, args) = ft.next().expect("leading invocation");
    assert_eq!(name, cv("foo"));
    assert_eq!(args, cv(""));
    assert!(ft.next().is_none());
    assert!(ft.next().is_none());
}

#[test]
fn scanner_closing_pair_at_depth_zero_latches() {
    // A doubled closing brace at depth zero fails the scan for good: the
    // later well-formed invocation is never emitted.
    let mut ft = FindTemplates::new(cv("{{foo}} }} {{bar|x}}"));
    let (name, args) = ft.next().expect("leading invocation");
    assert_eq!(name, cv("foo"));
    assert_eq!(args, cv(""));
    assert!(ft.next().is_none());
    assert!(ft.next().is_none());
}

#[test]
fn scanner_argumentless_template() {
    let mut ft = FindTemplates::new(cv("x{{name}}y"));
    let (name, args) = ft.next().expect("one invocation");
    assert_eq!(name, cv("name"));
    assert_eq!(args, cv(""));
    assert!(ft.next().is_none());
}

#[test]
fn scanner_comment_hides_structure_and_is_excised() {
    // The closing braces inside the comment do not end the invocation, and
    // the comment text never reaches the emitted argument.
    let mut ft = FindTemplates::new(cv("{{a|b<!--}}-->c}}"));
    let (name, args) = ft.next().expect("one invocation");
    assert_eq!(name, cv("a"));
    assert_eq!(args, cv("bc"));
    assert!(ft.next().is_none());
}

#[test]
fn scanner_comment_excised_from_name() {
    let mut ft = FindTemplates::new(cv("{{a<!--x-->b|c}}"));
    let (name, args) = ft.next().expect("one invocation");
    assert_eq!(name, cv("ab"));
    assert_eq!(args, cv("c"));
    assert!(ft.next().is_none());
}

#[test]
fn scanner_comment_hides_name_terminator() {
    // A bar or closing pair inside a comment does not end the name.
    let mut ft = FindTemplates::new(cv("{{a<!--|z}}-->|b}}"));
    let (name, args) = ft.next().expect("one invocation");
    assert_eq!(name, cv("a"));
    assert_eq!(args, cv("b"));
    assert!(ft.next().is_none());
}

#[test]
fn scanner_unterminated_comment_latches() {
    // In the argument text.
    let mut ft = FindTemplates::new(cv("{{a|b<!--x"));
    assert!(ft.next().is_none());
    assert!(ft.next().is_none());
    // In the name region.
    let mut ft2 = FindTemplates::new(cv("{{a<!--x"));
    assert!(ft2.next().is_none());
    assert!(ft2.next().is_none());
}

#[test]
fn scanner_brace_parameter_not_emitted() {
    let mut ft = FindTemplates::new(cv("{{{p}}}{{q|r}}"));
    let (name, args) = ft.next().expect("one invocation");
    assert_eq!(name, cv("q"));
    assert_eq!(args, cv("r"));
    assert!(ft.next().is_none());
}

#[test]
fn splitter_nested_template_two_parameters() {
    let mut tp = TemplateParameters::new(cv("a={{bar|b}}|c"));
    assert_eq!(tp.next().expect("first"), cv("a={{bar|b}}"));
    assert_eq!(tp.next().expect("second"), cv("c"));
    assert!(tp.next().is_none());
}

#[test]
fn splitter_empty_text_yields_nothing() {
    let mut tp = TemplateParameters::new(cv(""));
    assert!(tp.next().is_none());
}

#[test]
fn splitter_no_separator_yields_one() {
    let mut tp = TemplateParameters::new(cv("abc"));
    assert_eq!(tp.next().expect("whole text"), cv("abc"));
    assert!(tp.next().is_none());
}

#[test]
fn splitter_cuts_out_comment() {
    let mut tp = TemplateParameters::new(cv("a<!--x|y-->b|c"));
    assert_eq!(tp.next().expect("first"), cv("ab"));
    assert_eq!(tp.next().expect("second"), cv("c"));
    assert!(tp.next().is_none());
}

#[test]
fn splitter_link_protects_separator() {
    let mut tp = TemplateParameters::new(cv("a[[t|u]]b|c"));
    assert_eq!(tp.next().expect("first"), cv("a[[t|u]]b"));
    assert_eq!(tp.next().expect("second"), cv("c"));
    assert!(tp.next().is_none());
}

#[test]
fn splitter_unbalanced_stops_permanently() {
    let mut tp = TemplateParameters::new(cv("a]]b|c"));
    assert!(tp.next().is_none());
    assert!(tp.next().is_none());
    // A bare closing brace at depth zero latches the failure too.
    let mut tp2 = TemplateParameters::new(cv("a}b|c"));
    assert!(tp2.next().is_none());
    assert!(tp2.next().is_none());
}

#[test]
fn splitter_bare_brace_raises_depth() {
    // The bar sits at depth one behind the lone brace: no boundary.
    let mut tp = TemplateParameters::new(cv("{b|c"));
    assert_eq!(tp.next().expect("single parameter"), cv("{b|c"));
    assert!(tp.next().is_none());
    // A balanced bare pair returns to depth zero.
    let mut tp2 = TemplateParameters::new(cv("{b}|c"));
    assert_eq!(tp2.next().expect("first"), cv("{b}"));
    assert_eq!(tp2.next().expect("second"), cv("c"));
    assert!(tp2.next().is_none());
}

#[test]
fn remove_links_target_and_label() {
    assert_eq!(remove_links(&cv("x[[target]]y")), cv("xtargety"));
    assert_eq!(remove_links(&cv("x[[target|label]]y")), cv("xlabely"));
    assert_eq!(remove_links(&cv("plain")), cv("plain"));
    // An unterminated link ends the output at the link's start.
    assert_eq!(remove_links(&cv("a[[b")), cv("a"));
}

#[test]
fn try_consume_prefix_check() {
    let s = cv("hello");
    assert!(try_consume(&s, 1, &cv("ell")));
    assert!(!try_consume(&s, 1, &cv("elo")));
    assert!(!try_consume(&s, 4, &cv("oo")));
    assert!(try_consume(&s, 5, &cv("")));
}
