use file_renamer_rs::extraction::Extraction;
use file_renamer_rs::matcher::{compile, decomposes, finish, interpret, lower};
use file_renamer_rs::pattern::Pattern;
use file_renamer_rs::ErrorKind;

fn pairs(list: &[(&str, &str)]) -> Vec<(String, String)> {
    list.iter().map(|(name, value)| (name.to_string(), value.to_string())).collect()
}

fn groups(list: &[Option<&str>]) -> Option<Vec<Option<String>>> {
    Some(list.iter().map(|group| group.map(|text| text.to_string())).collect())
}

fn values(list: &[&str]) -> Vec<String> {
    list.iter().map(|s| s.to_string()).collect()
}

#[test]
fn lower_anchors_and_groups() {
    assert_eq!(lower(&Pattern::parse("{title}.{extension}").unwrap()), "^((?s:.)+)\\.((?s:.)+)$");
    assert_eq!(lower(&Pattern::parse("").unwrap()), "^$");
    assert_eq!(lower(&Pattern::parse("{a}{b}").unwrap()), "^((?s:.)+)((?s:.)+)$");
    assert_eq!(lower(&Pattern::parse("abc").unwrap()), "^abc$");
}

#[test]
fn lower_escapes_every_character_with_a_meaning() {
    let pattern = Pattern::parse("\\.+*?()|[]^$#&-~").unwrap();
    assert_eq!(
        lower(&pattern),
        "^\\\\\\.\\+\\*\\?\\(\\)\\|\\[\\]\\^\\$\\#\\&\\-\\~$"
    );
}

#[test]
fn lower_leaves_other_characters_alone() {
    let pattern = Pattern::parse("a Z_0%/!\"',:;<=>@`é名").unwrap();
    assert_eq!(lower(&pattern), "^a Z_0%/!\"',:;<=>@`é名$");
}

#[test]
fn compiled_expression_is_the_lowered_pattern() {
    let matcher = compile("a+b_{n}[1].txt").unwrap();
    assert_eq!(matcher.expression(), "^a\\+b_((?s:.)+)\\[1\\]\\.txt$");
    assert_eq!(matcher.expression(), lower(matcher.pattern()));
    assert_eq!(matcher.pattern(), &Pattern::parse("a+b_{n}[1].txt").unwrap());
    assert_eq!(matcher.placeholder_names(), values(&["n"]));
}

#[test]
fn compile_refuses_what_is_no_pattern() {
    assert_eq!(compile("{title.ext").err(), Some(ErrorKind::MalformedPattern));
    assert_eq!(compile("{}").err(), Some(ErrorKind::MalformedPattern));
    assert_eq!(compile("a}").err(), Some(ErrorKind::MalformedPattern));
}

#[test]
fn compile_accepts_every_kind_of_pattern() {
    for text in ["", "plain", "{a}", "{a}{b}", "{title}.{extension}", "\\.+*?()|[]^$#&-~{x}", "é{名前}—ü"] {
        assert!(compile(text).is_ok());
    }
}

#[test]
fn finish_makes_the_matcher_of_what_the_engine_compiled() {
    let pattern = Pattern::parse("{n}-{m}.txt").unwrap();
    let built = regex::Regex::new(&lower(&pattern));
    let matcher = finish(pattern.clone(), built).unwrap();
    assert_eq!(matcher.pattern(), &pattern);
    assert_eq!(matcher.expression(), "^((?s:.)+)\\-((?s:.)+)\\.txt$");
    assert_eq!(matcher.match_filename("a-b.txt").unwrap().pairs, pairs(&[("n", "a"), ("m", "b")]));
}

#[test]
fn finish_reports_what_the_engine_refused() {
    let pattern = Pattern::parse("{n}.txt").unwrap();
    let refused = regex::Regex::new("(");
    assert!(refused.is_err());
    assert_eq!(finish(pattern, refused).err(), Some(ErrorKind::MalformedPattern));
}

#[test]
fn literal_characters_match_themselves_only() {
    let matcher = compile("a+b(c)-{n}[1].t^$").unwrap();
    let extraction = matcher.match_filename("a+b(c)-hello[1].t^$").unwrap();
    assert_eq!(extraction.pairs, pairs(&[("n", "hello")]));
    assert!(matcher.match_filename("aab(c)-hello[1].t^$").is_none());
    assert!(matcher.match_filename("a+b(c)-hello[1]xt^$").is_none());
    assert!(compile("{n}.txt").unwrap().match_filename("fooxtxt").is_none());
}

#[test]
fn match_must_cover_the_whole_name() {
    let matcher = compile("{title}.txt").unwrap();
    assert_eq!(matcher.match_filename("foo.txt").unwrap().pairs, pairs(&[("title", "foo")]));
    assert!(matcher.match_filename("foo.txt.bak").is_none());
    assert!(matcher.match_filename("foo.txt ").is_none());
    let matcher = compile("img_{n}").unwrap();
    assert!(matcher.match_filename("my_img_7").is_none());
    assert_eq!(matcher.match_filename("img_7").unwrap().pairs, pairs(&[("n", "7")]));
}

#[test]
fn placeholder_needs_at_least_one_character() {
    let matcher = compile("{title}.txt").unwrap();
    assert!(matcher.match_filename(".txt").is_none());
    assert_eq!(matcher.match_filename("a.txt").unwrap().pairs, pairs(&[("title", "a")]));
}

#[test]
fn empty_pattern_matches_the_empty_name_only() {
    let matcher = compile("").unwrap();
    assert!(matcher.match_filename("").unwrap().is_empty());
    assert!(matcher.match_filename("a").is_none());
    assert!(matcher.match_filename(" ").is_none());
    assert!(matcher.match_filename("\n").is_none());
}

#[test]
fn earlier_placeholder_takes_as_much_as_it_can() {
    let matcher = compile("{a}.{b}").unwrap();
    assert_eq!(matcher.match_filename("x.y.z").unwrap().pairs, pairs(&[("a", "x.y"), ("b", "z")]));
}

#[test]
fn neighbouring_placeholders_leave_one_character_to_the_second() {
    let matcher = compile("{a}{b}").unwrap();
    assert_eq!(matcher.match_filename("xyz").unwrap().pairs, pairs(&[("a", "xy"), ("b", "z")]));
    assert!(matcher.match_filename("x").is_none());
}

#[test]
fn repeated_name_is_found_under_its_first_value() {
    let matcher = compile("{a}-{a}").unwrap();
    let extraction = matcher.match_filename("x-y").unwrap();
    assert_eq!(extraction.pairs, pairs(&[("a", "x"), ("a", "y")]));
    assert_eq!(extraction.get("a"), Some(&"x".to_string()));
}

#[test]
fn match_binds_names_in_the_order_of_the_pattern() {
    let matcher = compile("{z}-{a}-{m}").unwrap();
    let extraction = matcher.match_filename("1-2-3").unwrap();
    assert_eq!(extraction.pairs, pairs(&[("z", "1"), ("a", "2"), ("m", "3")]));
}

#[test]
fn values_may_hold_any_character() {
    let matcher = compile("{a}.txt").unwrap();
    assert_eq!(matcher.match_filename("é 名{}.txt").unwrap().pairs, pairs(&[("a", "é 名{}")]));
    assert_eq!(matcher.match_filename("a\nb.txt").unwrap().pairs, pairs(&[("a", "a\nb")]));
    assert_eq!(matcher.match_filename("\n.txt").unwrap().pairs, pairs(&[("a", "\n")]));
    assert_eq!(matcher.match_filename("\r\n\t.txt").unwrap().pairs, pairs(&[("a", "\r\n\t")]));
}

#[test]
fn line_feed_at_the_end_is_part_of_the_name() {
    let matcher = compile("{a}.txt").unwrap();
    assert!(matcher.match_filename("a.txt\n").is_none());
    let matcher = compile("{a}.{b}").unwrap();
    assert_eq!(
        matcher.match_filename("a.txt\n").unwrap().pairs,
        pairs(&[("a", "a"), ("b", "txt\n")])
    );
}

#[test]
fn matching_twice_compiled_patterns_agrees() {
    let first = compile("{a}_{b}.{c}").unwrap();
    let second = compile("{a}_{b}.{c}").unwrap();
    assert_eq!(first.expression(), second.expression());
    for name in ["x_y.z", "x_y_z.w.v", "xy.z", "", "_.", "a_b.c\n", "__..", "a_b."] {
        assert_eq!(first.match_filename(name), second.match_filename(name));
    }
}

#[test]
fn substituted_values_are_found_again() {
    let matcher = compile("{artist} - {title}.{extension}").unwrap();
    let name = format!("{} - {}.{}", "Nina", "Sinnerman", "flac");
    let extraction = matcher.match_filename(&name).unwrap();
    assert_eq!(
        extraction.pairs,
        pairs(&[("artist", "Nina"), ("title", "Sinnerman"), ("extension", "flac")])
    );
}

#[test]
fn interpret_takes_the_groups_after_the_first() {
    let pattern = Pattern::parse("{title}.{extension}").unwrap();
    let found = groups(&[Some("report.pdf"), Some("report"), Some("pdf")]);
    let extraction = interpret(&pattern, "report.pdf", found).unwrap();
    assert_eq!(extraction.pairs, pairs(&[("title", "report"), ("extension", "pdf")]));
}

#[test]
fn interpret_without_a_match_extracts_nothing() {
    let pattern = Pattern::parse("{title}.{extension}").unwrap();
    assert_eq!(interpret(&pattern, "report.pdf", None), None);
    assert_eq!(interpret(&pattern, "report.pdf", Some(vec![])), None);
}

#[test]
fn interpret_refuses_a_group_that_took_no_part() {
    let pattern = Pattern::parse("{title}.{extension}").unwrap();
    let found = groups(&[Some("report.pdf"), Some("report"), None]);
    assert_eq!(interpret(&pattern, "report.pdf", found), None);
}

#[test]
fn interpret_refuses_a_wrong_number_of_groups() {
    let pattern = Pattern::parse("{title}.{extension}").unwrap();
    let two = groups(&[Some("report.pdf"), Some("report")]);
    assert_eq!(interpret(&pattern, "report.pdf", two), None);
    let four = groups(&[Some("report.pdf"), Some("report"), Some("pdf"), Some("x")]);
    assert_eq!(interpret(&pattern, "report.pdf", four), None);
    assert_eq!(interpret(&pattern, "report.pdf", groups(&[Some("report.pdf")])), None);
}

#[test]
fn interpret_refuses_groups_that_do_not_give_the_name() {
    let pattern = Pattern::parse("{title}.{extension}").unwrap();
    let short = groups(&[Some("report.pdf"), Some("repor"), Some("pdf")]);
    assert_eq!(interpret(&pattern, "report.pdf", short), None);
    let swapped = groups(&[Some("report.pdf"), Some("pdf"), Some("report")]);
    assert_eq!(interpret(&pattern, "report.pdf", swapped), None);
    assert_eq!(interpret(&pattern, ".pdf", groups(&[Some(".pdf"), Some(""), Some("pdf")])), None);
}

#[test]
fn interpret_does_not_look_at_the_first_group() {
    let pattern = Pattern::parse("{n}.txt").unwrap();
    let extraction = interpret(&pattern, "a.txt", groups(&[None, Some("a")])).unwrap();
    assert_eq!(extraction, Extraction::from_pairs(pairs(&[("n", "a")])));
}

#[test]
fn decomposes_checks_count_emptiness_and_text() {
    let pattern = Pattern::parse("{a}-{b}.txt").unwrap();
    assert!(decomposes(&pattern, &values(&["x", "y"]), "x-y.txt"));
    assert!(decomposes(&pattern, &values(&["x-y", "z"]), "x-y-z.txt"));
    assert!(decomposes(&pattern, &values(&["x\ny", "z"]), "x\ny-z.txt"));
    assert!(!decomposes(&pattern, &values(&["x", "y"]), "x-y.tx"));
    assert!(!decomposes(&pattern, &values(&["x"]), "x-.txt"));
    assert!(!decomposes(&pattern, &values(&["x", "y", "z"]), "x-y.txt"));
    assert!(!decomposes(&pattern, &values(&["x", ""]), "x-.txt"));
    let plain = Pattern::parse("plain").unwrap();
    assert!(decomposes(&plain, &values(&[]), "plain"));
    assert!(!decomposes(&plain, &values(&[]), "plain "));
    assert!(decomposes(&Pattern::parse("").unwrap(), &values(&[]), ""));
}

#[test]
fn extraction_finds_values_by_name() {
    let extraction = Extraction::from_pairs(pairs(&[("a", "1"), ("b", "2"), ("a", "3")]));
    assert_eq!(extraction.get("a"), Some(&"1".to_string()));
    assert_eq!(extraction.get("b"), Some(&"2".to_string()));
    assert_eq!(extraction.get("c"), None);
    assert_eq!(extraction.get(""), None);
    assert!(!extraction.is_empty());
    assert!(Extraction::from_pairs(vec![]).is_empty());
    assert_eq!(Extraction::from_pairs(vec![]).get("a"), None);
}
