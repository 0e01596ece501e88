use file_renamer_rs::error::ErrorKind;
use file_renamer_rs::extraction::Extraction;
use file_renamer_rs::listing::{file_names, get_sorted_files, name_precedes, process_rename, DirectoryEntry};
use file_renamer_rs::matcher::compile;
use file_renamer_rs::pattern::Pattern;
use file_renamer_rs::planner::{
    plan, plan_all, plan_entry, reformat_string, rename, substitute, PlanEntry,
};
use file_renamer_rs::report::{applied, dry_run, previewed, ReportEntry};

fn names(list: &[&str]) -> Vec<String> {
    list.iter().map(|name| name.to_string()).collect()
}

fn pairs(list: &[(&str, &str)]) -> Vec<(String, String)> {
    list.iter().map(|(name, value)| (name.to_string(), value.to_string())).collect()
}

fn file(name: &str) -> DirectoryEntry {
    DirectoryEntry { name: name.to_string(), is_directory: false }
}

fn directory(name: &str) -> DirectoryEntry {
    DirectoryEntry { name: name.to_string(), is_directory: true }
}

fn renamed(original: &str, new_name: &str) -> PlanEntry {
    PlanEntry::Renamed { original: original.to_string(), renamed: new_name.to_string() }
}

fn failed(original: &str, reason: ErrorKind) -> PlanEntry {
    PlanEntry::Failed { original: original.to_string(), reason }
}

#[test]
fn substitute_puts_values_in_the_places_of_names() {
    let extraction = Extraction::from_pairs(pairs(&[("title", "report"), ("extension", "pdf")]));
    let destination = Pattern::parse("{extension}/{title}_old.{extension}").unwrap();
    assert_eq!(substitute(&destination, &extraction), Ok("pdf/report_old.pdf".to_string()));
}

#[test]
fn substitute_does_not_read_values_as_patterns() {
    let extraction = Extraction::from_pairs(pairs(&[("a", "{b}"), ("b", "x")]));
    let destination = Pattern::parse("{a}-{b}").unwrap();
    assert_eq!(substitute(&destination, &extraction), Ok("{b}-x".to_string()));
}

#[test]
fn substitute_of_plain_text_needs_no_value() {
    let destination = Pattern::parse("backup.zip").unwrap();
    assert_eq!(substitute(&destination, &Extraction::from_pairs(vec![])), Ok("backup.zip".to_string()));
    assert_eq!(substitute(&Pattern::parse("").unwrap(), &Extraction::from_pairs(vec![])), Ok(String::new()));
}

#[test]
fn substitute_refuses_a_name_without_value() {
    let extraction = Extraction::from_pairs(pairs(&[("title", "report")]));
    let destination = Pattern::parse("{title}.{extension}").unwrap();
    assert_eq!(substitute(&destination, &extraction), Err(ErrorKind::UnknownPlaceholder));
}

#[test]
fn reformat_string_gives_each_kind_of_failure() {
    assert_eq!(reformat_string("a.txt", "{n.txt", "{n}.md"), Err(ErrorKind::MalformedPattern));
    assert_eq!(reformat_string("a.txt", "{n}.txt", "{n.md"), Err(ErrorKind::MalformedPattern));
    assert_eq!(reformat_string("a.txt", "{n}.txt", "}"), Err(ErrorKind::MalformedPattern));
    assert_eq!(reformat_string("a.doc", "{n}.txt", "{n}.md"), Err(ErrorKind::PatternMismatch));
    assert_eq!(reformat_string("a.txt", "{n}.txt", "{m}.md"), Err(ErrorKind::UnknownPlaceholder));
    assert_eq!(reformat_string("a.txt", "{n}.txt", "{n}.md"), Ok("a.md".to_string()));
}

#[test]
fn reformat_string_reports_a_mismatch_before_an_unknown_name() {
    assert_eq!(reformat_string("a.doc", "{n}.txt", "{m}.md"), Err(ErrorKind::PatternMismatch));
}

#[test]
fn reformat_string_may_use_a_value_often_or_not_at_all() {
    assert_eq!(reformat_string("a-b.txt", "{x}-{y}.txt", "{y}{y}.{x}.{y}"), Ok("bb.a.b".to_string()));
    assert_eq!(reformat_string("a-b.txt", "{x}-{y}.txt", "same"), Ok("same".to_string()));
    assert_eq!(reformat_string("a-b.txt", "{x}-{y}.txt", ""), Ok(String::new()));
}

#[test]
fn reformat_string_keeps_the_name_under_its_own_pattern() {
    assert_eq!(reformat_string("2024-01 notes.md", "{d} {n}.md", "{d} {n}.md"), Ok("2024-01 notes.md".to_string()));
}

#[test]
fn plan_entry_records_name_and_outcome() {
    let matcher = compile("{n}.txt").unwrap();
    let destination = Pattern::parse("{n}.md").unwrap();
    assert_eq!(plan_entry(&matcher, &destination, "a.txt"), renamed("a.txt", "a.md"));
    assert_eq!(plan_entry(&matcher, &destination, "a.doc"), failed("a.doc", ErrorKind::PatternMismatch));
    let unknown = Pattern::parse("{m}.md").unwrap();
    assert_eq!(plan_entry(&matcher, &unknown, "a.txt"), failed("a.txt", ErrorKind::UnknownPlaceholder));
    assert_eq!(plan_entry(&matcher, &destination, "a.txt").original(), "a.txt");
    assert!(plan_entry(&matcher, &destination, "a.txt").is_renamed());
    assert!(!plan_entry(&matcher, &destination, "a.doc").is_renamed());
}

#[test]
fn rename_gives_the_new_name_or_the_reason() {
    let matcher = compile("{n}.txt").unwrap();
    let destination = Pattern::parse("{n}{n}.md").unwrap();
    assert_eq!(rename(&matcher, &destination, "ab.txt"), Ok("abab.md".to_string()));
    assert_eq!(rename(&matcher, &destination, "ab.tx"), Err(ErrorKind::PatternMismatch));
    let unknown = Pattern::parse("{k}").unwrap();
    assert_eq!(rename(&matcher, &unknown, "ab.txt"), Err(ErrorKind::UnknownPlaceholder));
    assert_eq!(rename(&matcher, &unknown, "ab.tx"), Err(ErrorKind::PatternMismatch));
}

#[test]
fn plan_all_plans_each_name_by_itself() {
    let matcher = compile("{n}.txt").unwrap();
    let destination = Pattern::parse("{n}.md").unwrap();
    let input = names(&["a.txt", "b", "c.txt"]);
    let planned = plan_all(&matcher, &destination, &input);
    assert_eq!(
        planned,
        vec![renamed("a.txt", "a.md"), failed("b", ErrorKind::PatternMismatch), renamed("c.txt", "c.md")]
    );
    for (entry, name) in planned.iter().zip(&input) {
        assert_eq!(entry, &plan_entry(&matcher, &destination, name));
    }
    assert_eq!(plan_all(&matcher, &destination, &vec![]), vec![]);
}

#[test]
fn plan_of_no_names_is_empty() {
    assert_eq!(plan(&vec![], "{n}.txt", "{n}.md"), Ok(vec![]));
}

#[test]
fn plan_fails_once_on_a_malformed_pattern() {
    let input = names(&["a.txt", "b.txt"]);
    assert_eq!(plan(&input, "{n.txt", "{n}.md"), Err(ErrorKind::MalformedPattern));
    assert_eq!(plan(&input, "{n}.txt", "{n}}.md"), Err(ErrorKind::MalformedPattern));
    assert_eq!(plan(&vec![], "{}", "x"), Err(ErrorKind::MalformedPattern));
}

#[test]
fn plan_records_an_unknown_name_for_each_matching_file() {
    let input = names(&["a.txt", "b.doc", "c.txt"]);
    assert_eq!(
        plan(&input, "{n}.txt", "{m}.md"),
        Ok(vec![
            failed("a.txt", ErrorKind::UnknownPlaceholder),
            failed("b.doc", ErrorKind::PatternMismatch),
            failed("c.txt", ErrorKind::UnknownPlaceholder),
        ])
    );
}

#[test]
fn plan_keeps_the_order_that_it_is_given() {
    let input = names(&["c.txt", "a.txt", "b.txt", "a.txt"]);
    let planned = plan(&input, "{n}.txt", "{n}.md").unwrap();
    assert_eq!(planned.len(), input.len());
    for (entry, name) in planned.iter().zip(&input) {
        assert_eq!(entry.original(), name);
    }
}

#[test]
fn plan_entries_do_not_depend_on_their_neighbours() {
    let before = names(&["a.txt", "b.txt"]);
    let after = names(&["c.txt", "nothing", "d.txt"]);
    let mut all = before.clone();
    all.push("does not match".to_string());
    all.extend(after.clone());
    let mut expected = plan(&before, "{n}.txt", "{n}.md").unwrap();
    expected.push(failed("does not match", ErrorKind::PatternMismatch));
    expected.extend(plan(&after, "{n}.txt", "{n}.md").unwrap());
    assert_eq!(plan(&all, "{n}.txt", "{n}.md"), Ok(expected));
}

#[test]
fn names_are_ordered_byte_by_byte() {
    assert!(name_precedes("a", "b"));
    assert!(!name_precedes("b", "a"));
    assert!(name_precedes("a", "a"));
    assert!(name_precedes("", "a"));
    assert!(!name_precedes("a", ""));
    assert!(name_precedes("", ""));
    assert!(name_precedes("a", "ab"));
    assert!(!name_precedes("ab", "a"));
    assert!(name_precedes("B", "a"));
    assert!(name_precedes("a10", "a9"));
    assert!(name_precedes("z", "é"));
    assert!(name_precedes("é", "名"));
    assert!(!name_precedes("名", "é"));
}

#[test]
fn get_sorted_files_orders_all_entries() {
    let sorted = get_sorted_files(vec![file("b.txt"), directory("sub"), file("a.txt"), file("Z"), file("c.txt")]);
    assert_eq!(sorted, vec![file("Z"), file("a.txt"), file("b.txt"), file("c.txt"), directory("sub")]);
    assert_eq!(get_sorted_files(vec![]), vec![]);
    assert_eq!(get_sorted_files(vec![file("x")]), vec![file("x")]);
    assert_eq!(get_sorted_files(vec![file("x"), file("x")]), vec![file("x"), file("x")]);
    let sorted = get_sorted_files(vec![file("c"), file("b"), file("a")]);
    assert_eq!(sorted, vec![file("a"), file("b"), file("c")]);
}

#[test]
fn get_sorted_files_keeps_entries_of_one_name_as_given() {
    let sorted = get_sorted_files(vec![file("b"), directory("a"), file("a"), directory("b")]);
    assert_eq!(sorted, vec![directory("a"), file("a"), file("b"), directory("b")]);
    let sorted = get_sorted_files(vec![directory("b"), file("a"), directory("a"), file("b")]);
    assert_eq!(sorted, vec![file("a"), directory("a"), directory("b"), file("b")]);
}

#[test]
fn file_names_leave_directories_out() {
    let entries = vec![file("a.txt"), directory("b.txt"), file("c.txt"), directory("d")];
    assert_eq!(file_names(&entries), names(&["a.txt", "c.txt"]));
    assert_eq!(file_names(&vec![directory("d")]), Vec::<String>::new());
}

#[test]
fn process_rename_skips_directories() {
    let entries = vec![file("b.txt"), directory("a.txt"), file("notes"), file("0.txt")];
    assert_eq!(
        process_rename(Some(entries), "{n}.txt", "{n}.bak"),
        Ok(vec![renamed("0.txt", "0.bak"), renamed("b.txt", "b.bak"), failed("notes", ErrorKind::PatternMismatch)])
    );
}

#[test]
fn process_rename_without_one_file_plans_the_others_alike() {
    let all = vec![file("c.txt"), file("b.doc"), directory("d.txt"), file("a.txt"), file("b.txt")];
    let with_all = process_rename(Some(all.clone()), "{n}.txt", "{n}.md").unwrap();
    assert_eq!(
        with_all,
        vec![
            renamed("a.txt", "a.md"),
            failed("b.doc", ErrorKind::PatternMismatch),
            renamed("b.txt", "b.md"),
            renamed("c.txt", "c.md"),
        ]
    );
    for left_out in 0..all.len() {
        let mut fewer = all.clone();
        let gone = fewer.remove(left_out);
        let mut expected = with_all.clone();
        expected.retain(|entry| gone.is_directory || entry.original() != &gone.name);
        assert_eq!(process_rename(Some(fewer), "{n}.txt", "{n}.md"), Ok(expected));
    }
}

#[test]
fn process_rename_gives_the_same_plan_each_time() {
    let entries = vec![file("b.txt"), file("a"), directory("c.txt"), file("a.txt")];
    let first = process_rename(Some(entries.clone()), "{n}.txt", "{n}{n}");
    let second = process_rename(Some(entries), "{n}.txt", "{n}{n}");
    assert_eq!(first, second);
    assert_eq!(
        first,
        Ok(vec![failed("a", ErrorKind::PatternMismatch), renamed("a.txt", "aa"), renamed("b.txt", "bb")])
    );
}

#[test]
fn process_rename_fails_once_on_a_malformed_pattern() {
    assert_eq!(process_rename(Some(vec![file("a.txt")]), "{n", "{n}"), Err(ErrorKind::MalformedPattern));
    assert_eq!(process_rename(Some(vec![file("a.txt")]), "{n}", "n}"), Err(ErrorKind::MalformedPattern));
}

#[test]
fn process_rename_fails_once_without_a_listing() {
    assert_eq!(process_rename(None, "{n}.txt", "{n}.md"), Err(ErrorKind::InvalidDirectory));
    assert_eq!(process_rename(None, "{n", "{n}.md"), Err(ErrorKind::InvalidDirectory));
}

#[test]
fn preview_renames_nothing() {
    let planned = vec![renamed("a.txt", "a.md"), failed("b", ErrorKind::PatternMismatch)];
    assert_eq!(
        dry_run(&planned),
        vec![
            ReportEntry::Planned { original: "a.txt".to_string(), renamed: "a.md".to_string() },
            ReportEntry::Failed { original: "b".to_string(), reason: ErrorKind::PatternMismatch, detail: String::new() },
        ]
    );
    assert_eq!(previewed(&planned[0]), dry_run(&planned)[0]);
}

#[test]
fn applied_entry_without_new_name_keeps_its_reason() {
    let entry = failed("b", ErrorKind::UnknownPlaceholder);
    let expected = ReportEntry::Failed {
        original: "b".to_string(),
        reason: ErrorKind::UnknownPlaceholder,
        detail: String::new(),
    };
    assert_eq!(applied(&entry, Ok(())), expected);
    assert_eq!(applied(&entry, Err("Permission denied".to_string())), expected);
}

#[test]
fn report_lines_read_as_expected() {
    let planned = ReportEntry::Planned { original: "a.txt".to_string(), renamed: "a.md".to_string() };
    assert_eq!(planned.line(), "a.txt  ➜  a.md");
    let done = ReportEntry::Renamed { original: "a.txt".to_string(), renamed: "a.md".to_string() };
    assert_eq!(done.line(), "RENAMED: a.txt > a.md");
    let refused = ReportEntry::Failed {
        original: "a.txt".to_string(),
        reason: ErrorKind::RenameIOFailure,
        detail: "Permission denied (os error 13)".to_string(),
    };
    assert_eq!(refused.line(), "ERROR: a.txt: Permission denied (os error 13)");
    for reason in [ErrorKind::PatternMismatch, ErrorKind::UnknownPlaceholder] {
        let entry = ReportEntry::Failed { original: "a.txt".to_string(), reason, detail: String::new() };
        assert_eq!(entry.line(), "Unable to rename a.txt");
    }
}

#[test]
fn error_kinds_tell_batch_from_file() {
    assert!(ErrorKind::InvalidDirectory.is_batch_level());
    assert!(ErrorKind::MalformedPattern.is_batch_level());
    assert!(!ErrorKind::PatternMismatch.is_batch_level());
    assert!(!ErrorKind::UnknownPlaceholder.is_batch_level());
    assert!(!ErrorKind::RenameIOFailure.is_batch_level());
}

#[test]
fn error_kinds_have_their_words() {
    assert_eq!(ErrorKind::InvalidDirectory.message(), "Invalid folder path");
    assert_eq!(ErrorKind::MalformedPattern.message(), "Invalid Pattern Generated");
    assert_eq!(ErrorKind::PatternMismatch.message(), "Pattern not found");
    assert_eq!(ErrorKind::UnknownPlaceholder.message(), "Unknown placeholder");
    assert_eq!(ErrorKind::RenameIOFailure.message(), "Rename failed");
}
