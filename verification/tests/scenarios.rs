use file_renamer_rs::error::ErrorKind;
use file_renamer_rs::listing::{process_rename, DirectoryEntry};
use file_renamer_rs::matcher::compile;
use file_renamer_rs::planner::{plan, reformat_string, PlanEntry};
use file_renamer_rs::report::{applied, ReportEntry};

fn names(list: &[&str]) -> Vec<String> {
    list.iter().map(|name| name.to_string()).collect()
}

fn file(name: &str) -> DirectoryEntry {
    DirectoryEntry { name: name.to_string(), is_directory: false }
}

fn renamed(original: &str, new_name: &str) -> PlanEntry {
    PlanEntry::Renamed { original: original.to_string(), renamed: new_name.to_string() }
}

fn failed(original: &str, reason: ErrorKind) -> PlanEntry {
    PlanEntry::Failed { original: original.to_string(), reason }
}

#[test]
fn title_and_extension_are_extracted_and_reused() {
    let matcher = compile("{title}.{extension}").unwrap();
    let extraction = matcher.match_filename("report.pdf").unwrap();
    assert_eq!(extraction.get("title"), Some(&"report".to_string()));
    assert_eq!(extraction.get("extension"), Some(&"pdf".to_string()));
    assert_eq!(extraction.pairs.len(), 2);
    assert_eq!(
        reformat_string("report.pdf", "{title}.{extension}", "{title}_old.{extension}"),
        Ok("report_old.pdf".to_string())
    );
}

#[test]
fn name_without_extension_does_not_match() {
    let matcher = compile("{title}.{extension}").unwrap();
    assert!(matcher.match_filename("noextension").is_none());
    assert_eq!(
        reformat_string("noextension", "{title}.{extension}", "{title}_old.{extension}"),
        Err(ErrorKind::PatternMismatch)
    );
}

#[test]
fn pattern_without_placeholders_renames_literally() {
    let matcher = compile("archive.zip").unwrap();
    let extraction = matcher.match_filename("archive.zip").unwrap();
    assert!(extraction.is_empty());
    assert!(matcher.match_filename("archive_zip").is_none());
    assert_eq!(reformat_string("archive.zip", "archive.zip", "backup.zip"), Ok("backup.zip".to_string()));
    assert_eq!(
        reformat_string("other.zip", "archive.zip", "backup.zip"),
        Err(ErrorKind::PatternMismatch)
    );
}

#[test]
fn directory_is_planned_in_the_order_of_names() {
    let entries = vec![file("b.txt"), file("a.txt"), file("c.txt")];
    let planned = process_rename(Some(entries), "{name}.txt", "{name}.md").unwrap();
    assert_eq!(
        planned,
        vec![renamed("a.txt", "a.md"), renamed("b.txt", "b.md"), renamed("c.txt", "c.md")]
    );
}

#[test]
fn refused_rename_fails_that_entry_only() {
    let planned =
        plan(&names(&["a.txt", "b.txt", "c.txt"]), "{name}.txt", "{name}.md").unwrap();
    let outcomes = vec![Ok(()), Err("File exists (os error 17)".to_string()), Ok(())];
    let report: Vec<ReportEntry> = planned
        .iter()
        .zip(outcomes)
        .map(|(entry, outcome)| applied(entry, outcome))
        .collect();
    assert_eq!(
        report,
        vec![
            ReportEntry::Renamed { original: "a.txt".to_string(), renamed: "a.md".to_string() },
            ReportEntry::Failed {
                original: "b.txt".to_string(),
                reason: ErrorKind::RenameIOFailure,
                detail: "File exists (os error 17)".to_string(),
            },
            ReportEntry::Renamed { original: "c.txt".to_string(), renamed: "c.md".to_string() },
        ]
    );
}

#[test]
fn plan_keeps_length_and_order_and_goes_on_after_a_mismatch() {
    let input = names(&["one.txt", "skip.me", "two.txt", "", "three.txt"]);
    let planned = plan(&input, "{name}.txt", "new_{name}.txt").unwrap();
    assert_eq!(
        planned,
        vec![
            renamed("one.txt", "new_one.txt"),
            failed("skip.me", ErrorKind::PatternMismatch),
            renamed("two.txt", "new_two.txt"),
            failed("", ErrorKind::PatternMismatch),
            renamed("three.txt", "new_three.txt"),
        ]
    );
}
