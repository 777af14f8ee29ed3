use steelwool::diff::unified;

fn numbered(count: usize) -> String {
    (1..=count).fold(String::new(), |mut text, line| {
        text.push_str(&format!("line {line}\n"));
        text
    })
}

#[test]
fn equal_inputs_diff_to_nothing() {
    assert_eq!(unified("a.scm", "(a)\n", "(a)\n"), "");
    assert_eq!(unified("a.scm", "", ""), "");
}

#[test]
fn one_changed_line_gives_one_hunk_with_three_lines_of_context() {
    let before = numbered(20);
    let after = before.replace("line 10\n", "line ten\n");
    assert_eq!(
        unified("a.scm", &before, &after),
        "--- a.scm\n\
         +++ a.scm\n\
         @@ -7,7 +7,7 @@\n\
         \x20line 7\n\
         \x20line 8\n\
         \x20line 9\n\
         -line 10\n\
         +line ten\n\
         \x20line 11\n\
         \x20line 12\n\
         \x20line 13\n"
    );
}

#[test]
fn far_apart_changes_give_two_hunks() {
    let before = numbered(40);
    let after = before
        .replace("line 5\n", "line five\n")
        .replace("line 30\n", "line thirty\n");
    let diff = unified("a.scm", &before, &after);
    let headers: Vec<&str> = diff.lines().filter(|line| line.starts_with("@@")).collect();
    assert_eq!(headers, ["@@ -2,7 +2,7 @@", "@@ -27,7 +27,7 @@"]);
}

#[test]
fn adjacent_changes_give_one_merged_hunk() {
    let before = numbered(20);
    let after = before
        .replace("line 10\n", "line ten\n")
        .replace("line 12\n", "line twelve\n");
    let diff = unified("a.scm", &before, &after);
    let headers: Vec<&str> = diff.lines().filter(|line| line.starts_with("@@")).collect();
    assert_eq!(headers, ["@@ -7,9 +7,9 @@"]);
    assert!(diff.contains("-line 10\n+line ten\n line 11\n"), "{diff}");
}

#[test]
fn an_insertion_at_end_of_file_is_a_trailing_hunk() {
    let before = numbered(5);
    let after = format!("{before}line 6\n");
    assert_eq!(
        unified("a.scm", &before, &after),
        "--- a.scm\n\
         +++ a.scm\n\
         @@ -3,3 +3,4 @@\n\
         \x20line 3\n\
         \x20line 4\n\
         \x20line 5\n\
         +line 6\n"
    );
}

#[test]
fn an_insertion_into_an_empty_file_starts_at_zero() {
    assert_eq!(
        unified("a.scm", "", "(a)\n"),
        "--- a.scm\n+++ a.scm\n@@ -0,0 +1,1 @@\n+(a)\n"
    );
}

#[test]
fn a_deletion_of_every_line_ends_at_zero() {
    assert_eq!(
        unified("b.scm", "(a)\n(b)\n", ""),
        "--- b.scm\n+++ b.scm\n@@ -1,2 +0,0 @@\n-(a)\n-(b)\n"
    );
}

#[test]
fn a_missing_final_newline_is_a_change_of_no_line() {
    assert_eq!(unified("c.scm", "(a)", "(a)\n"), "--- c.scm\n+++ c.scm\n");
}

#[test]
fn a_replaced_middle_keeps_the_shared_lines() {
    let diff = unified("d.scm", "a\nb\nc\nd\n", "a\nx\nc\nd\n");
    assert_eq!(diff, "--- d.scm\n+++ d.scm\n@@ -1,4 +1,4 @@\n a\n-b\n+x\n c\n d\n");
}

#[test]
fn a_reordering_keeps_a_longest_common_subsequence() {
    let diff = unified("e.scm", "a\nb\nc\n", "b\nc\na\n");
    assert_eq!(diff, "--- e.scm\n+++ e.scm\n@@ -1,3 +1,3 @@\n-a\n b\n c\n+a\n");
}

/// Applies a unified diff the way a patch tool reads it: each header's
/// `OLD_START,OLD_COUNT` places the hunk, ` ` and `-` lines must match the
/// old text there, ` ` and `+` lines are written.
fn apply(before: &str, diff: &str) -> Vec<String> {
    let old: Vec<&str> = before.lines().collect();
    let mut out: Vec<String> = Vec::new();
    let mut next = 0usize;
    let mut lines = diff.lines().skip(2).peekable();
    while let Some(header) = lines.next() {
        let ranges: Vec<&str> = header.trim_start_matches("@@ -").trim_end_matches(" @@").split(" +").collect();
        let (start, count) = ranges[0].split_once(',').expect("old range");
        let (start, count): (usize, usize) = (start.parse().unwrap(), count.parse().unwrap());
        let at = if count == 0 { start } else { start - 1 };
        out.extend(old[next..at].iter().map(|line| line.to_string()));
        next = at;
        let (mut olds, mut news) = (0, 0);
        while let Some(line) = lines.peek() {
            if line.starts_with("@@") {
                break;
            }
            let line = lines.next().unwrap();
            let (marker, text) = line.split_at(1);
            if marker != "+" {
                assert_eq!(old[next], text, "the hunk's old side matches");
                next += 1;
                olds += 1;
            }
            if marker != "-" {
                out.push(text.to_string());
                news += 1;
            }
        }
        assert_eq!(olds, count);
        let new_count: usize = ranges[1].split_once(',').unwrap().1.parse().unwrap();
        assert_eq!(news, new_count);
    }
    out.extend(old[next..].iter().map(|line| line.to_string()));
    out
}

#[test]
fn applying_the_hunks_rebuilds_the_new_text() {
    let before = numbered(30);
    let cases = [
        before.replace("line 3\n", "line three\n").replace("line 25\n", ""),
        before.replace("line 1\n", "").replace("line 30\n", "line 30\nline 31\n"),
        format!("head\n{}", before.replace("line 12\n", "line 12\nextra\n")),
        String::new(),
        "only\n".to_string(),
    ];
    for after in cases {
        let diff = unified("f.scm", &before, &after);
        let rebuilt = apply(&before, &diff);
        let expected: Vec<String> = after.lines().map(|line| line.to_string()).collect();
        assert_eq!(rebuilt, expected);
    }
}
