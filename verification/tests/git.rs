use umber::git::{diff_fits, parse_diff, read_hunk, Hunk, LineChange};

#[test]
fn parses_addition_modification_deletion() {
    let diff = "\
diff --git a/f b/f
--- a/f
+++ b/f
@@ -1,0 +2,3 @@
+new1
+new2
+new3
@@ -10,1 +13,1 @@
-old10
+mod10
@@ -20,2 +22,0 @@
-gone1
-gone2
";
    let m = parse_diff(diff);
    assert_eq!(m.get(&2), Some(&LineChange::Added));
    assert_eq!(m.get(&3), Some(&LineChange::Added));
    assert_eq!(m.get(&4), Some(&LineChange::Added));
    assert_eq!(m.get(&13), Some(&LineChange::Modified));
    assert_eq!(m.get(&22), Some(&LineChange::Deleted));
    assert_eq!(m.len(), 5);
}

#[test]
fn empty_diff_yields_nothing() {
    assert!(parse_diff("").is_empty());
    assert!(parse_diff("diff --git a/f b/f\n").is_empty());
}

fn hunk(line: &str) -> Option<Hunk> {
    let cs: Vec<char> = line.chars().collect();
    read_hunk(&cs)
}

#[test]
fn hunk_headers_are_read() {
    let h = hunk("@@ -1,0 +2,3 @@").unwrap();
    assert_eq!((h.new_start, h.new_count, h.old_count), (2, 3, 0));
    assert!(hunk("@@ -1 +2 @@ fn f()").is_some());
    assert!(hunk("+@@ -1 +2 @@").is_none());
    assert!(hunk("@@ nonsense").is_none());
}

#[test]
fn counts_beyond_the_machine_are_told_apart() {
    assert!(diff_fits("@@ -1,1 +2,2 @@\n"));
    assert!(!diff_fits("@@ -1,1 +18446744073709551615,2 @@\n"));
}

#[test]
fn a_deletion_at_the_top_marks_the_first_line() {
    let m = parse_diff("@@ -1,2 +0,0 @@\n-a\n-b\n");
    assert_eq!(m.get(&1), Some(&LineChange::Deleted));
}
