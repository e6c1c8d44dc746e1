use umber::search::{file_wanted, list_files, match_line, search_dir, subseq_match, Item, Match, Want, MAX_FILE};

/// Files by path, standing for a directory tree.
struct Tree {
    files: Vec<(String, Vec<u8>)>,
}

impl Tree {
    fn new(files: &[(&str, &[u8])]) -> Tree {
        Tree { files: files.iter().map(|(p, b)| (format!("/r/{p}"), b.to_vec())).collect() }
    }

    fn items(&self, dir: &str) -> Vec<Item> {
        let mut out: Vec<Item> = Vec::new();
        for (path, _) in &self.files {
            if let Some(rest) = path.strip_prefix(&format!("{dir}/")) {
                let (name, is_dir) = match rest.split_once('/') {
                    Some((d, _)) => (d.to_string(), true),
                    None => (rest.to_string(), false),
                };
                if !out.iter().any(|i| i.name == name) {
                    out.push(Item { name, is_dir });
                }
            }
        }
        out
    }

    fn bytes(&self, path: &str) -> Vec<u8> {
        self.files.iter().find(|(p, _)| p == path).unwrap().1.clone()
    }

    fn search(&self, query: &str, limit: usize) -> Vec<Match> {
        let mut s = search_dir("/r", query, limit);
        loop {
            match s.next() {
                Want::Dir(d) => s.enter(&d, &self.items(&d.path)),
                Want::File(f) => s.look(&f, self.bytes(&f.path)),
                Want::Done => return s.results(),
            }
        }
    }

    fn list(&self, filter: &str, limit: usize) -> Vec<String> {
        let mut l = list_files("/r", filter, limit);
        while let Some(d) = l.next() {
            l.enter(&d, &self.items(&d.path));
        }
        l.results()
    }
}

#[test]
fn finds_case_insensitive_matches_with_line_and_col() {
    let d = Tree::new(&[("a.txt", b"hello World\nno match here\nWORLD again\n")]);
    let hits = d.search("world", 100);
    assert_eq!(hits.len(), 2);
    assert_eq!(hits[0].line, 1);
    assert_eq!(hits[0].col, 6);
    assert_eq!(hits[1].line, 3);
    assert_eq!(hits[1].col, 0);
}

#[test]
fn skips_binary_and_noise_dirs() {
    let d = Tree::new(&[
        ("code.rs", b"let target = 1;\n"),
        ("target/gen.rs", b"target in build output\n"),
        ("bin.dat", &[0u8, b'x', b't', b'a', b'r', b'g', 0u8]),
    ]);
    let hits = d.search("target", 100);
    assert_eq!(hits.len(), 1);
    assert!(hits[0].path.ends_with("code.rs"));
}

#[test]
fn respects_the_match_limit() {
    let many = "x\n".repeat(50);
    let d = Tree::new(&[("many.txt", many.as_bytes())]);
    let hits = d.search("x", 10);
    assert_eq!(hits.len(), 10);
}

#[test]
fn empty_query_returns_nothing() {
    let d = Tree::new(&[("a.txt", b"content\n")]);
    assert!(d.search("", 100).is_empty());
}

#[test]
fn subseq_match_is_ordered_fuzzy() {
    assert!(subseq_match("crates/umber/src/main.rs", "umain"));
    assert!(subseq_match("crates/umber/src/main.rs", "c/u/s/m.rs"));
    assert!(!subseq_match("crates/umber/src/main.rs", "mainz"));
    assert!(subseq_match("anything", ""));
}

#[test]
fn list_files_filters_and_skips() {
    let d = Tree::new(&[("alpha.rs", b""), ("beta.txt", b""), ("target/skip.rs", b"")]);
    let all = d.list("", 100);
    assert_eq!(all.len(), 2);
    let rs = d.list("alph.rs", 100);
    assert_eq!(rs.len(), 1);
    assert!(rs[0].ends_with("alpha.rs"));
}

#[test]
fn long_lines_are_shown_shortened() {
    let line = format!("   {}needle", "a".repeat(130));
    let d = Tree::new(&[("a.txt", line.as_bytes())]);
    let hits = d.search("NEEDLE", 5);
    assert_eq!(hits[0].col, 133);
    assert_eq!(hits[0].text, format!("{}\u{2026}", "a".repeat(120)));
}

#[test]
fn columns_count_characters() {
    let d = Tree::new(&[("a.txt", "\u{e9}\u{e9} find\n".as_bytes())]);
    assert_eq!(d.search("find", 5)[0].col, 3);
}

#[test]
fn lower_case_of_another_length_is_found_like_any_other() {
    let d = Tree::new(&[("a.txt", "\u{130}x\nplain x\n\u{130}\u{130} \u{212a}X\n".as_bytes())]);
    let hits = d.search("x", 10);
    let at: Vec<(usize, usize)> = hits.iter().map(|h| (h.line, h.col)).collect();
    assert_eq!(at, vec![(1, 1), (2, 6), (3, 4)]);
    assert_eq!(hits[0].text, "\u{130}x");
    // The match begins within the lower case of the second character.
    let d = Tree::new(&[("a.txt", "a\u{130}\n".as_bytes())]);
    assert_eq!(d.search("\u{307}", 10)[0].col, 1);
}

#[test]
fn columns_are_counted_in_the_line_itself() {
    let lower: Vec<char> = "i\u{307}x".chars().collect();
    assert_eq!(match_line(&[2, 1], &lower, &['x']), Some(1));
    assert_eq!(match_line(&[2, 1], &lower, &['\u{307}']), Some(0));
    assert_eq!(match_line(&[2, 1], &lower, &['y']), None);
}

#[test]
fn a_smaller_limit_lists_the_first_files() {
    let d = Tree::new(&[("a.txt", b""), ("b/c.txt", b""), ("d.txt", b"")]);
    let all = d.list("", 10);
    assert_eq!(all.len(), 3);
    for n in 0..4 {
        assert_eq!(d.list("", n), all[..n].to_vec());
    }
}

#[test]
fn large_files_are_passed_over() {
    assert!(file_wanted(MAX_FILE));
    assert!(!file_wanted(MAX_FILE + 1));
}

#[test]
fn files_are_visited_by_name() {
    let d = Tree::new(&[("b.txt", b"x"), ("a/z.txt", b"x"), ("c.txt", b"x")]);
    let paths: Vec<String> = d.search("x", 9).into_iter().map(|m| m.path).collect();
    assert_eq!(paths, vec!["/r/a/z.txt", "/r/b.txt", "/r/c.txt"]);
    assert_eq!(d.list("", 2), vec!["/r/a/z.txt", "/r/b.txt"]);
}

#[test]
fn no_file_is_listed_twice_and_each_matches() {
    let d = Tree::new(&[("a/b.txt", b""), ("a.b", b""), ("a/b/c.txt", b""), ("ab", b"")]);
    let all = d.list("ab", 10);
    let mut once = all.clone();
    once.sort();
    once.dedup();
    assert_eq!(once.len(), all.len());
    assert!(all.iter().all(|p| subseq_match(&p["/r/".len()..].to_lowercase(), "ab")));
}
