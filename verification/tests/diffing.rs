use changelog::{diff_file, diff_files, FileDiff};

#[test]
fn equal_text_yields_no_hunks() {
    let x = String::from("alpha\nbeta\ngamma\n");
    let fd = FileDiff::new(String::from("demo.txt"), x.clone(), x.clone());
    assert!(diff_file(&fd).is_empty());
}

#[test]
fn trailing_whitespace_is_ignored() {
    let fd = FileDiff::new(
        String::from("demo.txt"),
        String::from("alpha\nbeta"),
        String::from("alpha\nbeta\n\n   \n"),
    );
    assert!(diff_file(&fd).is_empty());
}

#[test]
fn one_changed_line_makes_one_hunk() {
    let before = String::from("a\nb\nc\nd\ne\nf\ng\nh\ni\nj\n");
    let after = String::from("a\nb\nc\nd\nE\nf\ng\nh\ni\nj\n");
    let fd = FileDiff::new(String::from("demo.txt"), before, after);
    let out = diff_file(&fd);
    assert_eq!(
        out,
        vec![
            "--- demo.txt before",
            "+++ demo.txt after",
            "@@ -2,7 +2,7 @@",
            " b",
            " c",
            " d",
            "-e",
            "+E",
            " f",
            " g",
            " h",
        ]
    );
}

#[test]
fn distant_changes_make_two_hunks() {
    let before = String::from("a\nb\nc\nd\ne\nf\ng\nh\ni\nj\nk\nl\nm\nn\n");
    let after = String::from("A\nb\nc\nd\ne\nf\ng\nh\ni\nj\nk\nl\nm\nN\n");
    let fd = FileDiff::new(String::from("demo.txt"), before, after);
    let out = diff_file(&fd);
    let headers: Vec<&String> = out.iter().filter(|l| l.starts_with("@@")).collect();
    assert_eq!(headers.len(), 2);
    assert_eq!(headers[0], "@@ -1,4 +1,4 @@");
    assert_eq!(headers[1], "@@ -11,4 +11,4 @@");
}

#[test]
fn near_changes_merge_into_one_hunk() {
    // The two changed rows sit 7 apart, the largest gap that still merges.
    let before = String::from("a\nb\nc\nd\ne\nf\ng\nh\ni\nj\nk\n");
    let after = String::from("A\nb\nc\nd\ne\nf\ng\nH\ni\nj\nk\n");
    let fd = FileDiff::new(String::from("demo.txt"), before, after);
    let out = diff_file(&fd);
    let headers: Vec<&String> = out.iter().filter(|l| l.starts_with("@@")).collect();
    assert_eq!(headers.len(), 1);
}

#[test]
fn added_lines_count_only_on_the_right() {
    let before = String::from("a\nb\n");
    let after = String::from("a\nb\nc\n");
    let fd = FileDiff::new(String::from("demo.txt"), before, after);
    let out = diff_file(&fd);
    assert_eq!(out[0], "--- demo.txt before");
    assert_eq!(out[1], "+++ demo.txt after");
    assert_eq!(out[2], "@@ -1,2 +1,3 @@");
    assert_eq!(out[3], " a");
    assert_eq!(out[4], " b");
    assert_eq!(out[5], "+c");
}

#[test]
fn several_files_render_one_after_the_other() {
    let same = FileDiff::new(
        String::from("same.txt"),
        String::from("x\n"),
        String::from("x\n"),
    );
    let differs = FileDiff::new(
        String::from("other.txt"),
        String::from("x\n"),
        String::from("y\n"),
    );
    let out = diff_files(&vec![same.clone(), differs]);
    assert_eq!(out[0], "--- other.txt before");
    assert_eq!(out[1], "+++ other.txt after");
    assert_eq!(out[2], "@@ -1,1 +1,1 @@");
    assert_eq!(out[3], "-x");
    assert_eq!(out[4], "+y");
    assert_eq!(out.len(), 5);

    let quiet = diff_files(&vec![same.clone(), same]);
    assert!(quiet.is_empty());
}
