use diff_rs::{unidiff, unidiff_with_script, Context, DiffError, EditOp, Processor};

fn lines(v: &[&str]) -> Vec<String> {
    v.iter().map(|s| s.to_string()).collect()
}

#[test]
fn identity_gives_no_hunk() {
    let a = lines(&["a", "b", "c", "d"]);
    for r in [0usize, 1, 3, 10] {
        assert_eq!(unidiff(&a, &a, r), Ok(Vec::<String>::new()));
    }
}

#[test]
fn identity_of_empty_sequences() {
    let a: Vec<String> = Vec::new();
    assert_eq!(unidiff(&a, &a, 3), Ok(Vec::<String>::new()));
}

#[test]
fn full_rewrite_from_empty() {
    let a: Vec<String> = Vec::new();
    let b = lines(&["a", "b", "c"]);
    assert_eq!(
        unidiff(&a, &b, 3),
        Ok(lines(&["@@ -1,0 +1,3 @@", "+a", "+b", "+c"]))
    );
}

#[test]
fn full_rewrite_to_empty() {
    let a = lines(&["a", "b", "c"]);
    let b: Vec<String> = Vec::new();
    assert_eq!(
        unidiff(&a, &b, 3),
        Ok(lines(&["@@ -1,3 +1,0 @@", "-a", "-b", "-c"]))
    );
}

#[test]
fn single_context_window() {
    let a = lines(&["a", "b", "c", "d", "e"]);
    let b = lines(&["a", "b", "X", "d", "e"]);
    assert_eq!(
        unidiff(&a, &b, 1),
        Ok(lines(&["@@ -2,3 +2,3 @@", " b", "-c", "+X", " d"]))
    );
}

#[test]
fn wide_gap_splits_into_two_hunks() {
    let a = lines(&["1", "2", "3", "4", "5", "6", "7", "8", "9"]);
    let b = lines(&["1", "X", "3", "4", "5", "6", "7", "Y", "9"]);
    assert_eq!(
        unidiff(&a, &b, 1),
        Ok(lines(&[
            "@@ -1,3 +1,3 @@",
            " 1",
            "-2",
            "+X",
            " 3",
            "@@ -7,3 +7,3 @@",
            " 7",
            "-8",
            "+Y",
            " 9",
        ]))
    );
}

#[test]
fn narrow_gap_merges_into_one_hunk() {
    let a = lines(&["1", "2", "3", "4", "5", "6"]);
    let b = lines(&["1", "X", "3", "4", "Y", "6"]);
    assert_eq!(
        unidiff(&a, &b, 1),
        Ok(lines(&[
            "@@ -1,6 +1,6 @@",
            " 1",
            "-2",
            "+X",
            " 3",
            " 4",
            "-5",
            "+Y",
            " 6",
        ]))
    );
}

#[test]
fn gap_of_exactly_twice_the_radius_merges() {
    let a = lines(&["1", "2", "3", "4", "5", "6", "7"]);
    let b = lines(&["X", "2", "3", "4", "5", "Y", "7"]);
    let out = unidiff(&a, &b, 2).unwrap();
    assert_eq!(out.iter().filter(|l| l.starts_with("@@")).count(), 1);
    assert_eq!(out[0], "@@ -1,7 +1,7 @@");
}

#[test]
fn trailing_context_cut_to_radius() {
    let a = lines(&["1", "2", "3", "4", "5"]);
    let b = lines(&["X", "2", "3", "4", "5"]);
    assert_eq!(
        unidiff(&a, &b, 3),
        Ok(lines(&["@@ -1,4 +1,4 @@", "-1", "+X", " 2", " 3", " 4"]))
    );
}

#[test]
fn trailing_context_shorter_than_radius() {
    let a = lines(&["1", "2"]);
    let b = lines(&["X", "2"]);
    assert_eq!(
        unidiff(&a, &b, 3),
        Ok(lines(&["@@ -1,2 +1,2 @@", "-1", "+X", " 2"]))
    );
}

#[test]
fn second_hunk_start_follows_earlier_growth() {
    let a = lines(&["1", "2", "3", "4", "5", "6", "7", "8", "9"]);
    let b = lines(&["1", "N", "2", "3", "4", "5", "6", "7", "Y", "9"]);
    assert_eq!(
        unidiff(&a, &b, 1),
        Ok(lines(&[
            "@@ -1,2 +1,3 @@",
            " 1",
            "+N",
            " 2",
            "@@ -7,3 +8,3 @@",
            " 7",
            "-8",
            "+Y",
            " 9",
        ]))
    );
}

#[test]
fn zero_radius_shows_changes_only() {
    let a = lines(&["1", "2", "3"]);
    let b = lines(&["1", "X", "3"]);
    assert_eq!(
        unidiff(&a, &b, 0),
        Ok(lines(&["@@ -2,1 +2,1 @@", "-2", "+X"]))
    );
}

#[test]
fn header_numbers_of_two_digits() {
    let a = lines(&["1", "2", "3", "4", "5", "6", "7", "8", "9", "10", "11", "12"]);
    let b = lines(&["1", "2", "3", "4", "5", "6", "7", "8", "9", "10", "X", "12"]);
    assert_eq!(
        unidiff(&a, &b, 1),
        Ok(lines(&["@@ -10,3 +10,3 @@", " 10", "-11", "+X", " 12"]))
    );
}

#[test]
fn large_radius_keeps_the_changed_lines() {
    let a = lines(&["1", "2", "3", "4", "5", "6", "7", "8", "9"]);
    let b = lines(&["1", "X", "3", "4", "5", "6", "7", "Y", "9"]);
    let changes = |out: Vec<String>| -> Vec<String> {
        out.into_iter()
            .filter(|l| l.starts_with('-') || l.starts_with('+'))
            .collect()
    };
    let narrow = changes(unidiff(&a, &b, 1).unwrap());
    let wide = changes(unidiff(&a, &b, 20).unwrap());
    assert_eq!(narrow, lines(&["-2", "+X", "-8", "+Y"]));
    assert_eq!(narrow, wide);
    assert_eq!(unidiff(&a, &b, 20).unwrap()[0], "@@ -1,9 +1,9 @@");
}

#[test]
fn script_with_gap_is_rejected() {
    let a = lines(&["a", "b", "c"]);
    let ops = vec![EditOp::Equal { old: 0, new: 0, len: 1 }, EditOp::Delete { old: 2, len: 1 }];
    assert_eq!(unidiff_with_script(&a, &a, 3, &ops), Err(DiffError::MalformedScript));
}

#[test]
fn script_past_the_end_is_rejected() {
    let a = lines(&["a", "b", "c"]);
    let ops = vec![EditOp::Equal { old: 0, new: 0, len: 5 }];
    assert_eq!(unidiff_with_script(&a, &a, 3, &ops), Err(DiffError::MalformedScript));
}

#[test]
fn script_short_of_the_end_is_rejected() {
    let a = lines(&["a", "b", "c"]);
    let ops = vec![EditOp::Equal { old: 0, new: 0, len: 2 }];
    assert_eq!(unidiff_with_script(&a, &a, 3, &ops), Err(DiffError::MalformedScript));
}

#[test]
fn given_script_is_followed() {
    let a = lines(&["a", "b", "c"]);
    let b = lines(&["a", "x", "y", "c"]);
    let ops = vec![
        EditOp::Equal { old: 0, new: 0, len: 1 },
        EditOp::Replace { old: 1, old_len: 1, new: 1, new_len: 2 },
        EditOp::Equal { old: 2, new: 3, len: 1 },
    ];
    assert_eq!(
        unidiff_with_script(&a, &b, 3, &ops),
        Ok(lines(&["@@ -1,3 +1,4 @@", " a", "-b", "+x", "+y", " c"]))
    );
}

#[test]
fn empty_runs_are_tolerated() {
    let a = lines(&["a", "b"]);
    let ops = vec![
        EditOp::Equal { old: 0, new: 0, len: 1 },
        EditOp::Insert { old: 1, new: 1, new_len: 0 },
        EditOp::Equal { old: 1, new: 1, len: 1 },
    ];
    assert_eq!(unidiff_with_script(&a, &a, 1, &ops), Ok(Vec::<String>::new()));
}

#[test]
fn processor_driven_by_hand() {
    let a = lines(&["a", "b", "c"]);
    let b = lines(&["a", "c"]);
    let mut p = Processor::new(&a, &b, 1);
    p.equal(0, 0, 1);
    p.delete(1, 1);
    p.equal(2, 1, 1);
    p.finish();
    assert_eq!(p.result(), lines(&["@@ -1,3 +1,2 @@", " a", "-b", " c"]));
}

#[test]
fn processor_insert_then_finish() {
    let a = lines(&["a"]);
    let b = lines(&["a", "n"]);
    let mut p = Processor::new(&a, &b, 2);
    p.equal(0, 0, 1);
    p.insert(1, 1, 1);
    p.finish();
    assert_eq!(p.result(), lines(&["@@ -1,1 +1,2 @@", " a", "+n"]));
}

#[test]
fn context_without_start_renders_nothing() {
    let c = Context::new();
    assert!(c.to_vec(0, 0).is_empty());
}

#[test]
fn context_without_change_renders_nothing() {
    let mut c = Context::new();
    c.start = Some(4);
    c.data.push(" x".to_string());
    c.equaled = 1;
    assert!(c.to_vec(0, 0).is_empty());
}

#[test]
fn context_start_zero_shows_as_one() {
    let mut c = Context::new();
    c.start = Some(0);
    c.changed = true;
    c.data.push("+n".to_string());
    c.inserted = 1;
    assert_eq!(c.to_vec(0, 0), lines(&["@@ -1,0 +1,1 @@", "+n"]));
}

#[test]
fn context_header_uses_carries() {
    let mut c = Context::new();
    c.start = Some(20);
    c.changed = true;
    c.data.push(" k".to_string());
    c.data.push("-r".to_string());
    c.equaled = 1;
    c.removed = 1;
    assert_eq!(c.to_vec(2, 7), lines(&["@@ -20,2 +25,1 @@", " k", "-r"]));
}

#[test]
fn script_with_unequal_equal_run_is_rejected() {
    let a = lines(&["a", "b"]);
    let b = lines(&["a", "x"]);
    let ops = vec![EditOp::Equal { old: 0, new: 0, len: 2 }];
    assert_eq!(unidiff_with_script(&a, &b, 3, &ops), Err(DiffError::MalformedScript));
}

#[test]
fn hunk_slices_reapply() {
    let a = lines(&["1", "2", "3", "4", "5", "6", "7", "8", "9"]);
    let b = lines(&["1", "N", "2", "3", "4", "5", "6", "7", "Y", "9"]);
    let out = unidiff(&a, &b, 1).unwrap();
    // second hunk: "@@ -7,3 +8,3 @@"
    let body: Vec<&String> = out[5..].iter().collect();
    let old_side: Vec<String> = body
        .iter()
        .filter(|l| l.starts_with(' ') || l.starts_with('-'))
        .map(|l| l[1..].to_string())
        .collect();
    let new_side: Vec<String> = body
        .iter()
        .filter(|l| l.starts_with(' ') || l.starts_with('+'))
        .map(|l| l[1..].to_string())
        .collect();
    assert_eq!(out[4], "@@ -7,3 +8,3 @@");
    assert_eq!(old_side, a[6..9].to_vec());
    assert_eq!(new_side, b[7..10].to_vec());
}
