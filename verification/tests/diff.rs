use editor_text::text::diff::{build_from_edits, myers_diff, DiffEdit};

#[test]
fn test_myers_diff() {
    let a = "hello world";
    let b = "hello there world";
    let edits = myers_diff(a.as_bytes(), b.as_bytes());

    println!("{:?}", edits);

    let result = build_from_edits(a, b, &edits);

    assert_eq!(result, b);

    let a = "hello world";
    let b = "hello rld";
    let edits = myers_diff(a.as_bytes(), b.as_bytes());
    let result = build_from_edits(a, b, &edits);

    println!("{:?}", edits);

    assert_eq!(result, b);
}

#[test]
fn test_myers_diff_lines() {
    let a = &[
        "fn main {",
        "    println!('Hello, world');",
        "}", //
    ];
    let b = &[
        "fn main {",
        "    println!('Hi, world');",
        "}", //
    ];
    let edits = myers_diff(a, b);

    println!("{:?}", edits);
}

#[test]
fn the_walk_stops_where_one_side_is_used_up() {
    let edits = myers_diff(b"ab".as_slice(), b"b".as_slice());
    assert_eq!(edits.len(), 1);
    assert!(matches!(edits[0], DiffEdit::Match));
    let edits = myers_diff(b"".as_slice(), b"xy".as_slice());
    assert!(edits.is_empty());
    let edits = myers_diff(b"xa".as_slice(), b"ya".as_slice());
    assert_eq!(edits.len(), 2);
    assert!(matches!(edits[0], DiffEdit::Substite { b_index: 0 }));
    assert!(matches!(edits[1], DiffEdit::Match));
}

fn cost_with_leftovers(a: &[u8], b: &[u8]) -> usize {
    let edits = myers_diff(a, b);
    let mut changed = 0;
    let mut used_a = 0;
    let mut used_b = 0;
    for edit in &edits {
        match edit {
            DiffEdit::Match => {
                used_a += 1;
                used_b += 1;
            }
            DiffEdit::Substite { .. } => {
                changed += 1;
                used_a += 1;
                used_b += 1;
            }
            DiffEdit::Delete => {
                changed += 1;
                used_a += 1;
            }
            DiffEdit::Insert { .. } => {
                changed += 1;
                used_b += 1;
            }
        }
    }
    assert!(used_a == a.len() || used_b == b.len());
    changed + (a.len() - used_a) + (b.len() - used_b)
}

#[test]
fn the_script_with_its_leftovers_costs_the_edit_distance() {
    assert_eq!(cost_with_leftovers(b"kitten", b"sitting"), 3);
    assert_eq!(cost_with_leftovers(b"ab", b"b"), 1);
    assert_eq!(cost_with_leftovers(b"hello world", b"hello there world"), 6);
    assert_eq!(cost_with_leftovers(b"", b"abc"), 3);
    assert_eq!(cost_with_leftovers(b"flaw", b"lawn"), 2);
}
