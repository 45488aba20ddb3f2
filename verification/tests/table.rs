use radix_conv::table::{Row, Table};

fn row(cells: &[&str], span: Option<&str>) -> Row {
    let mut r = Row::new();
    for c in cells {
        r.push(c);
    }
    if let Some(s) = span {
        r.push_span(s);
    }
    r
}

#[test]
fn empty_table_prints_nothing() {
    let t = Table::new();
    assert_eq!("", t.print());
    assert_eq!(Vec::<usize>::new(), t.measure());
}

#[test]
fn cells_move_to_the_right_edge() {
    let mut t = Table::new();
    t.push(row(&["a", "bbb"], None));
    t.push(row(&["cccc", "d"], None));
    assert_eq!(vec![4, 3], t.measure());
    assert_eq!("     a  bbb\n  cccc    d\n", t.print());
}

#[test]
fn a_later_row_widens_an_earlier_one() {
    let mut t = Table::new();
    t.push(row(&["x"], None));
    assert_eq!("  x\n", t.print());
    t.push(row(&["wide"], None));
    assert_eq!("     x\n  wide\n", t.print());
}

#[test]
fn short_rows_leave_later_columns_alone() {
    let mut t = Table::new();
    t.push(row(&["1"], None));
    t.push(row(&["22", "333", "4"], None));
    t.push(row(&[], None));
    t.push(row(&["5", "6"], None));
    assert_eq!(vec![2, 3, 1], t.measure());
    assert_eq!("   1\n  22  333  4\n\n   5    6\n", t.print());
}

#[test]
fn span_follows_the_cells_without_padding() {
    let mut t = Table::new();
    t.push(row(&["long cell", "x"], None));
    t.push(row(&["a"], Some("spans the rest")));
    t.push(row(&[], Some("alone")));
    assert_eq!(
        "  long cell  x\n          a  spans the rest\n  alone\n",
        t.print()
    );
    assert_eq!(vec![9, 1], t.measure());
}

#[test]
fn width_counts_characters_not_bytes() {
    let mut t = Table::new();
    t.push(row(&["héé"], None));
    t.push(row(&["abcd"], None));
    assert_eq!(vec![4], t.measure());
    assert_eq!("   héé\n  abcd\n", t.print());
}

#[test]
fn every_cell_of_a_column_ends_at_the_same_place() {
    let mut t = Table::new();
    let words = ["", "a", "bb", "ccc", "dddd", "eeeee"];
    for i in 0..6 {
        t.push(row(&[words[i], words[5 - i], words[(i * 2) % 6]], None));
    }
    let text = t.print();
    let lines: Vec<&str> = text.lines().collect();
    assert_eq!(6, lines.len());
    for line in &lines {
        assert_eq!(7 + 7 + 6, line.chars().count());
    }
    for (i, line) in lines.iter().enumerate() {
        assert!(line[..7].ends_with(words[i]));
        assert!(line[7..14].ends_with(words[5 - i]));
        assert!(line[14..].ends_with(words[(i * 2) % 6]));
    }
}

#[test]
fn push_span_replaces_an_earlier_span() {
    let mut r = Row::new();
    assert!(!r.has_span());
    r.push("c");
    r.push_span("first");
    assert!(r.has_span());
    r.push_span("second");
    let mut t = Table::new();
    t.push(r);
    assert_eq!("  c  second\n", t.print());
}
