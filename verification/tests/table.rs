use minis::table::format_table;

fn rows(cells: &[&[&str]]) -> Vec<Vec<String>> {
    cells.iter().map(|row| row.iter().map(|c| c.to_string()).collect()).collect()
}

#[test]
fn table_with_header_and_rule() {
    let text = format_table(rows(&[
        &["", "Hoare", "Lomuto"],
        &["64 elements", "0.000001", "0.000002"],
        &["128 elements", "0.000003", "0.000004"],
    ]));
    assert_eq!(
        text,
        "|              | Hoare    | Lomuto   |\n\
         |--------------|----------|----------|\n\
         | 64 elements  | 0.000001 | 0.000002 |\n\
         | 128 elements | 0.000003 | 0.000004 |"
    );
}

#[test]
fn table_strips_cells_before_measuring() {
    let text = format_table(rows(&[&["  a ", "b"], &["ccc", "   dd\t"]]));
    assert_eq!(text, "| a   | b  |\n|-----|----|\n| ccc | dd |");
}

#[test]
fn table_of_one_row_ends_with_the_rule() {
    assert_eq!(format_table(rows(&[&["x"]])), "| x |\n|---|");
    assert_eq!(format_table(rows(&[&[""]])), "|  |\n|--|");
}

#[test]
fn table_measures_bytes_and_pads_characters() {
    let text = format_table(rows(&[&["é"], &["ab"]]));
    assert_eq!(text, "| é  |\n|----|\n| ab |");
}

#[test]
fn lay_out_keeps_cells_as_they_are() {
    let text = minis::table::lay_out(&rows(&[&[" a", "b"], &["ccc", "dd "]]));
    assert_eq!(text, "|  a  | b   |\n|-----|-----|\n| ccc | dd  |");
    assert_eq!(minis::table::lay_out(&rows(&[&["x"]])), "| x |\n|---|");
}
