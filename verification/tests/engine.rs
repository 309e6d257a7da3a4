use poppy::canon::format_sql;
use poppy::engine::differs;
use poppy::engine::eligible;
use poppy::engine::format_sql_file;
use poppy::engine::format_sql_in_python_file;
use poppy::text::has_suffix;

fn formatted(sql: &str) -> String {
    String::from_utf8(format_sql(sql.as_bytes())).unwrap()
}

fn spliced(indent: &str, sql: &str) -> String {
    let mut out = String::new();
    out.push('\n');
    for line in formatted(sql).lines() {
        out.push_str(indent);
        out.push_str(line);
        out.push('\n');
    }
    out.push_str(indent);
    out
}

#[test]
fn no_region_text_is_unchanged() {
    let input = b"def f():\n    return 1\n";
    assert_eq!(format_sql_in_python_file(input), input.to_vec());
}

#[test]
fn empty_text_is_unchanged() {
    let input = b"";
    assert_eq!(format_sql_in_python_file(input), Vec::<u8>::new());
}

#[test]
fn ineligible_regions_reconstruct_exactly() {
    let input = b"a = \"\"\"not sql\"\"\"\nb = \"\"\"also not sql\"\"\"\n";
    assert_eq!(format_sql_in_python_file(input), input.to_vec());
}

#[test]
fn unterminated_delimiter_is_preserved_verbatim() {
    let input = b"x = \"\"\"select a from t;\nrest of file";
    assert_eq!(format_sql_in_python_file(input), input.to_vec());
}

#[test]
fn unterminated_delimiter_after_complete_region_is_preserved() {
    let input = b"a = \"\"\"no sql\"\"\"\nb = \"\"\"select a from t;";
    assert_eq!(format_sql_in_python_file(input), input.to_vec());
}

#[test]
fn region_with_opt_out_marker_is_unchanged() {
    let input = b"q = \"\"\"select a,b from t; --poppy-ignore\"\"\"\n";
    assert_eq!(format_sql_in_python_file(input), input.to_vec());
}

#[test]
fn sql_file_with_opt_out_marker_is_unchanged() {
    let input = b"select a,b from t; --poppy-ignore";
    let out = format_sql_file(input);
    assert_eq!(out, input.to_vec());
    assert!(!differs(&out, input));
}

#[test]
fn interpolated_region_is_unchanged() {
    let input = b"query = f\"\"\"select a from t;\"\"\"\n";
    assert_eq!(format_sql_in_python_file(input), input.to_vec());
}

#[test]
fn upper_case_interpolation_prefix_is_unchanged() {
    let input = b"query = F\"\"\"select a from t;\"\"\"\n";
    assert_eq!(format_sql_in_python_file(input), input.to_vec());
}

#[test]
fn body_without_statement_terminator_is_unchanged() {
    let input = b"query = \"\"\"select a from t\"\"\"\n";
    assert_eq!(format_sql_in_python_file(input), input.to_vec());
}

#[test]
fn body_with_trailing_whitespace_after_semicolon_is_formatted() {
    let input = b"q = \"\"\"select a from t;  \n\"\"\"\n";
    let expected = format!("q = \"\"\"{}\"\"\"\n", spliced("", "select a from t;  \n"));
    assert_eq!(format_sql_in_python_file(input), expected.into_bytes());
}

#[test]
fn eligible_region_is_formatted_and_spliced() {
    let input = b"query = \"\"\"select a,b from t;\"\"\"\n";
    let expected = format!("query = \"\"\"{}\"\"\"\n", spliced("", "select a,b from t;"));
    let out = format_sql_in_python_file(input);
    assert_eq!(out, expected.clone().into_bytes());
    assert!(differs(&out, input));
}

#[test]
fn indentation_of_opening_line_is_applied_to_every_line() {
    let input = b"def f():\n    query = \"\"\"select a,b from t;\"\"\"\n";
    let expected = format!(
        "def f():\n    query = \"\"\"{}\"\"\"\n",
        spliced("    ", "select a,b from t;")
    );
    let out = format_sql_in_python_file(input);
    assert_eq!(out, expected.into_bytes());
    let text = String::from_utf8(format_sql_in_python_file(input)).unwrap();
    for line in text.lines().skip(1) {
        if !line.is_empty() {
            assert!(line.starts_with("    "), "line not indented: {:?}", line);
        }
    }
    assert!(text.contains("\n    \"\"\"\n"));
}

#[test]
fn tab_indentation_is_applied_to_every_line() {
    let input = b"def f():\n\tq = \"\"\"select a from t;\"\"\"\n";
    let expected = format!(
        "def f():\n\tq = \"\"\"{}\"\"\"\n",
        spliced("\t", "select a from t;")
    );
    assert_eq!(format_sql_in_python_file(input), expected.into_bytes());
}

#[test]
fn two_eligible_regions_are_both_formatted() {
    let input = b"a = \"\"\"select a from t;\"\"\"\nb = \"\"\"select b from u;\"\"\"\n";
    let expected = format!(
        "a = \"\"\"{}\"\"\"\nb = \"\"\"{}\"\"\"\n",
        spliced("", "select a from t;"),
        spliced("", "select b from u;")
    );
    assert_eq!(format_sql_in_python_file(input), expected.into_bytes());
}

#[test]
fn transform_is_idempotent_on_a_formatted_script() {
    let input = b"def f():\n    q = \"\"\"select a,b from t;\"\"\"\n    return q\n";
    let once = format_sql_in_python_file(input);
    let twice = format_sql_in_python_file(&once);
    assert_eq!(once, twice);
}

#[test]
fn sql_file_transform_is_idempotent() {
    let once = format_sql_file(b"select a,b from t;");
    let twice = format_sql_file(&once);
    assert_eq!(once, twice);
}

#[test]
fn multiple_regions_are_handled_in_order() {
    let input = b"a = \"\"\"select a from t;\"\"\"\nb = f\"\"\"select b from t;\"\"\"\n";
    let expected = format!(
        "a = \"\"\"{}\"\"\"\nb = f\"\"\"select b from t;\"\"\"\n",
        spliced("", "select a from t;")
    );
    assert_eq!(format_sql_in_python_file(input), expected.into_bytes());
}

#[test]
fn sql_file_is_canonicalized_with_one_trailing_line_break() {
    let input = b"select a,b from t;";
    let out = format_sql_file(input);
    assert_eq!(
        out,
        b"SELECT\n    a,\n    b\nFROM\n    t;\n".to_vec()
    );
    assert!(differs(&out, input));
}

#[test]
fn canonicalizer_uppercases_keywords_and_is_not_identity() {
    let out = format_sql(b"select a,b from t;");
    assert_ne!(out, b"select a,b from t;".to_vec());
    let text = String::from_utf8(out).unwrap();
    assert!(text.contains("SELECT"));
    assert!(text.contains("FROM"));
}

#[test]
fn eligible_requires_terminator_and_no_marker() {
    assert!(eligible(b"select a from t;"));
    assert!(eligible(b"select a from t;  \n"));
    assert!(!eligible(b"select a from t"));
    assert!(!eligible(b""));
    assert!(!eligible(b"select a from t; --poppy-ignore"));
    assert!(!eligible(b"--poppy-ignore\nselect a from t;"));
}

#[test]
fn differs_compares_byte_for_byte() {
    assert!(!differs(b"", b""));
    assert!(!differs(b"abc", b"abc"));
    assert!(differs(b"abc", b"abd"));
    assert!(differs(b"abc", b"abcd"));
}

#[test]
fn file_kinds_are_recognized_by_suffix() {
    assert!(has_suffix(b"q.sql", b".sql"));
    assert!(has_suffix(b"dir/q.py", b".py"));
    assert!(!has_suffix(b"q.rs", b".sql"));
    assert!(!has_suffix(b"sql", b".sql"));
    assert!(!has_suffix(b"", b".py"));
}
