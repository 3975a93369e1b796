use caver::disk::DiskLetter;
use caver::file::IsValidWindowsFileName;
use caver::search::{SearchExpr, SearchExprValue, SearchField, SearchOperation, SearchOperator,
    SearchParams};

fn value(s: &str, inverted: bool) -> SearchExpr {
    SearchExpr { expr: SearchExprValue::Value(s.to_string()), inverted }
}

fn operation(
    operator: SearchOperator,
    lhs: SearchExpr,
    rhs: SearchExpr,
    inverted: bool,
) -> SearchExpr {
    SearchExpr {
        expr: SearchExprValue::Operation(
            Box::new(SearchOperation { operation: operator, lhs, rhs }),
        ),
        inverted,
    }
}

#[test]
fn value_tests_substring_containment() {
    assert!(value("ell", false).process("hello"));
    assert!(!value("elle", false).process("hello"));
    assert!(value("", false).process("anything"));
    assert!(value("", false).process(""));
    assert!(!value("Ell", false).process("hello"));
}

#[test]
fn inverted_value_flips_the_test() {
    assert!(!value("ell", true).process("hello"));
    assert!(value("zzz", true).process("hello"));
}

#[test]
fn and_or_combine() {
    let both = operation(SearchOperator::And, value("a", false), value("b", false), false);
    assert!(both.process("ab"));
    assert!(!both.process("ax"));
    let either = operation(SearchOperator::Or, value("a", false), value("b", false), false);
    assert!(either.process("xb"));
    assert!(!either.process("xy"));
}

#[test]
fn operation_invert_flag_applies() {
    let neither = operation(SearchOperator::Or, value("a", false), value("b", false), true);
    assert!(neither.process("xy"));
    assert!(!neither.process("ay"));
}

#[test]
fn params_absent_fields_constrain_nothing() {
    let p = SearchParams { name: None, path: None, content: None };
    assert!(p.process("any", "any", true, None));
}

#[test]
fn params_name_and_path_must_both_hold() {
    let p = SearchParams {
        name: Some(value("notes", false)),
        path: Some(value("docs", false)),
        content: None,
    };
    assert!(p.process("notes.txt", r"C:\docs\notes.txt", true, None));
    assert!(!p.process("notes.txt", r"C:\pics\notes.txt", true, None));
    assert!(!p.process("other.txt", r"C:\docs\other.txt", true, None));
}

#[test]
fn content_constraint_reads_only_leaves() {
    let p = SearchParams { name: None, path: None, content: Some(value("hit", false)) };
    // A node with children satisfies the constraint without being read.
    assert!(p.process("docs", r"C:\docs", false, None));
    assert!(p.process("docs", r"C:\docs", false, Some("no match here")));
    // A leaf is read: matching text passes, other text or no text fails.
    assert!(p.process("a.txt", r"C:\a.txt", true, Some("one hit inside")));
    assert!(!p.process("a.txt", r"C:\a.txt", true, Some("nothing")));
    assert!(!p.process("a.txt", r"C:\a.txt", true, None));
}

#[test]
fn search_field_from_string() {
    assert_eq!(SearchField::from_string("name"), Some(SearchField::Name));
    assert_eq!(SearchField::from_string("path"), Some(SearchField::Path));
    assert_eq!(SearchField::from_string("content"), Some(SearchField::Content));
    assert_eq!(SearchField::from_string("Name"), None);
    assert_eq!(SearchField::from_string(""), None);
}

#[test]
fn disk_letter_strings() {
    let d = DiskLetter::new('C');
    assert_eq!(d.to_string(), "C");
    assert_eq!(d.with_dots(), "C:");
    assert_eq!(d.path_as_str(), "C:\\");
    assert_eq!(d.path(), "C:\\\\");
    assert_eq!(DiskLetter::from('D'), DiskLetter::new('D'));
}

#[test]
fn valid_windows_file_name_chars() {
    assert!('a'.is_valid_windows_file_name());
    assert!(' '.is_valid_windows_file_name());
    for c in ['\\', '/', ':', '*', '?', '"', '<', '>', '|'] {
        assert!(!c.is_valid_windows_file_name());
    }
    assert!("notes.txt".is_valid_windows_file_name());
    assert!(!"".is_valid_windows_file_name());
    assert!(!"a:b".is_valid_windows_file_name());
}
