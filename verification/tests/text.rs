use dorm_report::order::sort_positions;
use dorm_report::paths::{csv_file_name, output_path, template_header};
use dorm_report::text::{
    apt_display_name, class_display, decimal_string, dept_display, dorm_display, grade_name,
    is_code_a, text_before,
};

#[test]
fn decimal_numerals() {
    assert_eq!(decimal_string(0), "0");
    assert_eq!(decimal_string(7), "7");
    assert_eq!(decimal_string(10), "10");
    assert_eq!(decimal_string(-1), "-1");
    assert_eq!(decimal_string(-30), "-30");
    assert_eq!(decimal_string(65535), "65535");
    assert_eq!(decimal_string(i64::MAX), "9223372036854775807");
    assert_eq!(decimal_string(i64::MIN), "-9223372036854775808");
}

#[test]
fn grade_names() {
    assert_eq!(grade_name(1), "高一");
    assert_eq!(grade_name(2), "高二");
    assert_eq!(grade_name(3), "高三");
    assert_eq!(grade_name(0), "");
    assert_eq!(grade_name(4), "");
}

#[test]
fn apartment_labels() {
    assert_eq!(apt_display_name(1), "一号公寓");
    assert_eq!(apt_display_name(2), "二号公寓");
    assert_eq!(apt_display_name(3), "二号公寓");
}

#[test]
fn group_labels() {
    assert_eq!(dept_display(2, "A", "王老师"), "高二A部\n(王老师)");
    assert_eq!(dept_display(1, "B", ""), "高一B部\n()");
    assert_eq!(class_display(12), "12班");
    assert_eq!(dorm_display(101), "101宿舍");
}

#[test]
fn the_dual_department_code_is_the_single_letter() {
    assert!(is_code_a("A"));
    assert!(!is_code_a("a"));
    assert!(!is_code_a("AA"));
    assert!(!is_code_a(""));
}

#[test]
fn strings_compare_character_by_character() {
    assert!(text_before("A", "B"));
    assert!(!text_before("B", "A"));
    assert!(!text_before("A", "A"));
    assert!(text_before("", "A"));
    assert!(!text_before("A", ""));
    assert!(text_before("A", "AB"));
    assert!(text_before("AB", "B"));
    assert!(text_before("Z", "一"));
    assert_eq!(text_before("理", "文"), "理" < "文");
}

#[test]
fn positions_are_ordered_by_key_and_ties_keep_their_order() {
    assert_eq!(sort_positions(&vec![201, 101, 101, 50, 201]), vec![3, 1, 2, 0, 4]);
    assert_eq!(sort_positions(&vec![]), Vec::<usize>::new());
    assert_eq!(sort_positions(&vec![5]), vec![0]);
    assert_eq!(sort_positions(&vec![1, 1, 1]), vec![0, 1, 2]);
    assert_eq!(sort_positions(&vec![3, 2, 1]), vec![2, 1, 0]);
}

#[test]
fn the_report_goes_beside_the_input_unless_a_place_is_given() {
    assert_eq!(output_path("data.csv", None), "data.xlsx");
    assert_eq!(output_path("dir/week1.csv", None), "dir/week1.xlsx");
    assert_eq!(output_path("plain", None), "plain.xlsx");
    assert_eq!(output_path("data.csv", Some("out/r.xlsx".to_string())), "out/r.xlsx");
}

#[test]
fn a_template_name_ends_in_csv() {
    assert_eq!(csv_file_name("week1"), "week1.csv");
    assert_eq!(csv_file_name("week1.csv"), "week1.csv");
    assert_eq!(csv_file_name("csv"), "csv.csv");
    assert_eq!(csv_file_name(".csv"), ".csv");
    assert_eq!(csv_file_name(""), ".csv");
    assert_eq!(csv_file_name("a.CSV"), "a.CSV.csv");
}

#[test]
fn a_template_has_five_columns() {
    assert_eq!(template_header(), vec!["年级", "班级", "公寓", "宿舍", "原因"]);
}
