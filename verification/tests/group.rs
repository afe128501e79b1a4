use dorm_report::group::{select, sort_by_dorm, total_of, GroupKey};
use dorm_report::model::ProcessedRecord;
use dorm_report::order::pick;

fn rec(apartment: u8, grade: u8, class: u8, dept: &str, manager: &str, dorm: u16) -> ProcessedRecord {
    ProcessedRecord {
        apartment,
        grade,
        class,
        dept: dept.to_string(),
        teacher: "T".to_string(),
        manager: manager.to_string(),
        dorm,
        reason: format!("r{}", dorm),
        deduction: -1,
    }
}

fn data() -> Vec<ProcessedRecord> {
    vec![
        rec(1, 1, 1, "A", "M1", 201),
        rec(1, 1, 2, "", "M1", 105),
        rec(2, 1, 1, "A", "M3", 101),
        rec(1, 2, 1, "A", "M2", 101),
        rec(1, 1, 3, "A", "M1", 101),
        rec(1, 3, 2, "", "M2", 220),
    ]
}

fn dorms(records: &[&ProcessedRecord]) -> Vec<u16> {
    records.iter().map(|r| r.dorm).collect()
}

#[test]
fn a_record_with_a_department_belongs_to_it_and_to_no_classroom() {
    let all = data();
    let code = "A".to_string();
    let department = GroupKey::Department { grade: 1, dept: &code };
    assert!(department.holds(&all[0]));
    assert!(!department.holds(&all[3]));
    assert!(!GroupKey::Classroom { class: 1 }.holds(&all[0]));
    assert!(GroupKey::Classroom { class: 2 }.holds(&all[1]));
    assert!(GroupKey::Classroom { class: 2 }.holds(&all[5]));
    let none = String::new();
    assert!(!GroupKey::Department { grade: 1, dept: &none }.holds(&all[1]));
    let m1 = "M1".to_string();
    assert!(GroupKey::Manager { name: &m1 }.holds(&all[1]));
    assert!(!GroupKey::Manager { name: &m1 }.holds(&all[3]));
}

#[test]
fn members_are_picked_in_the_order_of_the_input() {
    let all = data();
    let code = "A".to_string();
    let department = GroupKey::Department { grade: 1, dept: &code };
    assert_eq!(dorms(&select(&all, None, &department)), vec![201, 101, 101]);
    assert_eq!(dorms(&select(&all, Some(1), &department)), vec![201, 101]);
    assert_eq!(dorms(&select(&all, Some(2), &department)), vec![101]);
    assert_eq!(dorms(&select(&all, Some(3), &department)), Vec::<u16>::new());
    assert_eq!(dorms(&select(&all, Some(1), &GroupKey::Classroom { class: 2 })), vec![105, 220]);
    let m2 = "M2".to_string();
    assert_eq!(dorms(&select(&all, Some(1), &GroupKey::Manager { name: &m2 })), vec![101, 220]);
}

#[test]
fn a_total_is_the_sum_of_the_deductions() {
    let mut all = data();
    let refs: Vec<&ProcessedRecord> = all.iter().collect();
    assert_eq!(total_of(&refs), -6);
    assert_eq!(total_of(&Vec::new()), 0);
    all[0].deduction = -3;
    all[1].deduction = 2;
    let refs: Vec<&ProcessedRecord> = all.iter().collect();
    assert_eq!(total_of(&refs), -5);
}

#[test]
fn the_total_over_both_apartments_is_the_sum_of_the_two() {
    let all = data();
    let code = "A".to_string();
    let department = GroupKey::Department { grade: 1, dept: &code };
    let whole = total_of(&select(&all, None, &department));
    let one = total_of(&select(&all, Some(1), &department));
    let two = total_of(&select(&all, Some(2), &department));
    assert_eq!((whole, one, two), (-3, -2, -1));
}

#[test]
fn records_are_put_by_dormitory_and_ties_keep_their_order() {
    let all = data();
    let refs: Vec<&ProcessedRecord> = all.iter().collect();
    let sorted = sort_by_dorm(&refs);
    assert_eq!(dorms(&sorted), vec![101, 101, 101, 105, 201, 220]);
    let apartments: Vec<u8> = sorted.iter().take(3).map(|r| r.apartment).collect();
    assert_eq!(apartments, vec![2, 1, 1]);
    let grades: Vec<u8> = sorted.iter().take(3).map(|r| r.grade).collect();
    assert_eq!(grades, vec![1, 2, 1]);
    assert!(sort_by_dorm(&Vec::new()).is_empty());
}

#[test]
fn items_are_read_through_an_order() {
    let words = vec!["a".to_string(), "b".to_string(), "c".to_string()];
    let refs: Vec<&String> = words.iter().collect();
    assert_eq!(pick(&refs, &vec![2, 0, 1, 0]), vec!["c", "a", "b", "a"]);
    assert!(pick(&refs, &vec![]).is_empty());
}
