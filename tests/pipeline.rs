use exif_sort::assign::{assign, sorted_distinct};
use exif_sort::collate::{Collation, Duplicate};
use exif_sort::datetime::PhotoDate;
use exif_sort::plan::{extension_text, output_file_name, plan_copies, PlanError, Scan};

fn key(dt: &str, ss: &str) -> PhotoDate {
    PhotoDate::from_fields(Some(dt), Some(ss)).unwrap()
}

fn entries(table: &Collation, k: PhotoDate) -> Vec<(String, String)> {
    let mut out = Vec::new();
    for g in table.groups() {
        if g.key == k {
            for f in &g.files {
                out.push((f.extension.clone(), f.path.clone()));
            }
        }
    }
    out.sort();
    out
}

#[test]
fn insert_groups_extensions_under_one_key() {
    let k = key("2023-06-01 10:00:00", "50");
    let mut t = Collation::new();
    assert_eq!(t.insert(k, ".jpg".to_string(), "a.jpg".to_string()), Ok(()));
    assert_eq!(t.insert(k, ".raw".to_string(), "a.raw".to_string()), Ok(()));
    assert_eq!(t.insert(k, String::new(), "a".to_string()), Ok(()));
    assert_eq!(t.groups().len(), 1);
    assert_eq!(t.groups()[0].files.len(), 3);
}

#[test]
fn duplicate_keeps_first_path() {
    let k = key("2023-06-01 10:00:00", "50");
    let mut t = Collation::new();
    assert_eq!(t.insert(k, ".jpg".to_string(), "first.jpg".to_string()), Ok(()));
    assert_eq!(t.insert(k, ".jpg".to_string(), "second.jpg".to_string()), Err(Duplicate));
    assert_eq!(entries(&t, k), vec![(".jpg".to_string(), "first.jpg".to_string())]);
}

#[test]
fn extension_match_is_case_sensitive() {
    let k = key("2023-06-01 10:00:00", "50");
    let mut t = Collation::new();
    assert_eq!(t.insert(k, ".jpg".to_string(), "a.jpg".to_string()), Ok(()));
    assert_eq!(t.insert(k, ".JPG".to_string(), "a.JPG".to_string()), Ok(()));
}

#[test]
fn collation_ignores_scan_order() {
    let k = key("2023-06-01 10:00:00", "50");
    let mut a = Collation::new();
    a.insert(k, ".jpg".to_string(), "x.jpg".to_string()).unwrap();
    a.insert(k, ".raw".to_string(), "x.raw".to_string()).unwrap();
    let mut b = Collation::new();
    b.insert(k, ".raw".to_string(), "x.raw".to_string()).unwrap();
    b.insert(k, ".jpg".to_string(), "x.jpg".to_string()).unwrap();
    assert_eq!(a.groups().len(), 1);
    assert_eq!(b.groups().len(), 1);
    assert_eq!(entries(&a, k), entries(&b, k));
}

#[test]
fn different_millis_are_different_keys() {
    let mut t = Collation::new();
    t.insert(key("2023-06-01 10:00:00", "50"), ".jpg".to_string(), "a.jpg".to_string()).unwrap();
    t.insert(key("2023-06-01 10:00:00", "51"), ".jpg".to_string(), "b.jpg".to_string()).unwrap();
    assert_eq!(t.groups().len(), 2);
}

#[test]
fn assign_numbers_distinct_keys_in_order() {
    let k1 = key("2023-06-01 10:00:00", "0");
    let k2 = key("2023-06-01 10:00:00", "1");
    let k3 = key("2024-01-01 00:00:00", "0");
    let r = assign(&vec![k3, k1, k2], 5);
    assert_eq!(r, vec![(5, k1), (6, k2), (7, k3)]);
}

#[test]
fn assign_collapses_repeated_keys() {
    let k1 = key("2023-06-01 10:00:00", "0");
    let k2 = key("2023-06-02 10:00:00", "0");
    let r = assign(&vec![k2, k1, k2, k1, k1], 1);
    assert_eq!(r, vec![(1, k1), (2, k2)]);
    assert_eq!(sorted_distinct(&vec![k2, k1, k2]), vec![k1, k2]);
    assert!(assign(&Vec::new(), 1).is_empty());
}

#[test]
fn output_file_name_format() {
    assert_eq!(output_file_name(1, &".jpg".to_string()), "IMG_1.jpg");
    assert_eq!(output_file_name(1230, &String::new()), "IMG_1230");
    assert_eq!(output_file_name(0, &".RAW".to_string()), "IMG_0.RAW");
}

#[test]
fn extension_text_format() {
    assert_eq!(extension_text(Some("jpg")), ".jpg");
    assert_eq!(extension_text(None), "");
}

#[test]
fn plan_reports_missing_group() {
    let t = Collation::new();
    let k = key("2023-06-01 10:00:00", "0");
    assert!(matches!(plan_copies(&t, &vec![(1, k)]), Err(PlanError::CacheMismatch)));
    assert!(plan_copies(&t, &Vec::new()).unwrap().is_empty());
}

#[test]
fn three_files_two_instants() {
    let mut scan = Scan::new();
    let files = [
        ("2023-06-02 09:00:00", "000", ".jpg", "in/c.jpg"),
        ("2023-06-01 10:00:00", "050", ".jpg", "in/a.jpg"),
        ("2023-06-01 10:00:00", "050", ".raw", "in/a.raw"),
    ];
    for (dt, ss, ext, path) in files {
        scan.add(key(dt, ss), ext.to_string(), path.to_string()).unwrap();
    }
    assert_eq!(scan.seen().len(), 3);
    let (order, steps) = scan.plan(1);
    assert_eq!(order.len(), 2);
    let mut got: Vec<(String, String, String)> =
        steps.iter().map(|s| (s.folder.clone(), s.file_name.clone(), s.source.clone())).collect();
    got.sort();
    let want = vec![
        ("2023_06_01".to_string(), "IMG_1.jpg".to_string(), "in/a.jpg".to_string()),
        ("2023_06_01".to_string(), "IMG_1.raw".to_string(), "in/a.raw".to_string()),
        ("2023_06_02".to_string(), "IMG_2.jpg".to_string(), "in/c.jpg".to_string()),
    ];
    assert_eq!(got, want);
}

#[test]
fn scan_refuses_duplicate_and_keeps_state() {
    let mut scan = Scan::new();
    let k = key("2023-06-01 10:00:00", "050");
    scan.add(k, ".jpg".to_string(), "a.jpg".to_string()).unwrap();
    assert_eq!(scan.add(k, ".jpg".to_string(), "b.jpg".to_string()), Err(Duplicate));
    assert_eq!(scan.seen().len(), 1);
    assert_eq!(entries(scan.table(), k), vec![(".jpg".to_string(), "a.jpg".to_string())]);
}

#[test]
fn plan_starts_at_given_index() {
    let mut scan = Scan::new();
    scan.add(key("2023-06-01 10:00:00", "0"), ".jpg".to_string(), "a.jpg".to_string()).unwrap();
    let (order, steps) = scan.plan(100);
    assert_eq!(order[0].0, 100);
    assert_eq!(steps[0].file_name, "IMG_100.jpg");
}

fn triple(dt: &str, ss: &str, ext: &str, path: &str) -> (PhotoDate, String, String) {
    (key(dt, ss), ext.to_string(), path.to_string())
}

#[test]
fn from_files_refuses_a_clash_anywhere() {
    let files = vec![
        triple("2023-06-01 10:00:00", "050", ".jpg", "a.jpg"),
        triple("2023-06-02 09:00:00", "000", ".jpg", "c.jpg"),
        triple("2023-06-01 10:00:00", "050", ".jpg", "b.jpg"),
    ];
    assert!(matches!(Scan::from_files(&files), Err(Duplicate)));
}

#[test]
fn from_files_in_any_order_numbers_alike() {
    let a = triple("2023-06-01 10:00:00", "050", ".jpg", "a.jpg");
    let b = triple("2023-06-01 10:00:00", "050", ".raw", "a.raw");
    let c = triple("2023-06-02 09:00:00", "000", ".jpg", "c.jpg");
    let orders = [
        vec![a.clone(), b.clone(), c.clone()],
        vec![c.clone(), b.clone(), a.clone()],
        vec![b.clone(), c.clone(), a.clone()],
    ];
    let mut results = Vec::new();
    for files in orders.iter() {
        let scan = Scan::from_files(files).unwrap();
        assert_eq!(scan.seen().len(), 3);
        let (order, steps) = scan.plan(7);
        let mut got: Vec<(String, String, String)> =
            steps.iter().map(|s| (s.folder.clone(), s.file_name.clone(), s.source.clone())).collect();
        got.sort();
        results.push((order, got));
    }
    assert_eq!(results[0], results[1]);
    assert_eq!(results[0], results[2]);
    assert_eq!(results[0].1[0].1, "IMG_7.jpg");
    assert_eq!(results[0].1[2].1, "IMG_8.jpg");
}

#[test]
fn plan_allows_start_at_the_top() {
    let mut scan = Scan::new();
    let k = key("2023-06-01 10:00:00", "0");
    scan.add(k, ".jpg".to_string(), "a.jpg".to_string()).unwrap();
    scan.add(k, ".raw".to_string(), "a.raw".to_string()).unwrap();
    let (order, steps) = scan.plan(usize::MAX);
    assert_eq!(order, vec![(usize::MAX, k)]);
    assert_eq!(steps.len(), 2);
}
