use projecthub::project::Project;
use projecthub::store::ProjectStoreFile;

fn project(name: &str) -> Project {
    Project::new(name.to_string(), "#000000".to_string(), Vec::new())
}

fn names(store: &ProjectStoreFile) -> Vec<String> {
    store.projects.iter().map(|p| p.name.clone()).collect()
}

#[test]
fn default_store_is_empty_version_one() {
    let s = ProjectStoreFile::default();
    assert_eq!(s.version, 1);
    assert!(s.projects.is_empty());
}

#[test]
fn upsert_then_get_reads_back() {
    let mut s = ProjectStoreFile::default();
    let a = project("A");
    let b = project("B");
    let (ida, idb) = (a.id, b.id);
    s.upsert(a);
    s.upsert(b);
    assert_eq!(s.get(ida).unwrap().name, "A");
    assert_eq!(s.get(idb).unwrap().name, "B");
    let mut a2 = s.get(ida).unwrap().clone();
    a2.name = "A2".to_string();
    s.upsert(a2);
    assert_eq!(names(&s), vec!["A2", "B"]);
    assert_eq!(s.get(ida).unwrap().name, "A2");
    assert!(s.get(ida.wrapping_add(1)).is_none() || s.get(ida.wrapping_add(1)).unwrap().id != ida);
}

#[test]
fn delete_reports_removal() {
    let mut s = ProjectStoreFile::default();
    let a = project("A");
    let id = a.id;
    s.upsert(a);
    s.upsert(project("B"));
    assert!(s.delete(id));
    assert!(s.get(id).is_none());
    assert_eq!(names(&s), vec!["B"]);
    assert!(!s.delete(id));
    assert_eq!(names(&s), vec!["B"]);
}

#[test]
fn reorder_puts_listed_first_and_keeps_leftovers() {
    let mut s = ProjectStoreFile::default();
    let ps: Vec<Project> = ["A", "B", "C", "D"].iter().map(|n| project(n)).collect();
    let ids: Vec<u128> = ps.iter().map(|p| p.id).collect();
    for p in ps {
        s.upsert(p);
    }
    // Unknown and repeated ids are skipped; D and A are left over in order.
    s.reorder(&[ids[2], 12345, ids[1], ids[2]]);
    assert_eq!(names(&s), vec!["C", "B", "A", "D"]);
    s.reorder(&[]);
    assert_eq!(names(&s), vec!["C", "B", "A", "D"]);
    s.reorder(&[ids[3], ids[2], ids[1], ids[0]]);
    assert_eq!(names(&s), vec!["D", "C", "B", "A"]);
}

#[test]
fn find_by_hotkey_index_takes_first() {
    let mut s = ProjectStoreFile::default();
    let mut a = project("A");
    a.hotkey_index = Some(2);
    let mut b = project("B");
    b.hotkey_index = Some(2);
    let ida = a.id;
    s.upsert(a);
    s.upsert(b);
    assert_eq!(s.find_by_hotkey_index(2), Some(ida));
    assert_eq!(s.find_by_hotkey_index(1), None);
}
