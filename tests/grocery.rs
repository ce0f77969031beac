use grocery_list::grocery::GroceryList;
use grocery_list::model::{EntryChanges, ServiceError};

fn category_names(list: &GroceryList) -> Vec<(String, u64)> {
    list.list_categories().into_iter().map(|c| (c.name, c.position)).collect()
}

#[test]
fn categories_create_then_reorder() {
    let mut list = GroceryList::new();
    let produce = list.create_category("Produce".to_string(), 10).unwrap();
    assert_eq!(produce.position, 0);
    let dairy = list.create_category("Dairy".to_string(), 11).unwrap();
    assert_eq!(dairy.position, 1);
    let listed = list.reorder_categories(&vec![dairy.id, produce.id]).unwrap();
    assert_eq!(listed.len(), 2);
    assert_eq!(
        category_names(&list),
        vec![("Dairy".to_string(), 0), ("Produce".to_string(), 1)]
    );
    assert_eq!(listed[0].id, dairy.id);
    assert_eq!(listed[1].id, produce.id);
}

#[test]
fn update_of_unknown_entry_is_not_found() {
    let mut list = GroceryList::new();
    let changes = EntryChanges { name: Some("Milk".to_string()), category_id: None, completed: None };
    let r = list.update_entry(999, changes, 5);
    assert_eq!(r.unwrap_err(), ServiceError::NotFound);
    assert_eq!(ServiceError::NotFound.status_code(), 404);
    assert_eq!(ServiceError::Validation.status_code(), 400);
}

#[test]
fn empty_category_name_is_rejected() {
    let mut list = GroceryList::new();
    assert_eq!(list.create_category(String::new(), 1).unwrap_err(), ServiceError::Validation);
    assert!(list.list_categories().is_empty());
    let c = list.create_category("Bakery".to_string(), 1).unwrap();
    assert_eq!(list.update_category(c.id, String::new(), 2).unwrap_err(), ServiceError::Validation);
    assert_eq!(list.update_category(c.id + 100, "X".to_string(), 2).unwrap_err(), ServiceError::NotFound);
    let renamed = list.update_category(c.id, "Bread".to_string(), 3).unwrap();
    assert_eq!(renamed.name, "Bread");
    assert_eq!(renamed.created_at, 1);
    assert_eq!(renamed.updated_at, 3);
}

#[test]
fn positions_stay_contiguous_through_creates_and_deletes() {
    let mut list = GroceryList::new();
    let mut ids = Vec::new();
    for name in ["A", "B", "C", "D", "E"] {
        ids.push(list.create_category(name.to_string(), 0).unwrap().id);
    }
    list.delete_category(ids[1]).unwrap();
    list.delete_category(ids[3]).unwrap();
    list.create_category("F".to_string(), 0).unwrap();
    list.delete_category(ids[0]).unwrap();
    let got = category_names(&list);
    assert_eq!(
        got,
        vec![("C".to_string(), 0), ("E".to_string(), 1), ("F".to_string(), 2)]
    );
    assert_eq!(list.delete_category(ids[0]).unwrap_err(), ServiceError::NotFound);
}

#[test]
fn deleting_a_category_detaches_its_entries() {
    let mut list = GroceryList::new();
    let fruit = list.create_category("Fruit".to_string(), 0).unwrap();
    let dairy = list.create_category("Dairy".to_string(), 0).unwrap();
    let apple = list.create_entry("Apple".to_string(), Some(fruit.id), 0).unwrap();
    let milk = list.create_entry("Milk".to_string(), Some(dairy.id), 0).unwrap();
    list.delete_category(fruit.id).unwrap();
    assert_eq!(list.get_entry(apple.id).unwrap().category_id, None);
    assert_eq!(list.get_entry(milk.id).unwrap().category_id, Some(dairy.id));
    let cats = list.list_categories();
    assert_eq!(cats.len(), 1);
    assert_eq!(cats[0].position, 0);
    assert_eq!(cats[0].id, dairy.id);
}

#[test]
fn bad_reorder_changes_nothing() {
    let mut list = GroceryList::new();
    let a = list.create_category("A".to_string(), 0).unwrap();
    let b = list.create_category("B".to_string(), 0).unwrap();
    assert_eq!(list.reorder_categories(&vec![b.id, 77]).unwrap_err(), ServiceError::Validation);
    assert_eq!(list.reorder_categories(&vec![b.id, b.id]).unwrap_err(), ServiceError::Validation);
    assert_eq!(category_names(&list), vec![("A".to_string(), 0), ("B".to_string(), 1)]);
    assert_eq!(list.list_categories()[0].id, a.id);
}

#[test]
fn partial_reorder_puts_the_rest_after() {
    let mut list = GroceryList::new();
    let a = list.create_entry("a".to_string(), None, 0).unwrap();
    let b = list.create_entry("b".to_string(), None, 0).unwrap();
    let c = list.create_entry("c".to_string(), None, 0).unwrap();
    let listed = list.reorder_entries(&vec![c.id]).unwrap();
    let order: Vec<(u64, u64)> = listed.iter().map(|e| (e.id, e.position)).collect();
    assert_eq!(order, vec![(c.id, 0), (a.id, 1), (b.id, 2)]);
    let empty = list.reorder_entries(&vec![]).unwrap();
    assert_eq!(empty.len(), 3);
    assert_eq!(empty[0].id, c.id);
}

#[test]
fn created_entry_reads_back() {
    let mut list = GroceryList::new();
    let cat = list.create_category("Pantry".to_string(), 0).unwrap();
    let e = list.create_entry("Rice".to_string(), Some(cat.id), 42).unwrap();
    let back = list.get_entry(e.id).unwrap();
    assert_eq!(back.name, "Rice");
    assert_eq!(back.category_id, Some(cat.id));
    assert!(!back.completed);
    assert_eq!(back.position, 0);
    assert_eq!(back.created_at, 42);
    assert!(list.get_entry(e.id + 1).is_none());
}

#[test]
fn entry_with_unknown_category_is_rejected() {
    let mut list = GroceryList::new();
    assert_eq!(list.create_entry("Eggs".to_string(), Some(3), 0).unwrap_err(), ServiceError::Validation);
    assert_eq!(list.create_entry(String::new(), None, 0).unwrap_err(), ServiceError::Validation);
    let e = list.create_entry("Eggs".to_string(), None, 0).unwrap();
    let bad = EntryChanges { name: None, category_id: Some(Some(9)), completed: None };
    assert_eq!(list.update_entry(e.id, bad, 1).unwrap_err(), ServiceError::Validation);
    let good = EntryChanges { name: None, category_id: None, completed: Some(true) };
    let done = list.update_entry(e.id, good, 2).unwrap();
    assert!(done.completed);
    assert_eq!(done.name, "Eggs");
    assert_eq!(done.updated_at, 2);
}

#[test]
fn deleting_an_entry_renumbers() {
    let mut list = GroceryList::new();
    let a = list.create_entry("a".to_string(), None, 0).unwrap();
    let b = list.create_entry("b".to_string(), None, 0).unwrap();
    let c = list.create_entry("c".to_string(), None, 0).unwrap();
    list.delete_entry(a.id).unwrap();
    let order: Vec<(u64, u64)> = list.list_entries().iter().map(|e| (e.id, e.position)).collect();
    assert_eq!(order, vec![(b.id, 0), (c.id, 1)]);
    assert_eq!(list.delete_entry(a.id).unwrap_err(), ServiceError::NotFound);
}

#[test]
fn suggestions_ignore_case_and_repeat_no_name() {
    let mut list = GroceryList::new();
    for name in ["Milk", "mint", "Bread", "milk", "Milk"] {
        list.create_entry(name.to_string(), None, 0).unwrap();
    }
    assert_eq!(list.entry_suggestions("mi"), vec!["Milk", "mint", "milk"]);
    assert_eq!(list.entry_suggestions("BR"), vec!["Bread"]);
    assert_eq!(list.entry_suggestions("").len(), 4);
    assert!(list.entry_suggestions("milky").is_empty());
    list.create_category("Dairy".to_string(), 0).unwrap();
    list.create_category("Deli".to_string(), 0).unwrap();
    assert_eq!(list.category_suggestions("d"), vec!["Dairy", "Deli"]);
    assert_eq!(list.category_suggestions("dai"), vec!["Dairy"]);
}

#[test]
fn records_rebuild_a_list() {
    let mut list = GroceryList::new();
    let c = list.create_category("C".to_string(), 0).unwrap();
    list.create_entry("e".to_string(), Some(c.id), 0).unwrap();
    let mut rebuilt = GroceryList::from_records(list.list_categories(), list.list_entries()).unwrap();
    assert_eq!(rebuilt.next_category_id, c.id + 1);
    let d = rebuilt.create_category("D".to_string(), 0).unwrap();
    assert_eq!(d.id, c.id + 1);
    assert_eq!(d.position, 1);
    let mut gap = list.list_categories();
    gap[0].position = 1;
    assert!(GroceryList::from_records(gap, vec![]).is_none());
    assert!(GroceryList::from_records(vec![], list.list_entries()).is_none());
}
