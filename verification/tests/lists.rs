use editor_text::ui::focus_list::FocusList;
use editor_text::ui::slot_list::{SlotId, SlotList};
use editor_text::ui::result_list::ResultList;

#[test]
fn focus_list_add_follows_focus() {
    let mut list = FocusList::new();
    assert!(list.is_empty());
    list.add(1);
    assert_eq!(list.focused_index(), 0);
    list.add(2);
    assert_eq!(list.focused_index(), 1);
    list.set_focused_index(0);
    list.add(3);
    assert_eq!(list.iter(), &[1, 3, 2]);
    assert_eq!(list.focused_index(), 1);
    assert_eq!(list.get_focused(), Some(&3));
}

#[test]
fn focus_list_wraps_around() {
    let mut list = FocusList::new();
    list.push(1);
    list.push(2);
    list.push(3);
    list.focus_previous();
    assert_eq!(list.focused_index(), 2);
    list.focus_next();
    assert_eq!(list.focused_index(), 0);
    list.focus_next();
    assert_eq!(list.focused_index(), 1);
}

#[test]
fn focus_list_remove_clamps() {
    let mut list = FocusList::new();
    list.push('a');
    list.push('b');
    list.set_focused_index(5);
    assert_eq!(list.focused_index(), 1);
    assert_eq!(list.remove(), Some('b'));
    assert_eq!(list.focused_index(), 0);
    assert_eq!(list.remove(), Some('a'));
    assert_eq!(list.remove(), None);
    assert_eq!(list.len(), 0);
}

#[test]
fn focus_list_insert_swap_and_drain() {
    let mut list = FocusList::new();
    list.push(10);
    list.push(20);
    list.set_focused_index(1);
    list.insert(0, 5);
    assert_eq!(list.iter(), &[5, 10, 20]);
    assert_eq!(list.focused_index(), 2);
    list.swap(0, 2);
    assert_eq!(list.iter(), &[20, 10, 5]);
    assert_eq!(list.focused_index(), 0);
    let mut more = vec![1, 2];
    list.append(&mut more);
    assert!(more.is_empty());
    if let Some(x) = list.get_mut(4) {
        *x = 7;
    }
    if let Some(x) = list.get_focused_mut() {
        *x = 21;
    }
    assert_eq!(list.get(4), Some(&7));
    assert_eq!(list.get(9), None);
    assert_eq!(list.drain(), vec![21, 10, 5, 1, 7]);
    assert_eq!(list.focused_index(), 0);
    assert!(list.is_empty());
}

#[test]
fn slot_list_keeps_ids() {
    let mut list = SlotList::new();
    let a = list.add("a");
    let b = list.add("b");
    assert_eq!(list.get(a), Some(&"a"));
    assert_eq!(list.remove(a), Some("a"));
    assert_eq!(list.get(a), None);
    assert_eq!(list.remove(a), None);
    let c = list.add("c");
    assert_ne!(a, c);
    assert_eq!(list.get(a), None);
    assert_eq!(list.get(c), Some(&"c"));
    assert_eq!(list.get(b), Some(&"b"));
    if let Some(x) = list.get_mut(b) {
        *x = "B";
    }
    assert_eq!(list.iter(), vec![&"c", &"B"]);
    let listed: Vec<(SlotId, &&str)> = list.enumerate();
    assert_eq!(listed, vec![(c, &"c"), (b, &"B")]);
}

#[test]
fn slot_list_first_id_is_zero() {
    let mut list = SlotList::new();
    let a = list.add(1);
    assert_eq!(a, SlotId::zero());
}

#[test]
fn result_list_focus_wraps_both_ways() {
    let mut list = ResultList::new();
    list.push('a');
    list.push('b');
    list.push('c');
    assert_eq!(list.focused_index(), 0);
    list.focus_previous();
    assert_eq!(list.focused_index(), 2);
    list.focus_next();
    assert_eq!(list.focused_index(), 0);
    list.focus_next();
    assert_eq!(list.get_focused(), Some(&'b'));
}

#[test]
fn result_list_insert_keeps_the_focus_on_its_item() {
    let mut list = ResultList::new();
    list.push(1);
    list.push(2);
    list.set_focused_index(1);
    list.insert(0, 0);
    assert_eq!(list.focused_index(), 2);
    assert_eq!(list.get_focused(), Some(&2));
    list.insert(3, 3);
    assert_eq!(list.focused_index(), 2);
    assert_eq!(list.len(), 4);
}

#[test]
fn result_list_remove_and_set_focus_stay_within_the_items() {
    let mut list = ResultList::new();
    let mut more = vec![1, 2, 3];
    list.append(&mut more);
    assert!(more.is_empty());
    list.set_focused_index(10);
    assert_eq!(list.focused_index(), 2);
    assert_eq!(list.remove(), Some(3));
    assert_eq!(list.focused_index(), 1);
    if let Some(item) = list.get_focused_mut() {
        *item = 20;
    }
    assert_eq!(list.get(1), Some(&20));
    assert_eq!(list.drain(), vec![1, 20]);
    assert!(list.is_empty());
    assert_eq!(list.remove(), None);
    list.push(5);
    list.reset();
    assert_eq!(list.len(), 0);
    assert_eq!(list.focused_index(), 0);
}
