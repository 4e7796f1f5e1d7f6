use cell_groups::shifter::ShiftedElement;
use std::rc::Rc;

#[test]
fn shifted_element_keeps_element_and_index() {
    let shifted = ShiftedElement::new(Rc::new(7u8), 3);
    assert_eq!(shifted.index(), 3);
    assert_eq!(**shifted.element(), 7);
}

#[test]
fn shifted_elements_share_their_element() {
    let element = Rc::new(String::from("cell"));
    let first = ShiftedElement::new(element.clone(), 0);
    let second = ShiftedElement::new(element.clone(), 1);
    assert!(Rc::ptr_eq(first.element(), second.element()));
    assert_eq!(second.index(), 1);
}
