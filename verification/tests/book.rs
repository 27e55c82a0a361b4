use lib::book::{test_list, List, MyBox};

#[test]
fn book_deref_demo() {
    let x = 5;
    let mut y = MyBox::new(x);
    assert_eq!(*y, 5);
    *y = 7;
    assert_eq!(*y, 7);
}

#[test]
fn book_list_demo() {
    let list = test_list();
    assert_eq!(format!("{:?}", list), "Node(1, Node(2, Node(3, Nil)))");
}

#[test]
fn my_box_holds_a_string() {
    let b = MyBox::new(String::from("some data"));
    assert_eq!(b.len(), 9);
    assert_eq!(*b, "some data");
}

#[test]
fn cons_list_end() {
    let list = List::Node(4, Box::new(List::Nil));
    match list {
        List::Node(v, rest) => {
            assert_eq!(v, 4);
            assert!(matches!(*rest, List::Nil));
        }
        List::Nil => panic!("expected a node"),
    }
}
