use boc::sorting::{sort_by_location, Located};

/// An item at a location, with a mark to tell it from others there.
#[derive(Debug, PartialEq)]
struct Item(usize, char);

impl Located for Item {
    fn location(&self) -> usize {
        unreachable!()
    }

    fn locate(&self) -> usize {
        self.0
    }
}

#[test]
fn nothing_to_sort() {
    assert_eq!(sort_by_location(Vec::<Item>::new()), vec![]);
}

#[test]
fn items_come_in_ascending_order() {
    let items = vec![Item(3, 'a'), Item(1, 'b'), Item(2, 'c')];
    assert_eq!(sort_by_location(items), vec![Item(1, 'b'), Item(2, 'c'), Item(3, 'a')]);
}

#[test]
fn items_at_one_place_keep_their_order() {
    let items = vec![Item(1, 'a'), Item(0, 'b'), Item(1, 'c'), Item(0, 'd'), Item(usize::MAX, 'e')];
    assert_eq!(
        sort_by_location(items),
        vec![Item(0, 'b'), Item(0, 'd'), Item(1, 'a'), Item(1, 'c'), Item(usize::MAX, 'e')]
    );
}
