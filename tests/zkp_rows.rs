use receipts::zkp::iter::{rows, Error};
use receipts::zkp::receipt::Receipt;

#[test]
pub fn receipts_are_ordered_and_holes_filled() {
    let a = Receipt {
        id: 0,
        payment_amount: 0,
        signature: (),
    };
    let b = Receipt {
        id: 2,
        payment_amount: 0,
        signature: (),
    };

    let check = |receipts| {
        let mut receipts = rows(receipts).unwrap();
        assert_eq!(receipts.next(), Some(a.clone()));
        assert_eq!(receipts.next(), Some(Receipt::null(1)));
        assert_eq!(receipts.next(), Some(b.clone()));
        assert_eq!(receipts.next(), Some(Receipt::null(3)));
        assert_eq!(receipts.count(), Receipt::MAX_ID as usize - 4);
    };

    // Two initial orderings give the same rows.
    check(vec![a.clone(), b.clone()]);
    check(vec![b.clone(), a.clone()]);
}

#[test]
pub fn duplicate_ids_rejected() {
    let a = Receipt {
        id: 10,
        payment_amount: 2,
        signature: (),
    };
    let b = Receipt {
        id: 10,
        payment_amount: 3,
        signature: (),
    };

    let receipts = vec![a, b];
    assert_eq!(rows(receipts).unwrap_err(), Error::DuplicateID);
}

#[test]
pub fn max_id_rejected() {
    let a = Receipt {
        id: Receipt::MAX_ID.checked_add(1).unwrap(),
        payment_amount: 0,
        signature: (),
    };
    let b = Receipt {
        id: 5,
        payment_amount: 0,
        signature: (),
    };

    let receipts = vec![a.clone(), b.clone()];
    assert_eq!(rows(receipts).unwrap_err(), Error::InvalidID);

    let receipts = vec![b, a];
    assert_eq!(rows(receipts).unwrap_err(), Error::InvalidID);
}

#[test]
fn rows_end_at_max_id() {
    let last = Receipt {
        id: Receipt::MAX_ID - 1,
        payment_amount: 7,
        signature: (),
    };
    let mut it = rows(vec![last.clone()]).unwrap();
    for id in 0..Receipt::MAX_ID - 1 {
        assert_eq!(it.next(), Some(Receipt::null(id)));
    }
    assert_eq!(it.next(), Some(last));
    assert_eq!(it.next(), None);
    assert_eq!(it.next(), None);
}

#[test]
fn invalid_id_wins_over_duplicates() {
    let big = Receipt { id: Receipt::MAX_ID + 5, payment_amount: 0, signature: () };
    let dup = Receipt { id: 3, payment_amount: 0, signature: () };
    assert_eq!(rows(vec![dup.clone(), dup, big]).unwrap_err(), Error::InvalidID);
}

#[test]
fn empty_input_gives_only_placeholders() {
    let mut it = rows(Vec::new()).unwrap();
    assert_eq!(it.next(), Some(Receipt::null(0)));
    assert_eq!(it.count(), Receipt::MAX_ID as usize - 1);
}

#[test]
fn orderings_give_equal_iterators() {
    let a = Receipt { id: 4, payment_amount: 1, signature: () };
    let b = Receipt { id: 9, payment_amount: 2, signature: () };
    let c = Receipt { id: 1, payment_amount: 3, signature: () };
    let x = rows(vec![a.clone(), b.clone(), c.clone()]).unwrap();
    let y = rows(vec![c, a, b]).unwrap();
    assert_eq!(x, y);
}
