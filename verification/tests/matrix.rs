use scientific::matrix::MatrixIterator;

#[test]
fn entries_come_column_by_column() {
    let data = vec![11, 21, 31, 12, 22, 32];
    let mut iterator = MatrixIterator::new(&data, 3, 2);
    assert_eq!(iterator.next(), Some((&11, 0, 0)));
    assert_eq!(iterator.next(), Some((&21, 1, 0)));
    assert_eq!(iterator.next(), Some((&31, 2, 0)));
    assert_eq!(iterator.next(), Some((&12, 0, 1)));
    assert_eq!(iterator.next(), Some((&22, 1, 1)));
    assert_eq!(iterator.next(), Some((&32, 2, 1)));
    assert_eq!(iterator.next(), None);
    assert_eq!(iterator.next(), None);
}

#[test]
fn single_row_and_single_column() {
    let data = vec![1, 2, 3];
    let mut row = MatrixIterator::new(&data, 1, 3);
    assert_eq!(row.next(), Some((&1, 0, 0)));
    assert_eq!(row.next(), Some((&2, 0, 1)));
    assert_eq!(row.next(), Some((&3, 0, 2)));
    assert_eq!(row.next(), None);
    let mut column = MatrixIterator::new(&data, 3, 1);
    assert_eq!(column.next(), Some((&1, 0, 0)));
    assert_eq!(column.next(), Some((&2, 1, 0)));
    assert_eq!(column.next(), Some((&3, 2, 0)));
    assert_eq!(column.next(), None);
}

#[test]
fn matrix_without_columns_is_empty() {
    let data: Vec<u8> = Vec::new();
    let mut iterator = MatrixIterator::new(&data, 4, 0);
    assert_eq!(iterator.next(), None);
    assert_eq!(iterator.next(), None);
}
