use seqlens::stack::Stack;

#[test]
fn pop_undo_reset_extend() {
    let mut s = Stack::from_vec(vec![1u32, 2, 3]);
    assert_eq!(s.pop(), Some(3));
    assert_eq!(s.pop(), Some(2));
    assert_eq!(s.len(), 1);
    s.undo();
    assert_eq!(s.len(), 2);
    s.reset();
    assert_eq!(s.len(), 3);
    assert_eq!(s.pop(), Some(3));
    s.extend(&vec![7, 8]);
    assert_eq!(s.len(), 4);
    assert_eq!(s.into_inner(), vec![1, 2, 7, 8]);
}

#[test]
fn pop_empty_stack() {
    let mut s: Stack<u8> = Stack::from_vec(vec![]);
    assert_eq!(s.pop(), None);
    assert_eq!(s.len(), 0);
}
