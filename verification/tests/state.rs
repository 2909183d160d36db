use vprogs::state::State;

#[test]
fn test_state_to_bytes_exact() {
    let state = State { owner: 1, data: vec![2, 3], balance: 4 };
    assert_eq!(
        state.to_bytes(),
        vec![1, 0, 0, 0, 0, 0, 0, 0, 2, 0, 0, 0, 2, 3, 4, 0, 0, 0, 0, 0, 0, 0]
    );
}

#[test]
fn test_state_default_and_duplicate() {
    let state = State::default();
    assert_eq!(state.owner, 0);
    assert!(state.data.is_empty());
    assert_eq!(state.balance, 0);
    assert_eq!(state.to_bytes(), vec![0; 20]);
    let other = State { owner: 0x0102, data: vec![9], balance: u64::MAX };
    let copy = other.duplicate();
    assert_eq!(copy.owner, 0x0102);
    assert_eq!(copy.data, vec![9]);
    assert_eq!(copy.balance, u64::MAX);
    assert_eq!(copy.to_bytes()[0..2], [2, 1]);
}
