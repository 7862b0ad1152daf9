use acid::lookahead::Lookahead;

#[test]
fn lookahead_delays_by_its_length() {
    let mut d = Lookahead::new(440, 0i32);
    assert_eq!(d.len(), 440);
    let mut out = Vec::new();
    for x in 1..=1000i32 {
        out.push(d.push(x));
    }
    assert!(out[..440].iter().all(|&v| v == 0));
    for k in 440..1000usize {
        assert_eq!(out[k], (k - 440 + 1) as i32);
    }
}

#[test]
fn lookahead_of_one_is_a_unit_delay() {
    let mut d = Lookahead::new(1, 9u8);
    assert_eq!(d.push(1), 9);
    assert_eq!(d.push(2), 1);
    assert_eq!(d.push(3), 2);
}

#[test]
fn lookahead_holds_every_value_once() {
    let mut d = Lookahead::new(3, 0u32);
    d.push(5);
    d.push(6);
    let mut held: Vec<u32> = d.as_slice().to_vec();
    held.sort();
    assert_eq!(held, vec![0, 5, 6]);
}
