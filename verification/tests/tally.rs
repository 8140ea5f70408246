use oxlive::tally::Tally;

#[test]
fn a_tally_does_not_fall_below_none() {
    let mut tally = Tally::new();
    tally.add();
    tally.add();
    tally.take();
    assert_eq!(tally.count(), 1);
    tally.take();
    tally.take();
    assert_eq!(tally.count(), 0);
}
