use agent_network::ticker::Ticker;

#[test]
fn ticker_fires_every_third_call() {
    let mut t = Ticker::new(3);
    let got: Vec<bool> = (0..7).map(|_| t.tick()).collect();
    assert_eq!(got, vec![true, false, false, true, false, false, true]);
}

#[test]
fn ticker_period_one_always_fires() {
    let mut t = Ticker::new(1);
    for _ in 0..5 {
        assert!(t.tick());
    }
}

#[test]
fn ticker_period_zero_always_fires() {
    let mut t = Ticker::new(0);
    for _ in 0..5 {
        assert!(t.tick());
    }
}
