use automata::ts::builder::TSBuilder;

#[test]
fn representation() {
    let ts = TSBuilder::default()
        .with_state_colors([false, false, true, true, true, false])
        .with_edges([
            (0, 'a', 9, 1),
            (0, 'b', 1, 2),
            (1, 'a', 2, 0),
            (1, 'b', 1, 3),
            (2, 'a', 4, 4),
            (2, 'b', 1, 5),
            (3, 'a', 2, 4),
            (3, 'b', 2, 5),
            (4, 'a', 1, 4),
            (4, 'b', 1, 5),
            (5, 'a', 2, 5),
            (5, 'b', 1, 5),
        ])
        .into_dts();
    let moore = ts.clone().into_moore_with_initial(0);
    let mealy = ts.into_mealy();
    assert_eq!(moore.size(), mealy.size());
    assert_eq!(moore.initial(), mealy.initial());
}
