use pairs_trading::book::PositionKind;
use pairs_trading::live::{
    close_all_orders, determine_flag, fills_in_pair_order, login_step, order_event_step, order_legs, order_start,
    order_terms, position_mismatches, scale_second_leg, second_leg_after, tally_positions, Direction, LoginAction,
    LoginEvent, OffsetFlag, OrderEvent, OrderStart, OrderStep, Position, PositionRecord,
    PriceKind, Side, SpreadHolding,
};

fn pos(l_today: u32, l_yd: u32, s_today: u32, s_yd: u32) -> Position {
    Position {
        long_today: l_today,
        long_yd: l_yd,
        short_today: s_today,
        short_yd: s_yd,
    }
}

#[test]
fn test_open_returns_open() {
    let p = pos(0, 0, 0, 0);
    assert_eq!(determine_flag(true, 5, &p), Some(OffsetFlag::Open));
    assert_eq!(determine_flag(true, -3, &p), Some(OffsetFlag::Open));
}

#[test]
fn test_close_short_prefers_today_then_yd() {
    // buying qty>0 closes short side
    let p_today = pos(0, 0, 4, 1);
    assert_eq!(determine_flag(false, 3, &p_today), Some(OffsetFlag::CloseToday));

    let p_yd = pos(0, 0, 0, 6);
    assert_eq!(determine_flag(false, 5, &p_yd), Some(OffsetFlag::CloseYesterday));

    let p_both = pos(0, 0, 2, 2);
    // if qty fits in today, choose today
    assert_eq!(determine_flag(false, 2, &p_both), Some(OffsetFlag::CloseToday));
    // if qty doesn't fit in either bucket alone, return None (caller should split)
    assert_eq!(determine_flag(false, 3, &p_both), None);
}

#[test]
fn test_close_long_prefers_today_then_yd() {
    // selling qty<0 closes long side
    let p_today = pos(5, 1, 0, 0);
    assert_eq!(determine_flag(false, -4, &p_today), Some(OffsetFlag::CloseToday));

    let p_yd = pos(0, 7, 0, 0);
    assert_eq!(determine_flag(false, -6, &p_yd), Some(OffsetFlag::CloseYesterday));

    let p_both = pos(2, 3, 0, 0);
    // if qty fits in today, choose today
    assert_eq!(determine_flag(false, -2, &p_both), Some(OffsetFlag::CloseToday));
    // if qty doesn't fit in today but fits in yd, choose yd
    assert_eq!(determine_flag(false, -3, &p_both), Some(OffsetFlag::CloseYesterday));
}

#[test]
fn test_insufficient_position_returns_none() {
    // buy to close short, but no short positions
    let p = pos(2, 3, 0, 0);
    assert_eq!(determine_flag(false, 1, &p), None);

    // sell to close long, but no long positions
    let p2 = pos(0, 0, 4, 5);
    assert_eq!(determine_flag(false, -1, &p2), None);
}

#[test]
fn zero_quantity_close_sells_from_long_side() {
    // a zero quantity is not a buy, so it is checked against the long buckets
    assert_eq!(determine_flag(false, 0, &pos(0, 0, 0, 0)), Some(OffsetFlag::CloseToday));
}

#[test]
fn default_position_is_flat() {
    assert_eq!(Position::default(), pos(0, 0, 0, 0));
}

#[test]
fn tally_splits_today_and_earlier_by_side() {
    let recs = vec![
        PositionRecord { direction: Direction::Long, position: 5, today_position: 2 },
        PositionRecord { direction: Direction::Short, position: 4, today_position: 4 },
        PositionRecord { direction: Direction::Other, position: 9, today_position: 1 },
        PositionRecord { direction: Direction::Long, position: 3, today_position: 0 },
    ];
    assert_eq!(tally_positions(&recs), pos(2, 6, 4, 0));
    assert_eq!(tally_positions(&Vec::new()), pos(0, 0, 0, 0));
}

#[test]
fn close_all_plan_sells_longs_then_buys_back_shorts() {
    let positions = vec![("ag2510".to_string(), pos(1, 2, 3, 4)), ("cu2510".to_string(), pos(0, 0, 0, 0))];
    let plan = close_all_orders(&positions);
    let got: Vec<(String, i32, OffsetFlag)> =
        plan.into_iter().map(|o| (o.symbol, o.qty, o.flag)).collect();
    let expected = vec![
        ("ag2510".to_string(), -2, OffsetFlag::CloseYesterday),
        ("ag2510".to_string(), -1, OffsetFlag::CloseToday),
        ("ag2510".to_string(), 4, OffsetFlag::CloseYesterday),
        ("ag2510".to_string(), 3, OffsetFlag::CloseToday),
        ("cu2510".to_string(), 0, OffsetFlag::CloseYesterday),
        ("cu2510".to_string(), 0, OffsetFlag::CloseToday),
        ("cu2510".to_string(), 0, OffsetFlag::CloseYesterday),
        ("cu2510".to_string(), 0, OffsetFlag::CloseToday),
    ];
    assert_eq!(got, expected);
    // the planned orders net out the position: shorts bought back minus longs sold
    let net: i32 = expected.iter().take(4).map(|o| o.1).sum();
    assert_eq!(net, (3 + 4) - (1 + 2));
}

#[test]
fn second_leg_scales_with_first_fill() {
    // full fill keeps the second leg
    assert_eq!(scale_second_leg(-7, 10, 10), -7);
    assert_eq!(scale_second_leg(6, 4, -4), 6);
    // half fill: 5 * 3 / 6 = 2.5 rounds away from zero
    assert_eq!(scale_second_leg(5, 3, 6), 3);
    assert_eq!(scale_second_leg(-5, 3, 6), -3);
    // 7 * 1 / 3 = 2.33 rounds to 2
    assert_eq!(scale_second_leg(7, 1, 3), 2);
    assert_eq!(scale_second_leg(7, 0, 3), 0);
    // the result saturates at the i32 range
    assert_eq!(scale_second_leg(i32::MAX, i32::MAX, 1), i32::MAX);
    assert_eq!(scale_second_leg(i32::MIN, i32::MAX, 1), i32::MIN);
    // a zero first-leg quantity sends the product to the bound of its sign
    assert_eq!(scale_second_leg(5, 2, 0), i32::MAX);
    assert_eq!(scale_second_leg(-5, 2, 0), i32::MIN);
    assert_eq!(scale_second_leg(5, 0, 0), 0);
    // the float computation of the same scaling agrees on ordinary sizes
    for qb in -20i32..=20 {
        for fill in 0i32..=12 {
            for qa in [-12i32, -5, 0, 3, 12] {
                let f = (qb as f64 * fill as f64 / qa.abs() as f64).round() as i32;
                assert_eq!(scale_second_leg(qb, fill, qa), f);
            }
        }
    }
}

#[test]
fn order_terms_follow_sign_and_mode() {
    let t = order_terms(-4, false);
    assert_eq!((t.side, t.volume, t.price_kind), (Side::Sell, 4, PriceKind::Limit));
    let t = order_terms(9, true);
    assert_eq!((t.side, t.volume, t.price_kind), (Side::Buy, 9, PriceKind::AnyPrice));
    let t = order_terms(0, false);
    assert_eq!((t.side, t.volume), (Side::Sell, 0));
}

#[test]
fn order_messages_decide_the_outcome() {
    assert_eq!(order_start(0, false), OrderStart::NothingToDo);
    assert_eq!(order_start(3, false), OrderStart::NoPrice);
    assert_eq!(order_start(-3, true), OrderStart::Send);
    assert_eq!(order_event_step(OrderEvent::Status { canceled: false }), OrderStep::Wait);
    assert_eq!(order_event_step(OrderEvent::Status { canceled: true }), OrderStep::Finish(None));
    assert_eq!(order_event_step(OrderEvent::InsertRejected), OrderStep::Finish(None));
    assert_eq!(order_event_step(OrderEvent::Trade { volume: 7 }), OrderStep::Finish(Some(7)));
    assert_eq!(order_event_step(OrderEvent::Other), OrderStep::Wait);
}

#[test]
fn login_handshake_steps() {
    assert_eq!(login_step(LoginEvent::FrontConnected), LoginAction::SendAuthenticate);
    assert_eq!(login_step(LoginEvent::Authenticated), LoginAction::SendLogin);
    assert_eq!(login_step(LoginEvent::LoggedIn), LoginAction::Done);
    assert_eq!(login_step(LoginEvent::Other), LoginAction::Wait);
}

#[test]
fn less_traded_leg_goes_first() {
    assert_eq!(order_legs(5, -5, 100, 50), (true, -5, 5));
    assert_eq!(order_legs(5, -4, 50, 100), (false, 5, -4));
    assert_eq!(order_legs(5, -4, 50, 50), (false, 5, -4));
}

#[test]
fn mismatches_compare_each_side() {
    let holdings = vec![
        SpreadHolding { a: "ag2510".into(), b: "ag2511".into(), kind: PositionKind::Long, size_a: 3 },
        SpreadHolding { a: "ag2511".into(), b: "ag2512".into(), kind: PositionKind::Short, size_a: 2 },
    ];
    // strategy: ag2510 long 3; ag2511 short 3 + short 2 = 5; ag2512 long 2
    let broker = vec![
        ("ag2510".to_string(), pos(1, 2, 0, 0)),
        ("ag2511".to_string(), pos(0, 0, 4, 0)),
        ("ag2512".to_string(), pos(0, 0, 0, 1)),
    ];
    let ms = position_mismatches(&broker, &holdings);
    let got: Vec<(String, bool, u32, u32)> =
        ms.into_iter().map(|m| (m.symbol, m.long, m.strategy, m.broker)).collect();
    assert_eq!(
        got,
        vec![
            ("ag2511".to_string(), false, 5, 4),
            ("ag2512".to_string(), true, 2, 0),
            ("ag2512".to_string(), false, 0, 1),
        ]
    );
}

#[test]
fn spread_legs_stop_on_empty_fill_and_report_in_pair_order() {
    assert_eq!(second_leg_after(0, 5, -5), None);
    assert_eq!(second_leg_after(5, 5, -5), Some(-5));
    assert_eq!(second_leg_after(2, -4, 8), Some(4));
    assert_eq!(fills_in_pair_order(false, 3, -5), (3, 5));
    assert_eq!(fills_in_pair_order(true, 3, -5), (5, 3));
}

#[test]
fn order_messages_decide_a_whole_submission() {
    let run = |events: &[OrderEvent]| {
        for ev in events {
            match order_event_step(*ev) {
                OrderStep::Wait => {}
                OrderStep::Finish(r) => return r,
            }
        }
        Some(0)
    };
    assert_eq!(
        run(&[OrderEvent::Status { canceled: false }, OrderEvent::Other, OrderEvent::Trade { volume: 4 }]),
        Some(4)
    );
    assert_eq!(run(&[OrderEvent::Status { canceled: true }, OrderEvent::Trade { volume: 4 }]), None);
    assert_eq!(run(&[OrderEvent::Other, OrderEvent::InsertRejected]), None);
    assert_eq!(run(&[OrderEvent::Other]), Some(0));
}
