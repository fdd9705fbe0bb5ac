//! Position bookkeeping and order planning against a CTP-style futures broker,
//! where every contract keeps separate "today" and "yesterday" buckets per side.
use vstd::prelude::*;

use crate::book::PositionKind;

verus! {

/// Per-contract broker position, split by side and by the day it was opened.
#[derive(Clone, Copy, Debug, PartialEq, Eq)]
pub struct Position {
    pub long_today: u32,
    pub long_yd: u32,
    pub short_today: u32,
    pub short_yd: u32,
}

/// The offset flag an order carries: open a new position, or close one opened
/// today or on an earlier day.
#[derive(Clone, Copy, Debug, PartialEq, Eq)]
pub enum OffsetFlag {
    Open,
    CloseToday,
    CloseYesterday,
}

impl Position {
    /// An empty position.
    pub fn default() -> (p: Position)
        ensures
            p.long_today == 0,
            p.long_yd == 0,
            p.short_today == 0,
            p.short_yd == 0,
    {
        Position { long_today: 0, long_yd: 0, short_today: 0, short_yd: 0 }
    }
}

/// The magnitude of an order quantity, as the order-routing code reads it.
pub open spec fn qty_magnitude(qty: i32) -> int {
    if qty >= 0 { qty as int } else { -(qty as int) }
}

/// Which flag an order of signed quantity `qty` must carry.  A positive
/// quantity buys, so when closing it reduces the short side; a negative one
/// sells and reduces the long side.  Today's bucket is preferred; when neither
/// bucket alone holds the whole quantity there is nothing to close.
pub open spec fn spec_determine_flag(open: bool, qty: i32, pos: Position) -> Option<OffsetFlag> {
    let q = qty_magnitude(qty);
    if open {
        Some(OffsetFlag::Open)
    } else if qty > 0 && pos.short_today >= q {
        Some(OffsetFlag::CloseToday)
    } else if qty > 0 && pos.short_yd >= q {
        Some(OffsetFlag::CloseYesterday)
    } else if qty <= 0 && pos.long_today >= q {
        Some(OffsetFlag::CloseToday)
    } else if qty <= 0 && pos.long_yd >= q {
        Some(OffsetFlag::CloseYesterday)
    } else {
        None
    }
}

/// Chooses the offset flag for an order (see `spec_determine_flag`).
pub fn determine_flag(open: bool, qty: i32, pos: &Position) -> (r: Option<OffsetFlag>)
    requires
        qty != i32::MIN,
    ensures
        r == spec_determine_flag(open, qty, *pos),
{
    let long = qty > 0;
    let qty_abs: u32 = if qty >= 0 { qty as u32 } else { (-qty) as u32 };
    if open {
        Some(OffsetFlag::Open)
    } else if long && pos.short_today >= qty_abs {
        Some(OffsetFlag::CloseToday)
    } else if long && pos.short_yd >= qty_abs {
        Some(OffsetFlag::CloseYesterday)
    } else if !long && pos.long_today >= qty_abs {
        Some(OffsetFlag::CloseToday)
    } else if !long && pos.long_yd >= qty_abs {
        Some(OffsetFlag::CloseYesterday)
    } else {
        None
    }
}


/// A close order names a bucket that holds its whole quantity on the side it
/// reduces (the short side for a buy, the long side for a sell): it gets a flag
/// exactly when one of that side's two buckets holds at least the quantity,
/// today's bucket when it does, yesterday's otherwise.  An open order always
/// opens.
pub proof fn lemma_flag_closes_a_holding_bucket(open: bool, qty: i32, pos: Position)
    requires
        qty != i32::MIN,
    ensures
        ({
            let q: int = if qty >= 0 { qty as int } else { -(qty as int) };
            let today: int = if qty > 0 { pos.short_today as int } else { pos.long_today as int };
            let earlier: int = if qty > 0 { pos.short_yd as int } else { pos.long_yd as int };
            let r = spec_determine_flag(open, qty, pos);
            &&& open ==> r == Some(OffsetFlag::Open)
            &&& !open ==> (r is Some <==> (today >= q || earlier >= q))
            &&& !open && today >= q ==> r == Some(OffsetFlag::CloseToday)
            &&& !open && today < q && earlier >= q ==> r == Some(OffsetFlag::CloseYesterday)
        }),
{
}

/// Side of a broker position record.
#[derive(Clone, Copy, Debug, PartialEq, Eq)]
pub enum Direction {
    Long,
    Short,
    /// Any other direction code (such as a net position); it is not counted.
    Other,
}

/// One position record as the broker reports it for a contract.
#[derive(Clone, Copy, Debug, PartialEq, Eq)]
pub struct PositionRecord {
    pub direction: Direction,
    /// Total open quantity on this side.
    pub position: i32,
    /// The part of `position` opened today.
    pub today_position: i32,
}

/// The four bucket totals of a sequence of records, as mathematical integers:
/// (long today, long yesterday, short today, short yesterday).  Each record
/// adds its today quantity and its earlier quantity, read as `u32`, to the
/// buckets of its side.
pub open spec fn tally(recs: Seq<PositionRecord>) -> (int, int, int, int)
    decreases recs.len(),
{
    if recs.len() == 0 {
        (0, 0, 0, 0)
    } else {
        let (lt, ly, st, sy) = tally(recs.drop_last());
        let r = recs.last();
        let today = (r.today_position as u32) as int;
        let earlier = ((r.position - r.today_position) as i32 as u32) as int;
        match r.direction {
            Direction::Long => (lt + today, ly + earlier, st, sy),
            Direction::Short => (lt, ly, st + today, sy + earlier),
            Direction::Other => (lt, ly, st, sy),
        }
    }
}

proof fn lemma_tally_monotone(recs: Seq<PositionRecord>, i: int)
    requires
        0 <= i <= recs.len(),
    ensures
        tally(recs.take(i)).0 <= tally(recs).0,
        tally(recs.take(i)).1 <= tally(recs).1,
        tally(recs.take(i)).2 <= tally(recs).2,
        tally(recs.take(i)).3 <= tally(recs).3,
    decreases recs.len(),
{
    if i < recs.len() {
        assert(recs.drop_last().take(i) =~= recs.take(i));
        lemma_tally_monotone(recs.drop_last(), i);
    } else {
        assert(recs.take(i) =~= recs);
    }
}

/// The sum of one field over the records of one side: today's quantities
/// (`today_only`) or whole positions.
pub open spec fn side_sum(recs: Seq<PositionRecord>, side: Direction, today_only: bool) -> int
    decreases recs.len(),
{
    if recs.len() == 0 {
        0
    } else {
        let r = recs.last();
        side_sum(recs.drop_last(), side, today_only) + (if r.direction == side {
            if today_only { r.today_position as int } else { r.position as int }
        } else {
            0
        })
    }
}

/// For records whose today's quantity lies between zero and the position, each
/// side's today bucket is the sum of that side's today quantities, and its two
/// buckets together are the sum of that side's positions.
pub proof fn lemma_tally_sums(recs: Seq<PositionRecord>)
    requires
        forall|i: int|
            0 <= i < recs.len() ==> 0 <= (#[trigger] recs[i]).today_position <= recs[i].position,
    ensures
        tally(recs).0 == side_sum(recs, Direction::Long, true),
        tally(recs).0 + tally(recs).1 == side_sum(recs, Direction::Long, false),
        tally(recs).2 == side_sum(recs, Direction::Short, true),
        tally(recs).2 + tally(recs).3 == side_sum(recs, Direction::Short, false),
    decreases recs.len(),
{
    if recs.len() > 0 {
        let t = recs.drop_last();
        assert forall|i: int| 0 <= i < t.len() implies 0 <= (#[trigger] t[i]).today_position <= t[i].position by {
            assert(t[i] == recs[i]);
        }
        lemma_tally_sums(t);
        let r = recs.last();
        assert(r == recs[recs.len() - 1]);
        assert((r.today_position as u32) as int == r.today_position as int);
        assert(((r.position - r.today_position) as i32 as u32) as int == r.position - r.today_position);
    }
}

/// Builds a contract's position from the records the broker returned for it.
pub fn tally_positions(records: &Vec<PositionRecord>) -> (p: Position)
    requires
        forall|i: int|
            0 <= i < records.len() ==> i32::MIN <= #[trigger] records[i].position
                - records[i].today_position <= i32::MAX,
        tally(records@).0 <= u32::MAX,
        tally(records@).1 <= u32::MAX,
        tally(records@).2 <= u32::MAX,
        tally(records@).3 <= u32::MAX,
    ensures
        p.long_today == tally(records@).0,
        p.long_yd == tally(records@).1,
        p.short_today == tally(records@).2,
        p.short_yd == tally(records@).3,
{
    let mut long_today: u32 = 0;
    let mut long_yd: u32 = 0;
    let mut short_today: u32 = 0;
    let mut short_yd: u32 = 0;
    let mut i: usize = 0;
    while i < records.len()
        invariant
            i <= records.len(),
            forall|k: int|
                0 <= k < records.len() ==> i32::MIN <= #[trigger] records[k].position
                    - records[k].today_position <= i32::MAX,
            tally(records@).0 <= u32::MAX,
            tally(records@).1 <= u32::MAX,
            tally(records@).2 <= u32::MAX,
            tally(records@).3 <= u32::MAX,
            tally(records@.take(i as int)) == (
                long_today as int,
                long_yd as int,
                short_today as int,
                short_yd as int,
            ),
        decreases records.len() - i,
    {
        let r = records[i];
        proof {
            assert(records@.take(i + 1).drop_last() =~= records@.take(i as int));
            lemma_tally_monotone(records@, i + 1);
        }
        let today = r.today_position as u32;
        let earlier = (r.position - r.today_position) as u32;
        match r.direction {
            Direction::Long => {
                long_today = long_today + today;
                long_yd = long_yd + earlier;
            },
            Direction::Short => {
                short_today = short_today + today;
                short_yd = short_yd + earlier;
            },
            Direction::Other => {},
        }
        i = i + 1;
    }
    assert(records@.take(records.len() as int) =~= records@);
    Position { long_today, long_yd, short_today, short_yd }
}


/// One order of a plan: contract, signed quantity (positive buys) and flag.
#[derive(Clone, Debug, PartialEq, Eq)]
pub struct PlannedOrder {
    pub symbol: String,
    pub qty: i32,
    pub flag: OffsetFlag,
}

/// The signed quantity that sells `n` contracts (`n` read as `i32`).
pub open spec fn sell_qty(n: u32) -> int {
    -((n as i32) as int)
}

/// The orders that flatten one contract's position, in submission order:
/// sell yesterday's longs, sell today's longs, buy back yesterday's shorts,
/// buy back today's shorts.
pub open spec fn close_orders_for(symbol: Seq<char>, p: Position) -> Seq<(Seq<char>, int, OffsetFlag)> {
    seq![
        (symbol, sell_qty(p.long_yd), OffsetFlag::CloseYesterday),
        (symbol, sell_qty(p.long_today), OffsetFlag::CloseToday),
        (symbol, (p.short_yd as i32) as int, OffsetFlag::CloseYesterday),
        (symbol, (p.short_today as i32) as int, OffsetFlag::CloseToday),
    ]
}

/// The flattening orders of all positions, contract after contract.
pub open spec fn close_all_plan(positions: Seq<(String, Position)>) -> Seq<(Seq<char>, int, OffsetFlag)>
    decreases positions.len(),
{
    if positions.len() == 0 {
        Seq::empty()
    } else {
        close_all_plan(positions.drop_last()) + close_orders_for(
            positions.last().0@,
            positions.last().1,
        )
    }
}

/// The view of a planned order as (symbol, quantity, flag).
pub open spec fn order_view(o: PlannedOrder) -> (Seq<char>, int, OffsetFlag) {
    (o.symbol@, o.qty as int, o.flag)
}

/// Whether a bucket size can be negated as an `i32` without overflow.
pub open spec fn negatable(n: u32) -> bool {
    (n as i32) != i32::MIN
}

fn sell_of(n: u32) -> (q: i32)
    requires
        negatable(n),
    ensures
        q == sell_qty(n),
{
    let v = n as i32;
    -v
}

/// Plans the orders that close every position held at the broker.
pub fn close_all_orders(positions: &Vec<(String, Position)>) -> (plan: Vec<PlannedOrder>)
    requires
        forall|i: int|
            0 <= i < positions.len() ==> negatable(#[trigger] positions[i].1.long_yd)
                && negatable(positions[i].1.long_today),
    ensures
        plan@.map_values(|o: PlannedOrder| order_view(o)) =~= close_all_plan(positions@),
{
    let mut plan: Vec<PlannedOrder> = Vec::new();
    let mut i: usize = 0;
    while i < positions.len()
        invariant
            i <= positions.len(),
            forall|k: int|
                0 <= k < positions.len() ==> negatable(#[trigger] positions[k].1.long_yd)
                    && negatable(positions[k].1.long_today),
            plan@.map_values(|o: PlannedOrder| order_view(o)) =~= close_all_plan(
                positions@.take(i as int),
            ),
        decreases positions.len() - i,
    {
        let sym = &positions[i].0;
        let p = positions[i].1;
        let ghost before = plan@;
        plan.push(PlannedOrder { symbol: sym.clone(), qty: sell_of(p.long_yd), flag: OffsetFlag::CloseYesterday });
        plan.push(PlannedOrder { symbol: sym.clone(), qty: sell_of(p.long_today), flag: OffsetFlag::CloseToday });
        plan.push(PlannedOrder { symbol: sym.clone(), qty: p.short_yd as i32, flag: OffsetFlag::CloseYesterday });
        plan.push(PlannedOrder { symbol: sym.clone(), qty: p.short_today as i32, flag: OffsetFlag::CloseToday });
        proof {
            assert(positions@.take(i + 1).drop_last() =~= positions@.take(i as int));
            assert(plan@ =~= before + plan@.subrange(before.len() as int, plan@.len() as int));
        }
        i = i + 1;
    }
    assert(positions@.take(positions.len() as int) =~= positions@);
    plan
}


/// `n / d` rounded to the nearest integer, halves away from zero (`d > 0`).
pub open spec fn round_div(n: int, d: int) -> int {
    if n >= 0 {
        (2 * n + d) / (2 * d)
    } else {
        -((2 * (-n) + d) / (2 * d))
    }
}

/// `v` clamped into the range of `i32`.
pub open spec fn saturate_i32(v: int) -> int {
    if v > i32::MAX {
        i32::MAX as int
    } else if v < i32::MIN {
        i32::MIN as int
    } else {
        v
    }
}

/// The second leg of a spread, scaled to what the first leg actually filled:
/// `qty_b * filled_a / |qty_a|`, rounded half away from zero and clamped to `i32`
/// (a zero `qty_a` sends any non-zero product to the bound of its sign).
pub open spec fn spec_scaled_leg(qty_b: i32, filled_a: i32, qty_a: i32) -> int {
    let n = qty_b * filled_a;
    if qty_a == 0 {
        if n > 0 {
            i32::MAX as int
        } else if n < 0 {
            i32::MIN as int
        } else {
            0
        }
    } else {
        saturate_i32(round_div(n, qty_magnitude(qty_a)))
    }
}

proof fn lemma_round_bounds(a: u64, d: u64)
    requires
        d > 0,
        d <= 0x8000_0000,
        a <= 0x4000_0000_0000_0000,
    ensures
        2 * a + d <= u64::MAX,
        2 * d <= u64::MAX,
        (2 * a + d) / (2 * d) <= a + 1,
{
    assert((2 * a + d) / (2 * d) <= a + 1) by (nonlinear_arith)
        requires
            d > 0,
            a >= 0,
    {
        assert((a + 1) * (2 * d) >= 2 * a + d);
    }
}

/// Scales the second leg of a spread order to the quantity the first leg filled.
pub fn scale_second_leg(qty_b: i32, filled_a: i32, qty_a: i32) -> (q: i32)
    requires
        qty_a != i32::MIN,
    ensures
        q == spec_scaled_leg(qty_b, filled_a, qty_a),
{
    if qty_a == 0 {
        let positive = (qty_b > 0 && filled_a > 0) || (qty_b < 0 && filled_a < 0);
        let negative = (qty_b > 0 && filled_a < 0) || (qty_b < 0 && filled_a > 0);
        assert(positive == (qty_b * filled_a > 0)) by (nonlinear_arith)
            requires
                positive == ((qty_b > 0 && filled_a > 0) || (qty_b < 0 && filled_a < 0)),
        ;
        assert(negative == (qty_b * filled_a < 0)) by (nonlinear_arith)
            requires
                negative == ((qty_b > 0 && filled_a < 0) || (qty_b < 0 && filled_a > 0)),
        ;
        return if positive {
            i32::MAX
        } else if negative {
            i32::MIN
        } else {
            0
        };
    }
    let d: u64 = if qty_a > 0 { qty_a as u64 } else { (-(qty_a as i64)) as u64 };
    let mb: u64 = if qty_b >= 0 { qty_b as u64 } else { (-(qty_b as i64)) as u64 };
    let mf: u64 = if filled_a >= 0 { filled_a as u64 } else { (-(filled_a as i64)) as u64 };
    assert(mb * mf <= 0x4000_0000_0000_0000) by (nonlinear_arith)
        requires
            mb <= 0x8000_0000,
            mf <= 0x8000_0000,
    ;
    let a: u64 = mb * mf;
    proof {
        lemma_round_bounds(a, d);
    }
    let mag: u64 = (2 * a + d) / (2 * d);
    let negative = (qty_b < 0) != (filled_a < 0) && a != 0;
    proof {
        let n = qty_b * filled_a;
        assert(a == if n >= 0 { n } else { -n }) by (nonlinear_arith)
            requires
                mb == if qty_b >= 0 { qty_b as int } else { -(qty_b as int) },
                mf == if filled_a >= 0 { filled_a as int } else { -(filled_a as int) },
                a == mb * mf,
                n == qty_b * filled_a,
        ;
        assert(negative == (n < 0)) by (nonlinear_arith)
            requires
                mb == if qty_b >= 0 { qty_b as int } else { -(qty_b as int) },
                mf == if filled_a >= 0 { filled_a as int } else { -(filled_a as int) },
                a == mb * mf,
                n == qty_b * filled_a,
                negative == (((qty_b < 0) != (filled_a < 0)) && a != 0),
        ;
    }
    if negative {
        if mag > 0x8000_0000 {
            i32::MIN
        } else {
            (-(mag as i64)) as i32
        }
    } else {
        if mag > 0x7fff_ffff {
            i32::MAX
        } else {
            mag as i32
        }
    }
}


/// Direction of an order.
#[derive(Clone, Copy, Debug, PartialEq, Eq)]
pub enum Side {
    Buy,
    Sell,
}

/// How an order is priced.
#[derive(Clone, Copy, Debug, PartialEq, Eq)]
pub enum PriceKind {
    /// A limit order at the given price.
    Limit,
    /// Any price (used when flattening everything).
    AnyPrice,
}

/// The decisions in a default order: its side, its volume and its price kind.
#[derive(Clone, Copy, Debug, PartialEq, Eq)]
pub struct OrderTerms {
    pub side: Side,
    pub volume: i32,
    pub price_kind: PriceKind,
}

/// Terms of an order for signed quantity `qty`: positive buys, anything else
/// sells; the volume is the magnitude; in flatten-everything mode the order
/// takes any price, otherwise it is a limit order.
pub fn order_terms(qty: i32, close_all_mode: bool) -> (t: OrderTerms)
    requires
        qty != i32::MIN,
    ensures
        t.side == (if qty > 0 { Side::Buy } else { Side::Sell }),
        t.volume == qty_magnitude(qty),
        t.price_kind == (if close_all_mode { PriceKind::AnyPrice } else { PriceKind::Limit }),
{
    let volume = if qty >= 0 { qty } else { -qty };
    let price_kind = if close_all_mode { PriceKind::AnyPrice } else { PriceKind::Limit };
    let side = if qty > 0 { Side::Buy } else { Side::Sell };
    OrderTerms { side, volume, price_kind }
}

/// A message the broker sends while an order is being worked.
#[derive(Clone, Copy, Debug, PartialEq, Eq)]
pub enum OrderEvent {
    /// An order status report; `canceled` tells whether the order was canceled.
    Status { canceled: bool },
    /// The broker rejected the order insertion.
    InsertRejected,
    /// A fill of `volume` contracts.
    Trade { volume: i32 },
    /// Any other message.
    Other,
}

/// What to do after an order message: keep waiting, or finish with the
/// filled volume (`None` when the order failed).
#[derive(Clone, Copy, Debug, PartialEq, Eq)]
pub enum OrderStep {
    Wait,
    Finish(Option<i32>),
}

/// How an order submission starts.
#[derive(Clone, Copy, Debug, PartialEq, Eq)]
pub enum OrderStart {
    /// Nothing to trade: the submission is done with zero filled.
    NothingToDo,
    /// No price is known for the contract: the submission fails.
    NoPrice,
    /// Send the order and wait for the broker's messages.
    Send,
}

/// The first decision of an order submission.
pub fn order_start(qty: i32, price_known: bool) -> (s: OrderStart)
    ensures
        s == (if qty == 0 {
            OrderStart::NothingToDo
        } else if !price_known {
            OrderStart::NoPrice
        } else {
            OrderStart::Send
        }),
{
    if qty == 0 {
        OrderStart::NothingToDo
    } else if !price_known {
        OrderStart::NoPrice
    } else {
        OrderStart::Send
    }
}

/// The step an order takes on one broker message: a cancel or a rejection
/// fails the order, a fill finishes it with its volume, anything else keeps
/// waiting.
pub open spec fn event_step(ev: OrderEvent) -> OrderStep {
    match ev {
        OrderEvent::Status { canceled } => if canceled {
            OrderStep::Finish(None)
        } else {
            OrderStep::Wait
        },
        OrderEvent::InsertRejected => OrderStep::Finish(None),
        OrderEvent::Trade { volume } => OrderStep::Finish(Some(volume)),
        OrderEvent::Other => OrderStep::Wait,
    }
}

/// What the messages `events`, in the order they arrive, make of a sent
/// order: the first message that finishes it decides; when the messages run
/// out first the submission reports zero filled.
pub open spec fn events_outcome(events: Seq<OrderEvent>) -> Option<i32>
    decreases events.len(),
{
    if events.len() == 0 {
        Some(0)
    } else {
        match event_step(events[0]) {
            OrderStep::Finish(r) => r,
            OrderStep::Wait => events_outcome(events.drop_first()),
        }
    }
}

/// Reacts to one broker message while an order is outstanding (see
/// `event_step`).  When the messages run out the submission reports zero.
pub fn order_event_step(ev: OrderEvent) -> (s: OrderStep)
    ensures
        s == event_step(ev),
{
    match ev {
        OrderEvent::Status { canceled } => if canceled {
            OrderStep::Finish(None)
        } else {
            OrderStep::Wait
        },
        OrderEvent::InsertRejected => OrderStep::Finish(None),
        OrderEvent::Trade { volume } => OrderStep::Finish(Some(volume)),
        OrderEvent::Other => OrderStep::Wait,
    }
}

/// A message of the trading front during login.
#[derive(Clone, Copy, Debug, PartialEq, Eq)]
pub enum LoginEvent {
    FrontConnected,
    Authenticated,
    LoggedIn,
    Other,
}

/// What the login sequence does next.
#[derive(Clone, Copy, Debug, PartialEq, Eq)]
pub enum LoginAction {
    SendAuthenticate,
    SendLogin,
    Done,
    Wait,
}

/// The login handshake: once the front is connected authenticate, once
/// authenticated log in, and stop when logged in.
pub fn login_step(ev: LoginEvent) -> (a: LoginAction)
    ensures
        a == (match ev {
            LoginEvent::FrontConnected => LoginAction::SendAuthenticate,
            LoginEvent::Authenticated => LoginAction::SendLogin,
            LoginEvent::LoggedIn => LoginAction::Done,
            LoginEvent::Other => LoginAction::Wait,
        }),
{
    match ev {
        LoginEvent::FrontConnected => LoginAction::SendAuthenticate,
        LoginEvent::Authenticated => LoginAction::SendLogin,
        LoginEvent::LoggedIn => LoginAction::Done,
        LoginEvent::Other => LoginAction::Wait,
    }
}

/// A sent order returns the volume of its first fill when no cancel or
/// rejection comes before it, and fails when a cancel or rejection comes
/// before any fill; messages that only report a live order are passed over.
pub proof fn lemma_first_decisive_event(events: Seq<OrderEvent>, k: int)
    requires
        0 <= k < events.len(),
        forall|j: int| 0 <= j < k ==> (#[trigger] event_step(events[j])) == OrderStep::Wait,
        event_step(events[k]) != OrderStep::Wait,
    ensures
        events_outcome(events) == (match events[k] {
            OrderEvent::Trade { volume } => Some(volume),
            _ => None,
        }),
    decreases k,
{
    if k > 0 {
        let rest = events.drop_first();
        assert(event_step(events[0]) == OrderStep::Wait);
        assert forall|j: int| 0 <= j < k - 1 implies (#[trigger] event_step(rest[j])) == OrderStep::Wait by {
            assert(rest[j] == events[j + 1]);
        }
        assert(rest[k - 1] == events[k]);
        lemma_first_decisive_event(rest, k - 1);
    }
}

/// A sent order whose messages run out before any fill, cancel or rejection
/// reports zero filled.
pub proof fn lemma_no_decisive_event(events: Seq<OrderEvent>)
    requires
        forall|j: int| 0 <= j < events.len() ==> (#[trigger] event_step(events[j])) == OrderStep::Wait,
    ensures
        events_outcome(events) == Some(0i32),
    decreases events.len(),
{
    if events.len() > 0 {
        let rest = events.drop_first();
        assert(event_step(events[0]) == OrderStep::Wait);
        assert forall|j: int| 0 <= j < rest.len() implies (#[trigger] event_step(rest[j])) == OrderStep::Wait by {
            assert(rest[j] == events[j + 1]);
        }
        lemma_no_decisive_event(rest);
    }
}

/// The order in which the two legs of a spread are sent: the leg whose
/// contract trades less volume goes first.  Returns whether the legs are
/// swapped, and the quantities of the first and second leg sent.
pub fn order_legs(qty_a: i32, qty_b: i32, volume_a: u32, volume_b: u32) -> (r: (bool, i32, i32))
    ensures
        r == (if volume_a > volume_b { (true, qty_b, qty_a) } else { (false, qty_a, qty_b) }),
{
    if volume_a > volume_b {
        (true, qty_b, qty_a)
    } else {
        (false, qty_a, qty_b)
    }
}

/// The second leg of a spread once the first leg filled `first_fill`: nothing
/// when the first leg filled nothing (the spread stops there), otherwise the
/// second leg's quantity scaled to that fill.
pub fn second_leg_after(first_fill: i32, first_qty: i32, second_qty: i32) -> (r: Option<i32>)
    requires
        first_qty != i32::MIN,
    ensures
        first_fill == 0 <==> r is None,
        r matches Some(q) ==> q == spec_scaled_leg(second_qty, first_fill, first_qty),
{
    if first_fill == 0 {
        None
    } else {
        Some(scale_second_leg(second_qty, first_fill, first_qty))
    }
}

/// The filled quantities of a spread reported in pair order (leg A, then leg
/// B), whichever leg was sent first (`swapped` when leg B went first).
pub fn fills_in_pair_order(swapped: bool, first_fill: i32, second_fill: i32) -> (r: (u32, u32))
    requires
        first_fill != i32::MIN,
        second_fill != i32::MIN,
    ensures
        r.0 == (if swapped { qty_magnitude(second_fill) } else { qty_magnitude(first_fill) }),
        r.1 == (if swapped { qty_magnitude(first_fill) } else { qty_magnitude(second_fill) }),
{
    let m1: u32 = if first_fill >= 0 { first_fill as u32 } else { (-first_fill) as u32 };
    let m2: u32 = if second_fill >= 0 { second_fill as u32 } else { (-second_fill) as u32 };
    if swapped {
        (m2, m1)
    } else {
        (m1, m2)
    }
}

/// An open spread position as the strategy records it: contracts `a` and `b`,
/// the spread's direction and the quantity of leg `a`.
#[derive(Clone, Debug, PartialEq, Eq)]
pub struct SpreadHolding {
    pub a: String,
    pub b: String,
    pub kind: PositionKind,
    pub size_a: u32,
}

/// The contract a holding is long in: `a` for a long spread, `b` for a short one.
pub open spec fn long_symbol(h: SpreadHolding) -> Seq<char> {
    match h.kind {
        PositionKind::Long => h.a@,
        PositionKind::Short => h.b@,
    }
}

/// The contract a holding is short in.
pub open spec fn short_symbol(h: SpreadHolding) -> Seq<char> {
    match h.kind {
        PositionKind::Long => h.b@,
        PositionKind::Short => h.a@,
    }
}

/// Total quantity the strategy holds long (`long == true`) or short in `sym`.
pub open spec fn strategy_total(holdings: Seq<SpreadHolding>, sym: Seq<char>, long: bool) -> int
    decreases holdings.len(),
{
    if holdings.len() == 0 {
        0
    } else {
        let h = holdings.last();
        let s = if long { long_symbol(h) } else { short_symbol(h) };
        strategy_total(holdings.drop_last(), sym, long) + (if s == sym { h.size_a as int } else { 0 })
    }
}

/// A disagreement between the strategy's books and the broker's for one side of a contract.
#[derive(Clone, Debug, PartialEq, Eq)]
pub struct Mismatch {
    pub symbol: String,
    /// `true` for the long side, `false` for the short side.
    pub long: bool,
    pub strategy: u32,
    pub broker: u32,
}

/// The mismatches of one broker position (long side first).
pub open spec fn mismatches_for(holdings: Seq<SpreadHolding>, sym: Seq<char>, p: Position) -> Seq<(Seq<char>, bool, int, int)> {
    let sl = strategy_total(holdings, sym, true);
    let ss = strategy_total(holdings, sym, false);
    let bl = p.long_today + p.long_yd;
    let bs = p.short_today + p.short_yd;
    (if sl != bl { seq![(sym, true, sl, bl)] } else { Seq::empty() }) + (if ss != bs {
        seq![(sym, false, ss, bs)]
    } else {
        Seq::empty()
    })
}

/// All mismatches, broker position after broker position.
pub open spec fn all_mismatches(broker: Seq<(String, Position)>, holdings: Seq<SpreadHolding>) -> Seq<(Seq<char>, bool, int, int)>
    decreases broker.len(),
{
    if broker.len() == 0 {
        Seq::empty()
    } else {
        all_mismatches(broker.drop_last(), holdings) + mismatches_for(
            holdings,
            broker.last().0@,
            broker.last().1,
        )
    }
}

/// The view of a mismatch as (symbol, side, strategy quantity, broker quantity).
pub open spec fn mismatch_view(m: Mismatch) -> (Seq<char>, bool, int, int) {
    (m.symbol@, m.long, m.strategy as int, m.broker as int)
}

/// Every per-contract, per-side strategy total fits in `u32`.
pub open spec fn totals_fit(holdings: Seq<SpreadHolding>) -> bool {
    forall|sym: Seq<char>, long: bool| #[trigger] strategy_total(holdings, sym, long) <= u32::MAX
}

proof fn lemma_total_prefix(holdings: Seq<SpreadHolding>, i: int, sym: Seq<char>, long: bool)
    requires
        0 <= i <= holdings.len(),
    ensures
        0 <= strategy_total(holdings.take(i), sym, long) <= strategy_total(holdings, sym, long),
    decreases holdings.len(),
{
    if i < holdings.len() {
        assert(holdings.drop_last().take(i) =~= holdings.take(i));
        lemma_total_prefix(holdings.drop_last(), i, sym, long);
    } else {
        assert(holdings.take(i) =~= holdings);
    }
    lemma_total_nonneg(holdings.take(i), sym, long);
}

proof fn lemma_total_nonneg(holdings: Seq<SpreadHolding>, sym: Seq<char>, long: bool)
    ensures
        0 <= strategy_total(holdings, sym, long),
    decreases holdings.len(),
{
    if holdings.len() > 0 {
        lemma_total_nonneg(holdings.drop_last(), sym, long);
    }
}

/// Sums what the strategy holds on one side of `sym`.
fn strategy_side_total(holdings: &Vec<SpreadHolding>, sym: &String, long: bool) -> (t: u32)
    requires
        totals_fit(holdings@),
    ensures
        t == strategy_total(holdings@, sym@, long),
{
    let mut t: u32 = 0;
    let mut i: usize = 0;
    while i < holdings.len()
        invariant
            i <= holdings.len(),
            totals_fit(holdings@),
            t == strategy_total(holdings@.take(i as int), sym@, long),
        decreases holdings.len() - i,
    {
        let h = &holdings[i];
        proof {
            assert(holdings@.take(i + 1).drop_last() =~= holdings@.take(i as int));
            assert(holdings@.take(i + 1).last() == holdings@[i as int]);
            lemma_total_prefix(holdings@, i + 1, sym@, long);
            assert(strategy_total(holdings@, sym@, long) <= u32::MAX);
        }
        let s = match h.kind {
            PositionKind::Long => if long { &h.a } else { &h.b },
            PositionKind::Short => if long { &h.b } else { &h.a },
        };
        if *s == *sym {
            t = t + h.size_a;
        }
        i = i + 1;
    }
    assert(holdings@.take(holdings.len() as int) =~= holdings@);
    t
}

/// Compares the strategy's spread holdings with the broker's positions and
/// lists every contract side on which they disagree.
pub fn position_mismatches(broker: &Vec<(String, Position)>, holdings: &Vec<SpreadHolding>) -> (ms: Vec<Mismatch>)
    requires
        totals_fit(holdings@),
        forall|i: int|
            0 <= i < broker.len() ==> #[trigger] broker[i].1.long_today + broker[i].1.long_yd
                <= u32::MAX && broker[i].1.short_today + broker[i].1.short_yd <= u32::MAX,
    ensures
        ms@.map_values(|m: Mismatch| mismatch_view(m)) =~= all_mismatches(broker@, holdings@),
{
    let mut ms: Vec<Mismatch> = Vec::new();
    let mut i: usize = 0;
    while i < broker.len()
        invariant
            i <= broker.len(),
            totals_fit(holdings@),
            forall|k: int|
                0 <= k < broker.len() ==> #[trigger] broker[k].1.long_today + broker[k].1.long_yd
                    <= u32::MAX && broker[k].1.short_today + broker[k].1.short_yd <= u32::MAX,
            ms@.map_values(|m: Mismatch| mismatch_view(m)) =~= all_mismatches(
                broker@.take(i as int),
                holdings@,
            ),
        decreases broker.len() - i,
    {
        let sym = &broker[i].0;
        let p = broker[i].1;
        let ghost before = ms@;
        let long = strategy_side_total(holdings, sym, true);
        let short = strategy_side_total(holdings, sym, false);
        let broker_long = p.long_today + p.long_yd;
        let broker_short = p.short_today + p.short_yd;
        if long != broker_long {
            ms.push(Mismatch { symbol: sym.clone(), long: true, strategy: long, broker: broker_long });
        }
        if short != broker_short {
            ms.push(Mismatch { symbol: sym.clone(), long: false, strategy: short, broker: broker_short });
        }
        proof {
            assert(broker@.take(i + 1).drop_last() =~= broker@.take(i as int));
            assert(ms@ =~= before + ms@.subrange(before.len() as int, ms@.len() as int));
        }
        i = i + 1;
    }
    assert(broker@.take(broker.len() as int) =~= broker@);
    ms
}


/// The net quantity the plan for one position trades.
pub open spec fn plan_net(orders: Seq<(Seq<char>, int, OffsetFlag)>) -> int
    decreases orders.len(),
{
    if orders.len() == 0 {
        0
    } else {
        plan_net(orders.drop_last()) + orders.last().1
    }
}

/// The orders planned for one position trade back exactly what it holds: they
/// sell all its longs and buy back all its shorts (bucket sizes up to `i32::MAX`).
pub proof fn lemma_close_orders_flatten(symbol: Seq<char>, p: Position)
    requires
        p.long_today <= i32::MAX,
        p.long_yd <= i32::MAX,
        p.short_today <= i32::MAX,
        p.short_yd <= i32::MAX,
    ensures
        plan_net(close_orders_for(symbol, p)) == (p.short_today + p.short_yd) - (p.long_today
            + p.long_yd),
{
    let o = close_orders_for(symbol, p);
    assert(o.drop_last().drop_last().drop_last().drop_last() =~= Seq::<(Seq<char>, int, OffsetFlag)>::empty());
    reveal_with_fuel(plan_net, 5);
}

/// When the first leg fills completely, the second leg is sent unchanged.
pub proof fn lemma_full_fill_keeps_second_leg(qty_b: i32, qty_a: i32)
    requires
        qty_a != 0,
        qty_a != i32::MIN,
    ensures
        spec_scaled_leg(qty_b, qty_magnitude(qty_a) as i32, qty_a) == qty_b,
{
    let d = qty_magnitude(qty_a);
    let n = qty_b * d;
    assert(qty_magnitude(qty_a) as i32 == d);
    assert(n >= 0 <==> qty_b >= 0) by (nonlinear_arith)
        requires
            d > 0,
            n == qty_b * d,
    ;
    if qty_b >= 0 {
        assert((2 * n + d) / (2 * d) == qty_b) by (nonlinear_arith)
            requires
                d > 0,
                n == qty_b * d,
                qty_b >= 0,
        {
            assert(2 * n + d == qty_b * (2 * d) + d);
        }
    } else {
        assert((2 * (-n) + d) / (2 * d) == -qty_b) by (nonlinear_arith)
            requires
                d > 0,
                n == qty_b * d,
                qty_b < 0,
        {
            assert(2 * (-n) + d == (-qty_b) * (2 * d) + d);
        }
    }
}

} // verus!
