use vstd::prelude::*;

use crate::errors::BookError;
use crate::matching::{
    fill_trades, lemma_fills_deltas_empty, lemma_fills_deltas_same_balances,
    lemma_fills_deltas_step, lemma_match_step, side_model, spec_fills_deltas, spec_match,
    spec_min_qty, trade_models,
};
use crate::order::{Order, OrderSide, OrderStatus, OrderType};
use crate::orderbook::OrderBook;
use crate::price::Price;
use crate::price_level::level_wf;
use crate::quantity::Quantity;
use crate::settlement::TakerFunding;
use crate::trade::Trade;

verus! {

impl OrderBook {
    /// Match a market order: same walk as a limit taker but with no
    /// crossability test and no reservation. Runs until the order fills or
    /// the opposite side runs dry, which fails with
    /// `InsufficientLiquidity`; fills already made stand, as does a halt
    /// on a failed settlement debit.
    pub(crate) fn match_market_order(&mut self, taker_order: &mut Order) -> (r: Result<
        Vec<Trade>,
        BookError,
    >)
        requires
            old(self).wf(),
            old(taker_order).order_type == OrderType::Market,
            old(taker_order).remaining_quantity.raw > 0,
            old(taker_order).remaining_quantity == old(taker_order).original_quantity,
            old(taker_order).status == OrderStatus::Open,
        ensures
            final(self).wf(),
            final(self).total_usd == old(self).total_usd,
            final(self).total_btc == old(self).total_btc,
            r matches Ok(trades) ==> forall|t: int|
                0 <= t < trades@.len() ==> (#[trigger] trades@[t]).taker_order_id == old(
                    taker_order,
                ).id && trades@[t].taker_user_id == old(taker_order).user_id
                    && trades@[t].quantity.raw > 0,
            r matches Err(e) ==> e == BookError::InsufficientLiquidity
                || e == BookError::InsufficientBalance,
            final(self).book_side(old(taker_order).side) == old(self).book_side(
                old(taker_order).side,
            ),
            ({
                let m = spec_match(
                    side_model(old(self).book_side(old(taker_order).side.spec_opposite())),
                    old(taker_order).remaining_quantity.raw as int,
                    old(taker_order).side,
                    None,
                );
                &&& (r matches Ok(trades) ==> trade_models(trades@) == fill_trades(m.0)
                    && side_model(final(self).book_side(old(taker_order).side.spec_opposite()))
                        == m.1 && m.2 == 0 && final(taker_order).remaining_quantity.raw == 0
                    && spec_fills_deltas(
                    *old(self),
                    *final(self),
                    old(taker_order).user_id,
                    old(taker_order).side,
                    None,
                    old(taker_order).remaining_quantity,
                    final(taker_order).remaining_quantity,
                    m.0,
                ))
                &&& (r == Err::<Vec<Trade>, BookError>(BookError::InsufficientLiquidity)
                    ==> side_model(final(self).book_side(old(taker_order).side.spec_opposite()))
                        == m.1 && m.1.len() == 0 && final(taker_order).remaining_quantity.raw
                        == m.2 && m.2 > 0 && spec_fills_deltas(
                    *old(self),
                    *final(self),
                    old(taker_order).user_id,
                    old(taker_order).side,
                    None,
                    old(taker_order).remaining_quantity,
                    final(taker_order).remaining_quantity,
                    m.0,
                ))
            }),
    {
        match taker_order.side {
            OrderSide::Buy => self.match_market_buy(taker_order),
            OrderSide::Sell => self.match_market_sell(taker_order),
        }
    }

    /// A market buy walks the asks, lowest price first. The result
    /// is exactly what `spec_match` with no limit dictates: fills in queue
    /// order until the taker is done or the side runs dry, and balances
    /// move by exactly those fills' settlement legs.
    #[verifier::rlimit(100)]
    fn match_market_buy(&mut self, taker_order: &mut Order) -> (r: Result<Vec<Trade>, BookError>)
        requires
            old(self).wf(),
            old(taker_order).side == OrderSide::Buy,
            old(taker_order).remaining_quantity.raw > 0,
            old(taker_order).remaining_quantity == old(taker_order).original_quantity,
            old(taker_order).status == OrderStatus::Open,
        ensures
            final(self).wf(),
            final(self).total_usd == old(self).total_usd,
            final(self).total_btc == old(self).total_btc,
            final(self).book_side(OrderSide::Buy) == old(self).book_side(
                OrderSide::Buy,
            ),
            forall|id: u128| #[trigger] final(self).resting(id) ==> old(self).resting(id),
            final(taker_order).id == old(taker_order).id,
            final(taker_order).user_id == old(taker_order).user_id,
            final(taker_order).side == old(taker_order).side,
            final(taker_order).order_type == old(taker_order).order_type,
            final(taker_order).price == old(taker_order).price,
            r matches Ok(trades) ==> forall|t: int|
                0 <= t < trades@.len() ==> (#[trigger] trades@[t]).taker_order_id == old(
                    taker_order,
                ).id && trades@[t].taker_user_id == old(taker_order).user_id
                    && trades@[t].quantity.raw > 0,
            r matches Err(e) ==> e == BookError::InsufficientLiquidity
                || e == BookError::InsufficientBalance,
            ({
                let m = spec_match(
                    side_model(old(self).book_side(OrderSide::Sell)),
                    old(taker_order).remaining_quantity.raw as int,
                    OrderSide::Buy,
                    None,
                );
                &&& (r matches Ok(trades) ==> trade_models(trades@) == fill_trades(m.0)
                    && side_model(final(self).book_side(OrderSide::Sell)) == m.1 && m.2 == 0
                    && final(taker_order).remaining_quantity.raw == 0 && spec_fills_deltas(
                    *old(self),
                    *final(self),
                    old(taker_order).user_id,
                    OrderSide::Buy,
                    None,
                    old(taker_order).remaining_quantity,
                    final(taker_order).remaining_quantity,
                    m.0,
                ))
                &&& (r == Err::<Vec<Trade>, BookError>(BookError::InsufficientLiquidity)
                    ==> side_model(final(self).book_side(OrderSide::Sell)) == m.1
                        && m.1.len() == 0 && final(taker_order).remaining_quantity.raw == m.2
                        && m.2 > 0 && spec_fills_deltas(
                    *old(self),
                    *final(self),
                    old(taker_order).user_id,
                    OrderSide::Buy,
                    None,
                    old(taker_order).remaining_quantity,
                    final(taker_order).remaining_quantity,
                    m.0,
                ))
                &&& (r == Err::<Vec<Trade>, BookError>(BookError::InsufficientBalance) ==> exists|
                    n: int,
                |
                    0 <= n <= m.0.len() && #[trigger] spec_fills_deltas(
                        *old(self),
                        *final(self),
                        old(taker_order).user_id,
                        OrderSide::Buy,
                        None,
                        old(taker_order).remaining_quantity,
                        final(taker_order).remaining_quantity,
                        m.0.take(n),
                    ))
            }),
            r == Err::<Vec<Trade>, BookError>(BookError::InsufficientBalance) ==> ({
                let opp = final(self).book_side(OrderSide::Sell);
                &&& final(taker_order).remaining_quantity.raw > 0
                &&& opp.len() > 0
                &&& opp[0].orders@.len() > 0
                &&& !crate::settlement::spec_settle_feasible(
                    *final(self),
                    old(taker_order).user_id,
                    opp[0].orders@[0].user_id,
                    opp[0].price,
                    spec_min_qty(
                        final(taker_order).remaining_quantity,
                        opp[0].orders@[0].remaining_quantity,
                    ),
                    OrderSide::Buy,
                    TakerFunding::Unreserved,
                    opp[0].orders@[0].remaining_quantity,
                )
            }),
    {
        let mut trades: Vec<Trade> = Vec::new();
        proof {
            let m0 = spec_match(
                side_model(old(self).book_side(OrderSide::Sell)),
                old(taker_order).remaining_quantity.raw as int,
                OrderSide::Buy,
                None,
            );
            assert(m0.0.take(0) =~= Seq::<(u128, u128, Price, Quantity, Quantity)>::empty());
            assert(m0.0.take(0) + m0.0 =~= m0.0);
            assert(trade_models(trades@) =~= fill_trades(m0.0.take(0)));
            lemma_fills_deltas_empty(
                *old(self),
                old(taker_order).user_id,
                OrderSide::Buy,
                None,
                old(taker_order).remaining_quantity,
            );
        }

        while !taker_order.is_fully_filled()
            invariant
                self.wf(),
                self.total_usd == old(self).total_usd,
                self.total_btc == old(self).total_btc,
                self.book_side(OrderSide::Buy) == old(self).book_side(OrderSide::Buy),
                forall|id: u128| #[trigger] self.resting(id) ==> old(self).resting(id),
                taker_order.id == old(taker_order).id,
                taker_order.user_id == old(taker_order).user_id,
                taker_order.side == old(taker_order).side,
                taker_order.order_type == old(taker_order).order_type,
                taker_order.price == old(taker_order).price,
                taker_order.remaining_quantity.raw <= old(taker_order).original_quantity.raw,
                taker_order.remaining_quantity.raw <= old(taker_order).remaining_quantity.raw,
                forall|t: int|
                    0 <= t < trades@.len() ==> (#[trigger] trades@[t]).taker_order_id == old(
                        taker_order,
                    ).id && trades@[t].taker_user_id == old(taker_order).user_id
                        && trades@[t].quantity.raw > 0,
                forall|u: u128|
                    #[trigger] crate::orderbook::has_user(self.user_balances@, u)
                        == crate::orderbook::has_user(old(self).user_balances@, u),
                ({
                    let m0 = spec_match(
                        side_model(old(self).book_side(OrderSide::Sell)),
                        old(taker_order).remaining_quantity.raw as int,
                        OrderSide::Buy,
                        None,
                    );
                    let mc = spec_match(
                        side_model(self.book_side(OrderSide::Sell)),
                        taker_order.remaining_quantity.raw as int,
                        OrderSide::Buy,
                        None,
                    );
                    &&& m0.0.len() >= trades@.len()
                    &&& m0.0 == m0.0.take(trades@.len() as int) + mc.0
                    &&& trade_models(trades@) == fill_trades(m0.0.take(trades@.len() as int))
                    &&& m0.1 == mc.1
                    &&& m0.2 == mc.2
                    &&& spec_fills_deltas(
                        *old(self),
                        *self,
                        old(taker_order).user_id,
                        OrderSide::Buy,
                        None,
                        old(taker_order).remaining_quantity,
                        taker_order.remaining_quantity,
                        m0.0.take(trades@.len() as int),
                    )
                }),
            ensures
                self.wf(),
                taker_order.remaining_quantity.raw == 0,
            decreases taker_order.remaining_quantity.raw,
        {
            let ghost loop_pre: OrderBook = *self;
            let ghost rem_pre: Quantity = taker_order.remaining_quantity;
            if self.asks.len() == 0 {
                proof {
                    let mc = spec_match(
                        side_model(self.book_side(OrderSide::Sell)),
                        taker_order.remaining_quantity.raw as int,
                        OrderSide::Buy,
                        None,
                    );
                    assert(side_model(self.book_side(OrderSide::Sell)).len() == 0);
                    assert(mc.0 =~= Seq::<(u128, u128, Price, Quantity, Quantity)>::empty());
                    let m0 = spec_match(
                        side_model(old(self).book_side(OrderSide::Sell)),
                        old(taker_order).remaining_quantity.raw as int,
                        OrderSide::Buy,
                        None,
                    );
                    assert(m0.0.take(trades@.len() as int) + mc.0 =~= m0.0.take(
                        trades@.len() as int,
                    ));
                    assert(m0.0 =~= m0.0.take(trades@.len() as int));
                }
                return Err(BookError::InsufficientLiquidity);
            }
            let best_price = self.asks[0].price;
            proof {
                assert(level_wf(self.asks@[0], OrderSide::Sell));
            }
            let maker_id = self.asks[0].orders[0].id;
            let maker_user_id = self.asks[0].orders[0].user_id;
            let maker_rem = self.asks[0].orders[0].remaining_quantity;
            let fill: Quantity = if taker_order.remaining_quantity.raw() <= maker_rem.raw() {
                taker_order.remaining_quantity
            } else {
                maker_rem
            };
            let trade = Trade::new(
                maker_id,
                taker_order.id,
                maker_user_id,
                taker_order.user_id,
                best_price,
                fill,
            );
            let ghost pre_settle: OrderBook = *self;
            let settled = self.execute_trade_settlement(
                &trade,
                OrderSide::Buy,
                &TakerFunding::Unreserved,
                maker_rem,
            );
            match settled {
                Ok(()) => {
                    proof {
                        crate::orderbook::lemma_wf_transfer(pre_settle, *self);
                    }
                },
                Err(_) => {
                    // A failed mid-fill debit halts the walk; earlier
                    // fills stand.
                    proof {
                        crate::orderbook::lemma_wf_transfer(pre_settle, *self);
                        assert(self.book_side(OrderSide::Sell) == loop_pre.book_side(
                            OrderSide::Sell,
                        ));
                        assert(!crate::settlement::spec_settle_feasible(
                            pre_settle,
                            trade.taker_user_id,
                            trade.maker_user_id,
                            trade.price,
                            trade.quantity,
                            OrderSide::Buy,
                            TakerFunding::Unreserved,
                            maker_rem,
                        ));
                        assert(self.user_balances@ == pre_settle.user_balances@);
                        let m0 = spec_match(
                            side_model(old(self).book_side(OrderSide::Sell)),
                            old(taker_order).remaining_quantity.raw as int,
                            OrderSide::Buy,
                            None,
                        );
                        let n = trades@.len() as int;
                        assert(0 <= n <= m0.0.len());
                        lemma_fills_deltas_same_balances(
                            *old(self),
                            pre_settle,
                            *self,
                            old(taker_order).user_id,
                            OrderSide::Buy,
                            None,
                            old(taker_order).remaining_quantity,
                            taker_order.remaining_quantity,
                            m0.0.take(n),
                        );
                    }
                    return Err(BookError::InsufficientBalance);
                },
            }
            let ghost post_settle: OrderBook = *self;
            taker_order.fill(fill);
            self.fill_best(OrderSide::Sell, fill);
            trades.push(trade);
            proof {
                lemma_match_step(
                    loop_pre,
                    *self,
                    rem_pre,
                    taker_order.remaining_quantity,
                    OrderSide::Sell,
                    OrderSide::Buy,
                    None,
                    trade,
                );
                let ghost maker_rem0 = loop_pre.book_side(
                    OrderSide::Sell,
                )[0].orders@[0].remaining_quantity;
                let ghost f5 = (
                    trade.maker_order_id,
                    trade.maker_user_id,
                    trade.price,
                    trade.quantity,
                    maker_rem0,
                );
                let m0 = spec_match(
                    side_model(old(self).book_side(OrderSide::Sell)),
                    old(taker_order).remaining_quantity.raw as int,
                    OrderSide::Buy,
                    None,
                );
                let ma = side_model(loop_pre.book_side(OrderSide::Sell));
                let m_here = spec_match(ma, rem_pre.raw as int, OrderSide::Buy, None);
                let mc = spec_match(
                    side_model(self.book_side(OrderSide::Sell)),
                    taker_order.remaining_quantity.raw as int,
                    OrderSide::Buy,
                    None,
                );
                let n = (trades@.len() - 1) as int;
                assert(m_here.0 == seq![f5] + mc.0);
                assert(m0.0 == m0.0.take(n) + m_here.0);
                assert(m_here.0.len() >= 1);
                assert(m0.0.take(n).len() == n);
                assert(m0.0.len() >= n + 1);
                assert(m0.0 == m0.0.take(n) + (seq![f5] + mc.0));
                assert(m0.0[n] == (m0.0.take(n) + (seq![f5] + mc.0))[n]);
                assert((m0.0.take(n) + (seq![f5] + mc.0))[n] == (seq![f5] + mc.0)[0]);
                assert((seq![f5] + mc.0)[0] == f5);
                assert(m0.0[n] == f5);
                assert(m0.0.take(n + 1) =~= m0.0.take(n).push(f5));
                assert(m0.0.take(n).push(f5) + mc.0 =~= (m0.0.take(n) + (seq![f5] + mc.0)));
                assert(fill_trades(m0.0.take(n + 1)) =~= fill_trades(m0.0.take(n)).push(
                    (f5.0, f5.1, f5.2, f5.3),
                ));
                assert(trade_models(trades@) =~= trade_models(trades@.drop_last()).push(
                    (trade.maker_order_id, trade.maker_user_id, trade.price, trade.quantity),
                ));
                lemma_fills_deltas_step(
                    *old(self),
                    pre_settle,
                    post_settle,
                    old(taker_order).user_id,
                    OrderSide::Buy,
                    None,
                    old(taker_order).remaining_quantity,
                    rem_pre,
                    taker_order.remaining_quantity,
                    m0.0.take(n),
                    f5,
                    TakerFunding::Unreserved,
                );
                lemma_fills_deltas_same_balances(
                    *old(self),
                    post_settle,
                    *self,
                    old(taker_order).user_id,
                    OrderSide::Buy,
                    None,
                    old(taker_order).remaining_quantity,
                    taker_order.remaining_quantity,
                    m0.0.take(n).push(f5),
                );
            }
        }
        proof {
            let m0 = spec_match(
                side_model(old(self).book_side(OrderSide::Sell)),
                old(taker_order).remaining_quantity.raw as int,
                OrderSide::Buy,
                None,
            );
            let mc = spec_match(
                side_model(self.book_side(OrderSide::Sell)),
                taker_order.remaining_quantity.raw as int,
                OrderSide::Buy,
                None,
            );
            assert(mc.0 =~= Seq::<(u128, u128, Price, Quantity, Quantity)>::empty());
            assert(m0.0.take(trades@.len() as int) + mc.0 =~= m0.0.take(trades@.len() as int));
            assert(m0.0 =~= m0.0.take(trades@.len() as int));
        }
        Ok(trades)
    }

    /// A market sell walks the bids, highest price first. The result
    /// is exactly what `spec_match` with no limit dictates: fills in queue
    /// order until the taker is done or the side runs dry, and balances
    /// move by exactly those fills' settlement legs.
    #[verifier::rlimit(100)]
    fn match_market_sell(&mut self, taker_order: &mut Order) -> (r: Result<Vec<Trade>, BookError>)
        requires
            old(self).wf(),
            old(taker_order).side == OrderSide::Sell,
            old(taker_order).remaining_quantity.raw > 0,
            old(taker_order).remaining_quantity == old(taker_order).original_quantity,
            old(taker_order).status == OrderStatus::Open,
        ensures
            final(self).wf(),
            final(self).total_usd == old(self).total_usd,
            final(self).total_btc == old(self).total_btc,
            final(self).book_side(OrderSide::Sell) == old(self).book_side(
                OrderSide::Sell,
            ),
            forall|id: u128| #[trigger] final(self).resting(id) ==> old(self).resting(id),
            final(taker_order).id == old(taker_order).id,
            final(taker_order).user_id == old(taker_order).user_id,
            final(taker_order).side == old(taker_order).side,
            final(taker_order).order_type == old(taker_order).order_type,
            final(taker_order).price == old(taker_order).price,
            r matches Ok(trades) ==> forall|t: int|
                0 <= t < trades@.len() ==> (#[trigger] trades@[t]).taker_order_id == old(
                    taker_order,
                ).id && trades@[t].taker_user_id == old(taker_order).user_id
                    && trades@[t].quantity.raw > 0,
            r matches Err(e) ==> e == BookError::InsufficientLiquidity
                || e == BookError::InsufficientBalance,
            ({
                let m = spec_match(
                    side_model(old(self).book_side(OrderSide::Buy)),
                    old(taker_order).remaining_quantity.raw as int,
                    OrderSide::Sell,
                    None,
                );
                &&& (r matches Ok(trades) ==> trade_models(trades@) == fill_trades(m.0)
                    && side_model(final(self).book_side(OrderSide::Buy)) == m.1 && m.2 == 0
                    && final(taker_order).remaining_quantity.raw == 0 && spec_fills_deltas(
                    *old(self),
                    *final(self),
                    old(taker_order).user_id,
                    OrderSide::Sell,
                    None,
                    old(taker_order).remaining_quantity,
                    final(taker_order).remaining_quantity,
                    m.0,
                ))
                &&& (r == Err::<Vec<Trade>, BookError>(BookError::InsufficientLiquidity)
                    ==> side_model(final(self).book_side(OrderSide::Buy)) == m.1
                        && m.1.len() == 0 && final(taker_order).remaining_quantity.raw == m.2
                        && m.2 > 0 && spec_fills_deltas(
                    *old(self),
                    *final(self),
                    old(taker_order).user_id,
                    OrderSide::Sell,
                    None,
                    old(taker_order).remaining_quantity,
                    final(taker_order).remaining_quantity,
                    m.0,
                ))
                &&& (r == Err::<Vec<Trade>, BookError>(BookError::InsufficientBalance) ==> exists|
                    n: int,
                |
                    0 <= n <= m.0.len() && #[trigger] spec_fills_deltas(
                        *old(self),
                        *final(self),
                        old(taker_order).user_id,
                        OrderSide::Sell,
                        None,
                        old(taker_order).remaining_quantity,
                        final(taker_order).remaining_quantity,
                        m.0.take(n),
                    ))
            }),
            r == Err::<Vec<Trade>, BookError>(BookError::InsufficientBalance) ==> ({
                let opp = final(self).book_side(OrderSide::Buy);
                &&& final(taker_order).remaining_quantity.raw > 0
                &&& opp.len() > 0
                &&& opp[0].orders@.len() > 0
                &&& !crate::settlement::spec_settle_feasible(
                    *final(self),
                    old(taker_order).user_id,
                    opp[0].orders@[0].user_id,
                    opp[0].price,
                    spec_min_qty(
                        final(taker_order).remaining_quantity,
                        opp[0].orders@[0].remaining_quantity,
                    ),
                    OrderSide::Sell,
                    TakerFunding::Unreserved,
                    opp[0].orders@[0].remaining_quantity,
                )
            }),
    {
        let mut trades: Vec<Trade> = Vec::new();
        proof {
            let m0 = spec_match(
                side_model(old(self).book_side(OrderSide::Buy)),
                old(taker_order).remaining_quantity.raw as int,
                OrderSide::Sell,
                None,
            );
            assert(m0.0.take(0) =~= Seq::<(u128, u128, Price, Quantity, Quantity)>::empty());
            assert(m0.0.take(0) + m0.0 =~= m0.0);
            assert(trade_models(trades@) =~= fill_trades(m0.0.take(0)));
            lemma_fills_deltas_empty(
                *old(self),
                old(taker_order).user_id,
                OrderSide::Sell,
                None,
                old(taker_order).remaining_quantity,
            );
        }

        while !taker_order.is_fully_filled()
            invariant
                self.wf(),
                self.total_usd == old(self).total_usd,
                self.total_btc == old(self).total_btc,
                self.book_side(OrderSide::Sell) == old(self).book_side(OrderSide::Sell),
                forall|id: u128| #[trigger] self.resting(id) ==> old(self).resting(id),
                taker_order.id == old(taker_order).id,
                taker_order.user_id == old(taker_order).user_id,
                taker_order.side == old(taker_order).side,
                taker_order.order_type == old(taker_order).order_type,
                taker_order.price == old(taker_order).price,
                taker_order.remaining_quantity.raw <= old(taker_order).original_quantity.raw,
                taker_order.remaining_quantity.raw <= old(taker_order).remaining_quantity.raw,
                forall|t: int|
                    0 <= t < trades@.len() ==> (#[trigger] trades@[t]).taker_order_id == old(
                        taker_order,
                    ).id && trades@[t].taker_user_id == old(taker_order).user_id
                        && trades@[t].quantity.raw > 0,
                forall|u: u128|
                    #[trigger] crate::orderbook::has_user(self.user_balances@, u)
                        == crate::orderbook::has_user(old(self).user_balances@, u),
                ({
                    let m0 = spec_match(
                        side_model(old(self).book_side(OrderSide::Buy)),
                        old(taker_order).remaining_quantity.raw as int,
                        OrderSide::Sell,
                        None,
                    );
                    let mc = spec_match(
                        side_model(self.book_side(OrderSide::Buy)),
                        taker_order.remaining_quantity.raw as int,
                        OrderSide::Sell,
                        None,
                    );
                    &&& m0.0.len() >= trades@.len()
                    &&& m0.0 == m0.0.take(trades@.len() as int) + mc.0
                    &&& trade_models(trades@) == fill_trades(m0.0.take(trades@.len() as int))
                    &&& m0.1 == mc.1
                    &&& m0.2 == mc.2
                    &&& spec_fills_deltas(
                        *old(self),
                        *self,
                        old(taker_order).user_id,
                        OrderSide::Sell,
                        None,
                        old(taker_order).remaining_quantity,
                        taker_order.remaining_quantity,
                        m0.0.take(trades@.len() as int),
                    )
                }),
            ensures
                self.wf(),
                taker_order.remaining_quantity.raw == 0,
            decreases taker_order.remaining_quantity.raw,
        {
            let ghost loop_pre: OrderBook = *self;
            let ghost rem_pre: Quantity = taker_order.remaining_quantity;
            if self.bids.len() == 0 {
                proof {
                    let mc = spec_match(
                        side_model(self.book_side(OrderSide::Buy)),
                        taker_order.remaining_quantity.raw as int,
                        OrderSide::Sell,
                        None,
                    );
                    assert(side_model(self.book_side(OrderSide::Buy)).len() == 0);
                    assert(mc.0 =~= Seq::<(u128, u128, Price, Quantity, Quantity)>::empty());
                    let m0 = spec_match(
                        side_model(old(self).book_side(OrderSide::Buy)),
                        old(taker_order).remaining_quantity.raw as int,
                        OrderSide::Sell,
                        None,
                    );
                    assert(m0.0.take(trades@.len() as int) + mc.0 =~= m0.0.take(
                        trades@.len() as int,
                    ));
                    assert(m0.0 =~= m0.0.take(trades@.len() as int));
                }
                return Err(BookError::InsufficientLiquidity);
            }
            let best_price = self.bids[0].price;
            proof {
                assert(level_wf(self.bids@[0], OrderSide::Buy));
            }
            let maker_id = self.bids[0].orders[0].id;
            let maker_user_id = self.bids[0].orders[0].user_id;
            let maker_rem = self.bids[0].orders[0].remaining_quantity;
            let fill: Quantity = if taker_order.remaining_quantity.raw() <= maker_rem.raw() {
                taker_order.remaining_quantity
            } else {
                maker_rem
            };
            let trade = Trade::new(
                maker_id,
                taker_order.id,
                maker_user_id,
                taker_order.user_id,
                best_price,
                fill,
            );
            let ghost pre_settle: OrderBook = *self;
            let settled = self.execute_trade_settlement(
                &trade,
                OrderSide::Sell,
                &TakerFunding::Unreserved,
                maker_rem,
            );
            match settled {
                Ok(()) => {
                    proof {
                        crate::orderbook::lemma_wf_transfer(pre_settle, *self);
                    }
                },
                Err(_) => {
                    // A failed mid-fill debit halts the walk; earlier
                    // fills stand.
                    proof {
                        crate::orderbook::lemma_wf_transfer(pre_settle, *self);
                        assert(self.book_side(OrderSide::Buy) == loop_pre.book_side(
                            OrderSide::Buy,
                        ));
                        assert(!crate::settlement::spec_settle_feasible(
                            pre_settle,
                            trade.taker_user_id,
                            trade.maker_user_id,
                            trade.price,
                            trade.quantity,
                            OrderSide::Sell,
                            TakerFunding::Unreserved,
                            maker_rem,
                        ));
                        assert(self.user_balances@ == pre_settle.user_balances@);
                        let m0 = spec_match(
                            side_model(old(self).book_side(OrderSide::Buy)),
                            old(taker_order).remaining_quantity.raw as int,
                            OrderSide::Sell,
                            None,
                        );
                        let n = trades@.len() as int;
                        assert(0 <= n <= m0.0.len());
                        lemma_fills_deltas_same_balances(
                            *old(self),
                            pre_settle,
                            *self,
                            old(taker_order).user_id,
                            OrderSide::Sell,
                            None,
                            old(taker_order).remaining_quantity,
                            taker_order.remaining_quantity,
                            m0.0.take(n),
                        );
                    }
                    return Err(BookError::InsufficientBalance);
                },
            }
            let ghost post_settle: OrderBook = *self;
            taker_order.fill(fill);
            self.fill_best(OrderSide::Buy, fill);
            trades.push(trade);
            proof {
                lemma_match_step(
                    loop_pre,
                    *self,
                    rem_pre,
                    taker_order.remaining_quantity,
                    OrderSide::Buy,
                    OrderSide::Sell,
                    None,
                    trade,
                );
                let ghost maker_rem0 = loop_pre.book_side(
                    OrderSide::Buy,
                )[0].orders@[0].remaining_quantity;
                let ghost f5 = (
                    trade.maker_order_id,
                    trade.maker_user_id,
                    trade.price,
                    trade.quantity,
                    maker_rem0,
                );
                let m0 = spec_match(
                    side_model(old(self).book_side(OrderSide::Buy)),
                    old(taker_order).remaining_quantity.raw as int,
                    OrderSide::Sell,
                    None,
                );
                let ma = side_model(loop_pre.book_side(OrderSide::Buy));
                let m_here = spec_match(ma, rem_pre.raw as int, OrderSide::Sell, None);
                let mc = spec_match(
                    side_model(self.book_side(OrderSide::Buy)),
                    taker_order.remaining_quantity.raw as int,
                    OrderSide::Sell,
                    None,
                );
                let n = (trades@.len() - 1) as int;
                assert(m_here.0 == seq![f5] + mc.0);
                assert(m0.0 == m0.0.take(n) + m_here.0);
                assert(m_here.0.len() >= 1);
                assert(m0.0.take(n).len() == n);
                assert(m0.0.len() >= n + 1);
                assert(m0.0 == m0.0.take(n) + (seq![f5] + mc.0));
                assert(m0.0[n] == (m0.0.take(n) + (seq![f5] + mc.0))[n]);
                assert((m0.0.take(n) + (seq![f5] + mc.0))[n] == (seq![f5] + mc.0)[0]);
                assert((seq![f5] + mc.0)[0] == f5);
                assert(m0.0[n] == f5);
                assert(m0.0.take(n + 1) =~= m0.0.take(n).push(f5));
                assert(m0.0.take(n).push(f5) + mc.0 =~= (m0.0.take(n) + (seq![f5] + mc.0)));
                assert(fill_trades(m0.0.take(n + 1)) =~= fill_trades(m0.0.take(n)).push(
                    (f5.0, f5.1, f5.2, f5.3),
                ));
                assert(trade_models(trades@) =~= trade_models(trades@.drop_last()).push(
                    (trade.maker_order_id, trade.maker_user_id, trade.price, trade.quantity),
                ));
                lemma_fills_deltas_step(
                    *old(self),
                    pre_settle,
                    post_settle,
                    old(taker_order).user_id,
                    OrderSide::Sell,
                    None,
                    old(taker_order).remaining_quantity,
                    rem_pre,
                    taker_order.remaining_quantity,
                    m0.0.take(n),
                    f5,
                    TakerFunding::Unreserved,
                );
                lemma_fills_deltas_same_balances(
                    *old(self),
                    post_settle,
                    *self,
                    old(taker_order).user_id,
                    OrderSide::Sell,
                    None,
                    old(taker_order).remaining_quantity,
                    taker_order.remaining_quantity,
                    m0.0.take(n).push(f5),
                );
            }
        }
        proof {
            let m0 = spec_match(
                side_model(old(self).book_side(OrderSide::Buy)),
                old(taker_order).remaining_quantity.raw as int,
                OrderSide::Sell,
                None,
            );
            let mc = spec_match(
                side_model(self.book_side(OrderSide::Buy)),
                taker_order.remaining_quantity.raw as int,
                OrderSide::Sell,
                None,
            );
            assert(mc.0 =~= Seq::<(u128, u128, Price, Quantity, Quantity)>::empty());
            assert(m0.0.take(trades@.len() as int) + mc.0 =~= m0.0.take(trades@.len() as int));
            assert(m0.0 =~= m0.0.take(trades@.len() as int));
        }
        Ok(trades)
    }
}

} // verus!