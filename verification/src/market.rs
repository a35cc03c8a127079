//! Orders, trades and the order book.
//!
//! The book keeps buy and sell orders in the order in which they were placed.
//! Reading it arranges the buy orders from the highest bid down and the sell
//! orders from the lowest ask up, orders of one price in the order of their
//! arrival. Resolving looks at the first order of each side only: where the
//! ask does not exceed the bid, one trade is made, both orders are reduced by
//! the smaller of their amounts, and orders with nothing left are dropped.

use crate::matching::{
    all_open, book_crosses, buys_after, fill_fits, is_open_order, lemma_none_negative_fill_fits,
    make_trade, no_orders_message, none_negative, retain_open, sells_after, trades_of, Fillable,
};
use crate::ranking::{
    insert_by_rank, is_stable_sort_of, lemma_filter_keeps_ranked, lemma_stable_sort,
    lemma_stable_sort_idempotent, lemma_stable_sort_of_ranked, lemma_update_keeps_ranked,
    stable_sort, Ranked,
};
use crate::sorting::sort_by_rank;
use vstd::prelude::*;

verus! {

/// Why an operation on the market failed.
#[derive(Debug)]
pub struct MarketError {
    error: String,
}

impl View for MarketError {
    type V = Seq<char>;

    /// The message of the error.
    closed spec fn view(&self) -> Seq<char> {
        self.error@
    }
}

impl PartialEq for MarketError {
    fn eq(&self, other: &Self) -> (equal: bool) {
        self.error == other.error
    }
}

/// Two errors are equal when their messages are.
impl vstd::std_specs::cmp::PartialEqSpecImpl for MarketError {
    open spec fn obeys_eq_spec() -> bool {
        true
    }

    closed spec fn eq_spec(&self, other: &Self) -> bool {
        self.error@ == other.error@
    }
}

impl MarketError {
    /// An error with the given message.
    pub fn new(error: String) -> (e: Self)
        ensures
            e@ == error@,
    {
        Self { error }
    }
}

/// An offer to sell `amount` units for at least `ask` each.
#[derive(Debug, Hash)]
pub struct SellOrder {
    pub account_id: String,
    pub ask: i32,
    pub amount: i32,
}

/// An offer to buy `amount` units for at most `bid` each.
#[derive(Debug, Hash)]
pub struct BuyOrder {
    pub account_id: String,
    pub bid: i32,
    pub amount: i32,
}

impl SellOrder {
    /// A sell order of the given account, ask and amount.
    pub fn new(account_id: String, ask: i32, amount: i32) -> (order: Self)
        ensures
            order == (SellOrder { account_id, ask, amount }),
    {
        Self { account_id, ask, amount }
    }

    /// This order with `amount` in place of its own amount.
    pub open spec fn with_amount(self, amount: int) -> SellOrder
        recommends
            i32::MIN <= amount <= i32::MAX,
    {
        SellOrder { account_id: self.account_id, ask: self.ask, amount: amount as i32 }
    }
}

impl BuyOrder {
    /// A buy order of the given account, bid and amount.
    pub fn new(account_id: String, bid: i32, amount: i32) -> (order: Self)
        ensures
            order == (BuyOrder { account_id, bid, amount }),
    {
        Self { account_id, bid, amount }
    }

    /// This order with `amount` in place of its own amount.
    pub open spec fn with_amount(self, amount: int) -> BuyOrder
        recommends
            i32::MIN <= amount <= i32::MAX,
    {
        BuyOrder { account_id: self.account_id, bid: self.bid, amount: amount as i32 }
    }
}

impl Clone for SellOrder {
    fn clone(&self) -> (copy: Self)
        ensures
            copy == *self,
    {
        SellOrder { account_id: self.account_id.clone(), ask: self.ask, amount: self.amount }
    }
}

impl Clone for BuyOrder {
    fn clone(&self) -> (copy: Self)
        ensures
            copy == *self,
    {
        BuyOrder { account_id: self.account_id.clone(), bid: self.bid, amount: self.amount }
    }
}

impl PartialEq for SellOrder {
    fn eq(&self, other: &Self) -> (equal: bool) {
        self.account_id == other.account_id && self.ask == other.ask && self.amount
            == other.amount
    }
}

/// Two sell orders are equal when account, ask and amount are.
impl vstd::std_specs::cmp::PartialEqSpecImpl for SellOrder {
    open spec fn obeys_eq_spec() -> bool {
        true
    }

    open spec fn eq_spec(&self, other: &Self) -> bool {
        self.account_id@ == other.account_id@ && self.ask == other.ask && self.amount
            == other.amount
    }
}

impl PartialEq for BuyOrder {
    fn eq(&self, other: &Self) -> (equal: bool) {
        self.account_id == other.account_id && self.bid == other.bid && self.amount
            == other.amount
    }
}

/// Two buy orders are equal when account, bid and amount are.
impl vstd::std_specs::cmp::PartialEqSpecImpl for BuyOrder {
    open spec fn obeys_eq_spec() -> bool {
        true
    }

    open spec fn eq_spec(&self, other: &Self) -> bool {
        self.account_id@ == other.account_id@ && self.bid == other.bid && self.amount
            == other.amount
    }
}

/// Sell orders stand by rising ask.
impl Ranked for SellOrder {
    open spec fn rank(&self) -> int {
        self.ask as int
    }

    fn rank_key(&self) -> (key: i64) {
        self.ask as i64
    }
}

/// Buy orders stand by falling bid.
impl Ranked for BuyOrder {
    open spec fn rank(&self) -> int {
        -(self.bid as int)
    }

    fn rank_key(&self) -> (key: i64) {
        -(self.bid as i64)
    }
}

impl Fillable for SellOrder {
    open spec fn remaining(&self) -> int {
        self.amount as int
    }

    fn is_open(&self) -> (open: bool) {
        self.amount > 0
    }
}

impl Fillable for BuyOrder {
    open spec fn remaining(&self) -> int {
        self.amount as int
    }

    fn is_open(&self) -> (open: bool) {
        self.amount > 0
    }
}

/// An amount leaving an account.
pub struct Debit {
    pub account_id: String,
    pub amount: i32,
}

/// An amount entering an account.
pub struct Credit {
    pub account_id: String,
    pub amount: i32,
}

/// What one party of a trade gives and gets.
pub struct Transaction {
    pub debit: Debit,
    pub credit: Credit,
}

/// One match of a buy order with a sell order.
pub struct Trade {
    pub buyer: Transaction,
    pub seller: Transaction,
}

/// The order book of one asset.
pub struct Market {
    buy_orders: Vec<BuyOrder>,
    sell_orders: Vec<SellOrder>,
}

impl Market {
    /// The buy orders as they are kept: as placed, or as the last reading or
    /// resolving left them.
    pub closed spec fn buys(&self) -> Seq<BuyOrder> {
        self.buy_orders@
    }

    /// The sell orders as they are kept.
    pub closed spec fn sells(&self) -> Seq<SellOrder> {
        self.sell_orders@
    }

    /// The arranged book: the buy orders from the highest bid down and the
    /// sell orders from the lowest ask up, orders of one price in the order
    /// in which they are kept.
    pub open spec fn order_book(&self) -> (Seq<BuyOrder>, Seq<SellOrder>) {
        (stable_sort(self.buys()), stable_sort(self.sells()))
    }

    /// The orders are kept as the arranged book has them.
    pub open spec fn is_arranged(&self) -> bool {
        self.order_book() == (self.buys(), self.sells())
    }

    /// No order in the book has a negative amount.
    pub open spec fn has_no_negative_amount(&self) -> bool {
        none_negative(self.buys()) && none_negative(self.sells())
    }

    /// Whether the book can be resolved: whatever a match of its first
    /// orders would leave of them can be held in an order. That is so in
    /// every book without a negative amount, which is why that case is named
    /// first; `lemma_can_resolve` shows that naming it admits no other book.
    pub open spec fn can_resolve(&self) -> bool {
        ||| self.has_no_negative_amount()
        ||| fill_fits(self.order_book().0, self.order_book().1)
    }

    /// A book can be resolved exactly when the amounts that a match would
    /// leave fit.
    pub proof fn lemma_can_resolve(&self)
        ensures
            self.can_resolve() <==> fill_fits(self.order_book().0, self.order_book().1),
    {
        if self.has_no_negative_amount() {
            lemma_none_negative_fill_fits(self.buys(), self.sells());
        }
    }

    /// A reading leaves the book so that the next reading, with nothing done
    /// in between, returns the same two sequences: `before` is the book
    /// ahead of the first reading and `between` the book that it leaves.
    pub proof fn lemma_second_reading_agrees(before: Market, between: Market)
        requires
            between.buys() == before.order_book().0,
            between.sells() == before.order_book().1,
        ensures
            between.order_book() == before.order_book(),
    {
        lemma_stable_sort_idempotent(before.buys());
        lemma_stable_sort_idempotent(before.sells());
    }

    /// A market without orders.
    pub fn new() -> (market: Market)
        ensures
            market.buys() == Seq::<BuyOrder>::empty(),
            market.sells() == Seq::<SellOrder>::empty(),
            market.order_book() == (Seq::<BuyOrder>::empty(), Seq::<SellOrder>::empty()),
    {
        Market { buy_orders: Vec::new(), sell_orders: Vec::new() }
    }

    /// Adds a sell order behind those that are kept. Any ask and any amount is taken.
    pub fn place_sell_order(&mut self, sell_order: SellOrder)
        ensures
            final(self).sells() == old(self).sells().push(sell_order),
            final(self).buys() == old(self).buys(),
            final(self).order_book() == (
                old(self).order_book().0,
                insert_by_rank(old(self).order_book().1, sell_order),
            ),
    {
        self.sell_orders.push(sell_order);
        proof {
            assert(self.sells().drop_last() =~= old(self).sells());
        }
    }

    /// Adds a buy order behind those that are kept. Any bid and any amount is taken.
    pub fn place_buy_order(&mut self, buy_order: BuyOrder)
        ensures
            final(self).buys() == old(self).buys().push(buy_order),
            final(self).sells() == old(self).sells(),
            final(self).order_book() == (
                insert_by_rank(old(self).order_book().0, buy_order),
                old(self).order_book().1,
            ),
    {
        self.buy_orders.push(buy_order);
        proof {
            assert(self.buys().drop_last() =~= old(self).buys());
        }
    }

    /// Arranges the orders that are kept.
    fn sort_orders(&mut self)
        ensures
            final(self).buys() == old(self).order_book().0,
            final(self).sells() == old(self).order_book().1,
            final(self).is_arranged(),
    {
        sort_by_rank(&mut self.buy_orders);
        sort_by_rank(&mut self.sell_orders);
        proof {
            lemma_stable_sort_idempotent(old(self).buys());
            lemma_stable_sort_idempotent(old(self).sells());
        }
    }

    /// Arranges the book and returns both sides of it. Never fails.
    ///
    /// The buy side comes with bids that never rise and the sell side with
    /// asks that never fall; orders of one price come in the order in which
    /// they were kept. The book holds the orders that it held, and a second
    /// reading returns what the first returned.
    pub fn get_order_book(&mut self) -> (book: Result<
        (&Vec<BuyOrder>, &Vec<SellOrder>),
        MarketError,
    >)
        ensures
            book is Ok,
            book->Ok_0.0@ == old(self).order_book().0,
            book->Ok_0.1@ == old(self).order_book().1,
            is_stable_sort_of(book->Ok_0.0@, old(self).buys()),
            is_stable_sort_of(book->Ok_0.1@, old(self).sells()),
            final(self).buys() == old(self).order_book().0,
            final(self).sells() == old(self).order_book().1,
            final(self).order_book() == old(self).order_book(),
            final(self).buys().to_multiset() == old(self).buys().to_multiset(),
            final(self).sells().to_multiset() == old(self).sells().to_multiset(),
            old(self).has_no_negative_amount() ==> final(self).has_no_negative_amount(),
            forall|i: int|
                0 <= i < book->Ok_0.0@.len() - 1 ==> (#[trigger] book->Ok_0.0@[i]).bid
                    >= book->Ok_0.0@[i + 1].bid,
            forall|i: int|
                0 <= i < book->Ok_0.1@.len() - 1 ==> (#[trigger] book->Ok_0.1@[i]).ask
                    <= book->Ok_0.1@[i + 1].ask,
    {
        self.sort_orders();
        proof {
            lemma_stable_sort(old(self).buys());
            lemma_stable_sort(old(self).sells());
            if old(self).has_no_negative_amount() {
                lemma_none_negative_fill_fits(old(self).buys(), old(self).sells());
            }
            let buys = self.buys();
            let sells = self.sells();
            assert forall|i: int| 0 <= i < buys.len() - 1 implies (#[trigger] buys[i]).bid >= buys[i
                + 1].bid by {
                assert(buys[i].rank() <= buys[i + 1].rank());
            }
            assert forall|i: int| 0 <= i < sells.len() - 1 implies (#[trigger] sells[i]).ask
                <= sells[i + 1].ask by {
                assert(sells[i].rank() <= sells[i + 1].rank());
            }
        }
        Ok((&self.buy_orders, &self.sell_orders))
    }

    /// Arranges the book and matches its first buy order with its first sell
    /// order.
    ///
    /// Fails, with the book arranged, exactly when a side of the book is
    /// empty. Otherwise returns the trades made. Where the lowest ask exceeds
    /// the highest bid there is none, and the arranged book is left as it is.
    /// Else there is one: both orders are reduced by the smaller of their
    /// amounts, and every order whose amount is not positive leaves the book.
    ///
    /// The amounts that the match leaves must fit an order, which they do in
    /// every book without a negative amount.
    pub fn resolve_orders(&mut self) -> (outcome: Result<Vec<Trade>, MarketError>)
        requires
            old(self).can_resolve(),
        ensures
            outcome is Err <==> old(self).buys().len() == 0 || old(self).sells().len() == 0,
            outcome is Err ==> outcome->Err_0@ == no_orders_message(),
            outcome is Ok ==> outcome->Ok_0@ == trades_of(
                old(self).order_book().0,
                old(self).order_book().1,
            ),
            final(self).buys() == buys_after(old(self).order_book().0, old(self).order_book().1),
            final(self).sells() == sells_after(old(self).order_book().0, old(self).order_book().1),
            final(self).is_arranged(),
            old(self).has_no_negative_amount() ==> final(self).has_no_negative_amount(),
            book_crosses(old(self).order_book().0, old(self).order_book().1) ==> all_open(
                final(self).buys(),
            ) && all_open(final(self).sells()),
            !book_crosses(old(self).order_book().0, old(self).order_book().1) ==> {
                &&& final(self).order_book() == old(self).order_book()
                &&& final(self).buys().to_multiset() == old(self).buys().to_multiset()
                &&& final(self).sells().to_multiset() == old(self).sells().to_multiset()
            },
    {
        proof {
            old(self).lemma_can_resolve();
            lemma_stable_sort(old(self).buys());
            lemma_stable_sort(old(self).sells());
            if old(self).has_no_negative_amount() {
                lemma_none_negative_fill_fits(old(self).buys(), old(self).sells());
            }
        }
        self.sort_orders();
        let ghost buys = self.buys();
        let ghost sells = self.sells();
        if self.buy_orders.len() == 0 || self.sell_orders.len() == 0 {
            return Err(MarketError::new("no orders available".to_string()));
        }
        let mut trades: Vec<Trade> = Vec::new();
        if self.sell_orders[0].ask <= self.buy_orders[0].bid {
            trades.push(make_trade(&self.buy_orders[0], &self.sell_orders[0]));
            let bought: i32 = self.buy_orders[0].amount;
            let sold: i32 = self.sell_orders[0].amount;
            let filled: i32 = if bought <= sold {
                bought
            } else {
                sold
            };
            self.buy_orders[0].amount = bought - filled;
            self.sell_orders[0].amount = sold - filled;
            let ghost reduced_buys = buys.update(0, buys[0].with_amount(bought - filled));
            let ghost reduced_sells = sells.update(0, sells[0].with_amount(sold - filled));
            assert(self.buy_orders@ =~= reduced_buys);
            assert(self.sell_orders@ =~= reduced_sells);

            let mut all_buys: Vec<BuyOrder> = Vec::new();
            core::mem::swap(&mut self.buy_orders, &mut all_buys);
            let mut open_buys = retain_open(all_buys);
            core::mem::swap(&mut self.buy_orders, &mut open_buys);

            let mut all_sells: Vec<SellOrder> = Vec::new();
            core::mem::swap(&mut self.sell_orders, &mut all_sells);
            let mut open_sells = retain_open(all_sells);
            core::mem::swap(&mut self.sell_orders, &mut open_sells);

            proof {
                lemma_update_keeps_ranked(buys, 0, buys[0].with_amount(bought - filled));
                lemma_update_keeps_ranked(sells, 0, sells[0].with_amount(sold - filled));
                lemma_filter_keeps_ranked(reduced_buys, is_open_order());
                lemma_filter_keeps_ranked(reduced_sells, is_open_order());
                lemma_stable_sort_of_ranked(self.buys());
                lemma_stable_sort_of_ranked(self.sells());
                let open_buys = self.buys();
                let open_sells = self.sells();
                assert forall|i: int| 0 <= i < open_buys.len() implies (
                #[trigger] open_buys[i]).remaining() > 0 by {
                    reduced_buys.lemma_filter_pred(is_open_order(), i);
                }
                assert forall|i: int| 0 <= i < open_sells.len() implies (
                #[trigger] open_sells[i]).remaining() > 0 by {
                    reduced_sells.lemma_filter_pred(is_open_order(), i);
                }
                assert(trades@ =~= trades_of(buys, sells));
            }
        } else {
            proof {
                assert(trades@ =~= trades_of(buys, sells));
            }
        }
        Ok(trades)
    }
}

} // verus!
