//! The rules of a match.
//!
//! A book is two sequences, buy orders and sell orders, each arranged with
//! its best order first. The functions here say, for such a book, whether its
//! first orders match, which trade the match makes and what it leaves of the
//! book; the lemmas say what follows for books without negative amounts and
//! for books in which something is left of every order.

use crate::market::{BuyOrder, Credit, Debit, SellOrder, Trade, Transaction};
use crate::ranking::{lemma_stable_sort_contains, stable_sort};
use crate::sorting::reversed;
use vstd::prelude::*;

verus! {

/// An order of which some amount may be left.
pub trait Fillable: Sized {
    /// The amount that is left of this order.
    spec fn remaining(&self) -> int;

    /// Whether anything is left of this order.
    fn is_open(&self) -> (open: bool)
        ensures
            open == (self.remaining() > 0),
    ;
}

/// The predicate "something is left of this order".
pub open spec fn is_open_order<T: Fillable>() -> spec_fn(T) -> bool {
    |order: T| order.remaining() > 0
}

/// The orders of `orders` of which something is left, in their order.
pub open spec fn open_orders<T: Fillable>(orders: Seq<T>) -> Seq<T> {
    orders.filter(is_open_order())
}

/// The message of the error that `resolve_orders` returns when a side of the book is empty.
pub open spec fn no_orders_message() -> Seq<char> {
    "no orders available"@
}

/// The ask does not exceed the bid.
pub open spec fn crosses(buy: BuyOrder, sell: SellOrder) -> bool {
    sell.ask <= buy.bid
}

/// The amount that a match of the two orders fills: the smaller of their amounts.
pub open spec fn fill(buy: BuyOrder, sell: SellOrder) -> int {
    if buy.amount <= sell.amount {
        buy.amount as int
    } else {
        sell.amount as int
    }
}

/// The trade that a match of the two orders makes. The buyer's debit is the
/// amount of the buy order and the buyer's credit its bid; the seller's debit
/// is the ask of the sell order and the seller's credit its amount.
pub open spec fn trade_between(buy: BuyOrder, sell: SellOrder) -> Trade {
    Trade {
        buyer: Transaction {
            debit: Debit { account_id: buy.account_id, amount: buy.amount },
            credit: Credit { account_id: buy.account_id, amount: buy.bid },
        },
        seller: Transaction {
            debit: Debit { account_id: sell.account_id, amount: sell.ask },
            credit: Credit { account_id: sell.account_id, amount: sell.amount },
        },
    }
}

/// Builds the trade that a match of the two orders makes.
pub fn make_trade(buy: &BuyOrder, sell: &SellOrder) -> (trade: Trade)
    ensures
        trade == trade_between(*buy, *sell),
{
    Trade {
        buyer: Transaction {
            debit: Debit { account_id: buy.account_id.clone(), amount: buy.amount },
            credit: Credit { account_id: buy.account_id.clone(), amount: buy.bid },
        },
        seller: Transaction {
            debit: Debit { account_id: sell.account_id.clone(), amount: sell.ask },
            credit: Credit { account_id: sell.account_id.clone(), amount: sell.amount },
        },
    }
}

/// Whether the first orders of an arranged book match.
pub open spec fn book_crosses(buys: Seq<BuyOrder>, sells: Seq<SellOrder>) -> bool {
    buys.len() > 0 && sells.len() > 0 && crosses(buys[0], sells[0])
}

/// The trades that resolving an arranged book makes: one where its first
/// orders match, none where they do not.
pub open spec fn trades_of(buys: Seq<BuyOrder>, sells: Seq<SellOrder>) -> Seq<Trade> {
    if book_crosses(buys, sells) {
        seq![trade_between(buys[0], sells[0])]
    } else {
        Seq::empty()
    }
}

/// The buy side of an arranged book after resolving: where the first orders
/// match, the first buy order is reduced by the filled amount, and every
/// order of which nothing is left is dropped.
pub open spec fn buys_after(buys: Seq<BuyOrder>, sells: Seq<SellOrder>) -> Seq<BuyOrder> {
    if book_crosses(buys, sells) {
        open_orders(
            buys.update(0, buys[0].with_amount(buys[0].amount - fill(buys[0], sells[0]))),
        )
    } else {
        buys
    }
}

/// The sell side of an arranged book after resolving, as `buys_after`.
pub open spec fn sells_after(buys: Seq<BuyOrder>, sells: Seq<SellOrder>) -> Seq<SellOrder> {
    if book_crosses(buys, sells) {
        open_orders(
            sells.update(0, sells[0].with_amount(sells[0].amount - fill(buys[0], sells[0]))),
        )
    } else {
        sells
    }
}

/// Whether the amounts that a match of the first orders would leave can be
/// held in an order. What is left of an order is never negative, so only the
/// upper limit matters; it can be exceeded only where one of the two amounts
/// is negative.
pub open spec fn fill_fits(buys: Seq<BuyOrder>, sells: Seq<SellOrder>) -> bool {
    book_crosses(buys, sells) ==> {
        &&& buys[0].amount - fill(buys[0], sells[0]) <= i32::MAX
        &&& sells[0].amount - fill(buys[0], sells[0]) <= i32::MAX
    }
}

/// No order of `orders` has a negative amount left.
pub open spec fn none_negative<T: Fillable>(orders: Seq<T>) -> bool {
    forall|i: int| 0 <= i < orders.len() ==> (#[trigger] orders[i]).remaining() >= 0
}

/// Every order of `orders` has something left.
pub open spec fn all_open<T: Fillable>(orders: Seq<T>) -> bool {
    forall|i: int| 0 <= i < orders.len() ==> (#[trigger] orders[i]).remaining() > 0
}

/// In a book without a negative amount, whatever a match leaves can be held
/// in an order.
pub proof fn lemma_none_negative_fill_fits(buys: Seq<BuyOrder>, sells: Seq<SellOrder>)
    requires
        none_negative(buys),
        none_negative(sells),
    ensures
        fill_fits(stable_sort(buys), stable_sort(sells)),
        none_negative(stable_sort(buys)),
        none_negative(stable_sort(sells)),
{
    assert forall|i: int| 0 <= i < stable_sort(buys).len() implies (#[trigger] stable_sort(
        buys,
    )[i]).remaining() >= 0 by {
        let order = stable_sort(buys)[i];
        lemma_stable_sort_contains(buys, order);
        let at = choose|at: int| 0 <= at < buys.len() && buys[at] == order;
        assert(buys[at].remaining() >= 0);
    }
    assert forall|i: int| 0 <= i < stable_sort(sells).len() implies (#[trigger] stable_sort(
        sells,
    )[i]).remaining() >= 0 by {
        let order = stable_sort(sells)[i];
        lemma_stable_sort_contains(sells, order);
        let at = choose|at: int| 0 <= at < sells.len() && sells[at] == order;
        assert(sells[at].remaining() >= 0);
    }
    if book_crosses(stable_sort(buys), stable_sort(sells)) {
        assert(stable_sort(buys)[0].remaining() >= 0);
        assert(stable_sort(sells)[0].remaining() >= 0);
    }
}

/// Dropping the orders of which nothing is left drops nothing where
/// something is left of every order.
pub proof fn lemma_open_orders_of_all_open<T: Fillable>(orders: Seq<T>)
    requires
        all_open(orders),
    ensures
        open_orders(orders) == orders,
    decreases orders.len(),
{
    reveal(Seq::filter);
    if orders.len() > 0 {
        let rest = orders.drop_last();
        assert forall|i: int| 0 <= i < rest.len() implies (#[trigger] rest[i]).remaining() > 0 by {
            assert(rest[i] == orders[i]);
        }
        lemma_open_orders_of_all_open(rest);
        assert(orders[orders.len() - 1].remaining() > 0);
        assert(rest.push(orders.last()) =~= orders);
    }
}

/// Where something is left of every order but perhaps the first, dropping
/// the orders of which nothing is left drops the first or nothing.
pub proof fn lemma_open_orders_but_first<T: Fillable>(orders: Seq<T>)
    requires
        orders.len() > 0,
        all_open(orders.skip(1)),
    ensures
        open_orders(orders) == if orders[0].remaining() > 0 {
            orders
        } else {
            orders.skip(1)
        },
{
    let first = orders.take(1);
    let rest = orders.skip(1);
    assert(orders =~= first + rest);
    Seq::filter_distributes_over_add(first, rest, is_open_order());
    lemma_open_orders_of_all_open(rest);
    assert(open_orders(first) == if orders[0].remaining() > 0 {
        first
    } else {
        Seq::<T>::empty()
    }) by {
        reveal_with_fuel(Seq::filter, 2);
        assert(first.drop_last() =~= Seq::<T>::empty());
        assert(first.last() == orders[0]);
        assert(Seq::<T>::empty().push(orders[0]) =~= first);
    }
    assert(Seq::<T>::empty() + rest =~= rest);
}

/// In a book where something is left of every order, a match touches the two
/// matched orders and no other: the one with the larger amount stays first on
/// its side with the difference, the other leaves the book, and both leave
/// where the amounts are equal. So every match makes such a book shorter.
pub proof fn lemma_match_in_open_book(buys: Seq<BuyOrder>, sells: Seq<SellOrder>)
    requires
        all_open(buys),
        all_open(sells),
        book_crosses(buys, sells),
    ensures
        fill_fits(buys, sells),
        buys_after(buys, sells) == if buys[0].amount > sells[0].amount {
            buys.update(0, buys[0].with_amount(buys[0].amount - sells[0].amount))
        } else {
            buys.skip(1)
        },
        sells_after(buys, sells) == if sells[0].amount > buys[0].amount {
            sells.update(0, sells[0].with_amount(sells[0].amount - buys[0].amount))
        } else {
            sells.skip(1)
        },
        buys_after(buys, sells).len() + sells_after(buys, sells).len() < buys.len() + sells.len(),
{
    let filled = fill(buys[0], sells[0]);
    let reduced_buys = buys.update(0, buys[0].with_amount(buys[0].amount - filled));
    let reduced_sells = sells.update(0, sells[0].with_amount(sells[0].amount - filled));
    assert(buys[0].remaining() > 0 && sells[0].remaining() > 0);
    assert(reduced_buys.skip(1) =~= buys.skip(1));
    assert(reduced_sells.skip(1) =~= sells.skip(1));
    lemma_open_orders_but_first(reduced_buys);
    lemma_open_orders_but_first(reduced_sells);
}

/// The orders of `orders` of which something is left, in their order.
pub fn retain_open<T: Fillable>(orders: Vec<T>) -> (kept: Vec<T>)
    ensures
        kept@ == open_orders(orders@),
{
    let ghost all = orders@;
    let mut rest = reversed(orders);
    let mut kept: Vec<T> = Vec::new();
    let ghost mut done: int = 0;
    proof {
        reveal(Seq::filter);
        assert(all.subrange(0, 0) =~= Seq::<T>::empty());
    }
    while rest.len() > 0
        invariant
            0 <= done <= all.len(),
            rest@.len() == all.len() - done,
            forall|t: int| 0 <= t < rest@.len() ==> rest@[t] == all[all.len() - 1 - t],
            kept@ == open_orders(all.subrange(0, done)),
        decreases rest.len(),
    {
        let order = rest.pop().unwrap();
        proof {
            reveal(Seq::filter);
            assert(order == all[done]);
            assert(all.subrange(0, done + 1).drop_last() =~= all.subrange(0, done));
            done = done + 1;
        }
        if order.is_open() {
            kept.push(order);
        }
    }
    proof {
        assert(all.subrange(0, done) =~= all);
    }
    kept
}

} // verus!
