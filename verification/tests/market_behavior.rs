use orderbook::market;

#[test]
fn update_partially_fulfilled_orders_when_sell_amount_more_than_buy_amount() {
    let mut testing_market = market::Market::new();
    testing_market.place_buy_order(market::BuyOrder {
        account_id: "buyer".to_string(),
        bid: 100,
        amount: 2,
    });
    testing_market.place_sell_order(market::SellOrder {
        account_id: "seller".to_string(),
        ask: 100,
        amount: 1,
    });

    let trades: Vec<market::Trade> = testing_market.resolve_orders().expect("Where are the trades");

    assert_eq!(trades.len(), 1);

    let (buy_orders, sell_orders) =
        testing_market.get_order_book().expect("WTF? Where is my order book?");

    assert_eq!(buy_orders.len(), 1);
    assert_eq!(sell_orders.len(), 0);

    assert_eq!(buy_orders[0].amount, 1);
}

#[test]
fn update_partially_fulfilled_orders_when_sell_amount_less_than_buy_amount() {
    let mut testing_market = market::Market::new();
    testing_market.place_buy_order(market::BuyOrder {
        account_id: "buyer".to_string(),
        bid: 100,
        amount: 1,
    });
    testing_market.place_sell_order(market::SellOrder {
        account_id: "seller".to_string(),
        ask: 100,
        amount: 3,
    });

    let trades: Vec<market::Trade> = testing_market.resolve_orders().expect("Where are the trades");

    assert_eq!(trades.len(), 1);

    let (buy_orders, sell_orders) =
        testing_market.get_order_book().expect("WTF? Where is my order book?");

    assert_eq!(buy_orders.len(), 0);
    assert_eq!(sell_orders.len(), 1);

    assert_eq!(sell_orders[0].amount, 2);
}

#[test]
fn resolve_orders_should_return_trades_and_update_the_order_book() {
    let mut testing_market = market::Market::new();
    testing_market.place_buy_order(market::BuyOrder {
        account_id: "buyerC".to_string(),
        bid: 98,
        amount: 1,
    });
    testing_market.place_buy_order(market::BuyOrder {
        account_id: "buyerB".to_string(),
        bid: 95,
        amount: 1,
    });
    testing_market.place_buy_order(market::BuyOrder {
        account_id: "buyerA".to_string(),
        bid: 99,
        amount: 1,
    });
    testing_market.place_buy_order(market::BuyOrder {
        account_id: "buyer".to_string(),
        bid: 100,
        amount: 1,
    });
    testing_market.place_sell_order(market::SellOrder {
        account_id: "sellerB".to_string(),
        ask: 110,
        amount: 1,
    });
    testing_market.place_sell_order(market::SellOrder {
        account_id: "sellerA".to_string(),
        ask: 101,
        amount: 1,
    });
    testing_market.place_sell_order(market::SellOrder {
        account_id: "seller".to_string(),
        ask: 100,
        amount: 1,
    });
    testing_market.place_sell_order(market::SellOrder {
        account_id: "sellerC".to_string(),
        ask: 109,
        amount: 1,
    });

    let trades: Vec<market::Trade> = testing_market.resolve_orders().expect("Where are the trades");

    assert_eq!(trades.len(), 1);

    assert_eq!(trades[0].buyer.debit.account_id, "buyer".to_string());
    assert_eq!(trades[0].buyer.debit.amount, 1);

    assert_eq!(trades[0].buyer.credit.account_id, "buyer".to_string());
    assert_eq!(trades[0].buyer.credit.amount, 100);

    assert_eq!(trades[0].seller.debit.account_id, "seller".to_string());
    assert_eq!(trades[0].seller.debit.amount, 100);

    assert_eq!(trades[0].seller.credit.account_id, "seller".to_string());
    assert_eq!(trades[0].seller.credit.amount, 1);

    let (buy_orders, sell_orders) =
        testing_market.get_order_book().expect("WTF? Where is my order book?");

    assert_eq!(buy_orders.len(), 3);
    assert_eq!(sell_orders.len(), 3);

    assert_eq!(buy_orders[0].bid, 99);
    assert_eq!(sell_orders[0].ask, 101);
}

#[test]
fn orders_are_sorted_with_the_closest_matches_at_the_top() {
    let mut testing_market = market::Market::new();
    testing_market.place_buy_order(market::BuyOrder {
        account_id: "1".to_string(),
        bid: 98,
        amount: 1,
    });
    testing_market.place_buy_order(market::BuyOrder {
        account_id: "1".to_string(),
        bid: 95,
        amount: 1,
    });
    testing_market.place_buy_order(market::BuyOrder {
        account_id: "1".to_string(),
        bid: 97,
        amount: 1,
    });
    testing_market.place_buy_order(market::BuyOrder {
        account_id: "1".to_string(),
        bid: 99,
        amount: 1,
    });
    testing_market.place_sell_order(market::SellOrder {
        account_id: "2".to_string(),
        ask: 104,
        amount: 1,
    });
    testing_market.place_sell_order(market::SellOrder {
        account_id: "2".to_string(),
        ask: 101,
        amount: 1,
    });
    testing_market.place_sell_order(market::SellOrder {
        account_id: "2".to_string(),
        ask: 100,
        amount: 1,
    });
    testing_market.place_sell_order(market::SellOrder {
        account_id: "2".to_string(),
        ask: 109,
        amount: 1,
    });

    let (buy_orders, sell_orders) =
        testing_market.get_order_book().expect("WTF? Where is my order book?");

    let buy_pairs_itr = buy_orders.windows(2);
    assert!(buy_pairs_itr.len() > 2);
    for pair in buy_pairs_itr {
        assert!(pair[0].bid > pair[1].bid)
    }

    let sell_pairs_itr = sell_orders.windows(2);
    assert!(sell_pairs_itr.len() > 2);
    for pair in sell_pairs_itr {
        assert!(pair[0].ask < pair[1].ask)
    }
}

#[test]
fn added_orders_should_show_in_the_order_book() {
    let mut testing_market = market::Market::new();

    testing_market.place_buy_order(market::BuyOrder {
        account_id: "1".to_string(),
        bid: 100,
        amount: 1,
    });

    testing_market.place_sell_order(market::SellOrder {
        account_id: "2".to_string(),
        ask: 1000,
        amount: 1,
    });

    let (buy_orders, sell_orders) =
        testing_market.get_order_book().expect("WTF? Where is my order book?");

    println!("{:?}", buy_orders);
    println!("{:?}", sell_orders);

    assert_eq!(buy_orders.len(), 1);
    assert_eq!(sell_orders.len(), 1);
}

#[test]
fn a_new_market_should_return_an_empty_order_book() {
    let mut testing_market = market::Market::new();

    let (buy_orders, sell_orders) =
        testing_market.get_order_book().expect("WTF? Where is my order book?");

    assert_eq!(buy_orders.len(), 0);
    assert_eq!(sell_orders.len(), 0);
}

#[test]
fn resolve_orders_should_error_when_no_orders() {
    let mut testing_market = market::Market::new();

    let result = testing_market.resolve_orders();

    assert!(result.is_err());
}

#[test]
fn resolve_orders_returns_error_on_empty_market() {
    let mut market = market::Market::new();

    let result = market.resolve_orders();

    assert!(result.is_err());
}
