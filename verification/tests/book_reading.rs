use orderbook::market::{BuyOrder, Market, MarketError, SellOrder};
use orderbook::matching::Fillable;
use orderbook::ranking::Ranked;

fn buy(account: &str, bid: i32, amount: i32) -> BuyOrder {
    BuyOrder::new(account.to_string(), bid, amount)
}

fn sell(account: &str, ask: i32, amount: i32) -> SellOrder {
    SellOrder::new(account.to_string(), ask, amount)
}

#[test]
fn buy_side_falls_and_sell_side_rises() {
    let mut market = Market::new();
    for (i, bid) in [5, -3, 12, 7, 7, 0, 40, -3].iter().enumerate() {
        market.place_buy_order(buy(&format!("b{}", i), *bid, 1));
    }
    for (i, ask) in [9, 9, 2, 30, -8, 14, 2].iter().enumerate() {
        market.place_sell_order(sell(&format!("s{}", i), *ask, 1));
    }

    let (buys, sells) = market.get_order_book().expect("reading never fails");
    assert_eq!(buys.len(), 8);
    assert_eq!(sells.len(), 7);
    let bids: Vec<i32> = buys.iter().map(|order| order.bid).collect();
    let asks: Vec<i32> = sells.iter().map(|order| order.ask).collect();
    assert_eq!(bids, vec![40, 12, 7, 7, 5, 0, -3, -3]);
    assert_eq!(asks, vec![-8, 2, 2, 9, 9, 14, 30]);
    for pair in buys.windows(2) {
        assert!(pair[0].bid >= pair[1].bid);
    }
    for pair in sells.windows(2) {
        assert!(pair[0].ask <= pair[1].ask);
    }
}

#[test]
fn orders_of_one_price_keep_their_order_of_arrival() {
    let mut market = Market::new();
    market.place_buy_order(buy("first", 10, 1));
    market.place_buy_order(buy("second", 20, 1));
    market.place_buy_order(buy("third", 10, 1));
    market.place_buy_order(buy("fourth", 20, 1));
    market.place_buy_order(buy("fifth", 10, 1));
    market.place_sell_order(sell("first", 70, 1));
    market.place_sell_order(sell("second", 60, 1));
    market.place_sell_order(sell("third", 70, 1));
    market.place_sell_order(sell("fourth", 60, 1));

    let (buys, sells) = market.get_order_book().expect("reading never fails");
    let buyers: Vec<&str> = buys.iter().map(|order| order.account_id.as_str()).collect();
    let sellers: Vec<&str> = sells.iter().map(|order| order.account_id.as_str()).collect();
    assert_eq!(buyers, vec!["second", "fourth", "first", "third", "fifth"]);
    assert_eq!(sellers, vec!["second", "fourth", "first", "third"]);
}

#[test]
fn later_orders_of_a_price_come_behind_those_read_before() {
    let mut market = Market::new();
    market.place_buy_order(buy("a", 10, 1));
    market.place_buy_order(buy("b", 20, 1));
    {
        let (buys, _) = market.get_order_book().expect("reading never fails");
        assert_eq!(buys[0].account_id, "b");
    }
    market.place_buy_order(buy("c", 20, 1));
    market.place_buy_order(buy("d", 10, 1));
    market.place_buy_order(buy("e", 30, 1));

    let (buys, _) = market.get_order_book().expect("reading never fails");
    let buyers: Vec<&str> = buys.iter().map(|order| order.account_id.as_str()).collect();
    assert_eq!(buyers, vec!["e", "b", "c", "a", "d"]);
}

#[test]
fn reading_twice_returns_the_same_book() {
    let mut market = Market::new();
    market.place_buy_order(buy("a", 10, 3));
    market.place_buy_order(buy("b", 30, 1));
    market.place_buy_order(buy("c", 10, 2));
    market.place_sell_order(sell("x", 80, 5));
    market.place_sell_order(sell("y", 50, 5));
    market.place_sell_order(sell("z", 80, 6));

    let first: (Vec<BuyOrder>, Vec<SellOrder>) = {
        let (buys, sells) = market.get_order_book().expect("reading never fails");
        (buys.clone(), sells.clone())
    };
    let (buys, sells) = market.get_order_book().expect("reading never fails");
    assert_eq!(*buys, first.0);
    assert_eq!(*sells, first.1);
    assert_eq!(buys.len(), 3);
    assert_eq!(buys[1], buy("a", 10, 3));
    assert_eq!(sells[2], sell("z", 80, 6));
}

#[test]
fn reading_keeps_every_order() {
    let mut market = Market::new();
    market.place_buy_order(buy("a", 1, 1));
    market.place_buy_order(buy("a", 1, 1));
    market.place_buy_order(buy("b", 2, 0));
    market.place_sell_order(sell("c", 3, -1));

    let (buys, sells) = market.get_order_book().expect("reading never fails");
    assert_eq!(*buys, vec![buy("b", 2, 0), buy("a", 1, 1), buy("a", 1, 1)]);
    assert_eq!(*sells, vec![sell("c", 3, -1)]);
}

#[test]
fn new_orders_hold_what_they_were_given() {
    let order = BuyOrder::new("buyer".to_string(), 17, 4);
    assert_eq!(order.account_id, "buyer");
    assert_eq!(order.bid, 17);
    assert_eq!(order.amount, 4);

    let order = SellOrder::new("seller".to_string(), -2, 9);
    assert_eq!(order.account_id, "seller");
    assert_eq!(order.ask, -2);
    assert_eq!(order.amount, 9);
}

#[test]
fn orders_are_equal_when_all_their_fields_are() {
    assert_eq!(buy("a", 1, 2), buy("a", 1, 2));
    assert_ne!(buy("a", 1, 2), buy("b", 1, 2));
    assert_ne!(buy("a", 1, 2), buy("a", 3, 2));
    assert_ne!(buy("a", 1, 2), buy("a", 1, 3));
    assert_eq!(sell("a", 1, 2), sell("a", 1, 2));
    assert_ne!(sell("a", 1, 2), sell("b", 1, 2));
    assert_ne!(sell("a", 1, 2), sell("a", 3, 2));
    assert_ne!(sell("a", 1, 2), sell("a", 1, 3));
}

#[test]
fn a_cloned_order_equals_its_source() {
    let order = buy("buyer", 5, 6);
    assert_eq!(order.clone(), order);
    let order = sell("seller", 7, 8);
    assert_eq!(order.clone(), order);
}

#[test]
fn errors_are_equal_when_their_messages_are() {
    assert_eq!(MarketError::new("closed".to_string()), MarketError::new("closed".to_string()));
    assert_ne!(MarketError::new("closed".to_string()), MarketError::new("open".to_string()));
    assert_eq!(
        format!("{:?}", MarketError::new("closed".to_string())),
        "MarketError { error: \"closed\" }"
    );
}

#[test]
fn buy_orders_rank_by_falling_bid_and_sell_orders_by_rising_ask() {
    assert_eq!(buy("a", 100, 1).rank_key(), -100);
    assert_eq!(buy("a", -7, 1).rank_key(), 7);
    assert_eq!(buy("a", i32::MIN, 1).rank_key(), 2147483648);
    assert_eq!(buy("a", i32::MAX, 1).rank_key(), -2147483647);
    assert_eq!(sell("a", 100, 1).rank_key(), 100);
    assert_eq!(sell("a", i32::MIN, 1).rank_key(), -2147483648);
}

#[test]
fn an_order_is_open_while_its_amount_is_positive() {
    assert!(buy("a", 1, 1).is_open());
    assert!(!buy("a", 1, 0).is_open());
    assert!(!buy("a", 1, -1).is_open());
    assert!(sell("a", 1, 1).is_open());
    assert!(!sell("a", 1, 0).is_open());
    assert!(!sell("a", 1, -1).is_open());
}
