use big_bucks::fetch::{
    chart_coins, exchange_pairs, feed_step, tick_slot, AssetError, FeedAction, FeedEvent,
    MarketChartQuery, PriceSlot,
};

fn pair(a: &str, b: &str) -> (String, String) {
    (a.to_string(), b.to_string())
}

#[test]
fn hourly_history_query() {
    let query = MarketChartQuery::hourly_history("bitcoin".to_string());
    assert_eq!(query.coin, "bitcoin");
    assert_eq!(query.currency, "usd");
    assert_eq!(query.since, "max");
    assert_eq!(query.interval, "hourly");
    assert_eq!(query.precision, "full");
}

#[test]
fn query_endpoint_and_parameters() {
    let query = MarketChartQuery::hourly_history("ethereum".to_string());
    assert_eq!(query.endpoint(), "https://api.coingecko.com/api/v3/coins/ethereum/market_chart");
    assert_eq!(
        query.parameters(),
        vec![
            pair("vs_currency", "usd"),
            pair("days", "max"),
            pair("interval", "hourly"),
            pair("precision", "full"),
        ]
    );
}

#[test]
fn query_url() {
    let query = MarketChartQuery::hourly_history("bitcoin".to_string());
    assert_eq!(
        query.url().as_deref(),
        Some("https://api.coingecko.com/api/v3/coins/bitcoin/market_chart?vs_currency=usd&days=max&interval=hourly&precision=full")
    );
}

#[test]
fn query_url_encodes_parameters() {
    let query = MarketChartQuery {
        coin: "usd-coin".to_string(),
        currency: "eur".to_string(),
        since: "30".to_string(),
        interval: "daily".to_string(),
        precision: "2 digits&more".to_string(),
    };
    assert_eq!(
        query.url().as_deref(),
        Some("https://api.coingecko.com/api/v3/coins/usd-coin/market_chart?vs_currency=eur&days=30&interval=daily&precision=2+digits%26more")
    );
}

#[test]
fn exchange_pairs_of_known_assets() {
    assert_eq!(exchange_pairs(&pair("BTC", "ETH")), Ok(pair("BTC/USD", "ETH/USD")));
    assert_eq!(exchange_pairs(&pair("SOL", "BTC")), Ok(pair("SOL/USD", "BTC/USD")));
}

#[test]
fn exchange_pairs_refuse_unknown_assets() {
    assert_eq!(exchange_pairs(&pair("BTC", "DOGE")), Err(AssetError::UnsupportedAsset));
    assert_eq!(exchange_pairs(&pair("btc", "ETH")), Err(AssetError::UnsupportedAsset));
}

#[test]
fn chart_coins_of_known_assets() {
    assert_eq!(chart_coins(&pair("BTC", "ETH")), Ok(pair("bitcoin", "ethereum")));
    assert_eq!(chart_coins(&pair("SOL", "SOL")), Ok(pair("solana", "solana")));
    assert_eq!(chart_coins(&pair("XRP", "ETH")), Err(AssetError::UnsupportedAsset));
}

#[test]
fn ticks_go_to_their_slot() {
    let watched = pair("BTC/USD", "ETH/USD");
    assert_eq!(tick_slot(&"BTC/USD".to_string(), &watched), Some(PriceSlot::First));
    assert_eq!(tick_slot(&"ETH/USD".to_string(), &watched), Some(PriceSlot::Second));
    assert_eq!(tick_slot(&"SOL/USD".to_string(), &watched), None);
}

#[test]
fn feed_steps() {
    let watched = pair("BTC/USD", "ETH/USD");
    assert_eq!(
        feed_step(&FeedEvent::Ticker("ETH/USD".to_string()), &watched),
        (FeedAction::PublishPrices(Some(PriceSlot::Second)), true)
    );
    assert_eq!(
        feed_step(&FeedEvent::Ticker("SOL/USD".to_string()), &watched),
        (FeedAction::PublishPrices(None), true)
    );
    assert_eq!(feed_step(&FeedEvent::Heartbeat, &watched), (FeedAction::Ignore, true));
    assert_eq!(feed_step(&FeedEvent::OtherChannel, &watched), (FeedAction::Record, true));
    assert_eq!(feed_step(&FeedEvent::Method, &watched), (FeedAction::Record, true));
    assert_eq!(feed_step(&FeedEvent::Unreadable, &watched), (FeedAction::Record, true));
    assert_eq!(feed_step(&FeedEvent::Error, &watched), (FeedAction::PublishError, true));
    assert_eq!(feed_step(&FeedEvent::Closed, &watched), (FeedAction::PublishError, false));
    assert_eq!(feed_step(&FeedEvent::TimedOut, &watched), (FeedAction::PublishError, false));
}
