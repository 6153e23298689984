use big_bucks::orders::{Order, Side};
use big_bucks::signals::{Signal, StatArbSignal, ZScoreReading};
use big_bucks::strategy::StatArbPolicy;

fn reading(z: f64, entry: f64, exit: f64, cut_loss: f64) -> ZScoreReading {
    ZScoreReading {
        reaches_entry: z.abs() >= entry,
        under_cut_loss: z.abs() < cut_loss,
        within_exit: z.abs() <= exit,
        reaches_cut_loss: z.abs() >= cut_loss,
        negative: z < 0.0,
    }
}

fn signal(z: f64) -> Signal {
    Signal::StatArb(StatArbSignal {
        assets: ("BTC".to_string(), "ETH".to_string()),
        z_score: reading(z, 1.25, 0.25, 3.0),
    })
}

fn policy(held: &[&str]) -> StatArbPolicy {
    StatArbPolicy::new(held.iter().map(|a| a.to_string()).collect())
}

fn describe(orders: &Option<Vec<Order>>) -> Option<Vec<String>> {
    orders.as_ref().map(|orders| {
        orders
            .iter()
            .map(|o| match o {
                Order::Open((asset, Side::Long)) => format!("long {}", asset),
                Order::Open((asset, Side::Short)) => format!("short {}", asset),
                Order::Close(asset) => format!("close {}", asset),
            })
            .collect()
    })
}

fn texts(items: &[&str]) -> Option<Vec<String>> {
    Some(items.iter().map(|s| s.to_string()).collect())
}

#[test]
fn negative_score_buys_the_first_asset() {
    assert_eq!(describe(&policy(&[]).evaluate(signal(-2.0))), texts(&["long BTC", "short ETH"]));
}

#[test]
fn positive_score_sells_the_first_asset() {
    assert_eq!(describe(&policy(&[]).evaluate(signal(2.0))), texts(&["short BTC", "long ETH"]));
}

#[test]
fn entry_score_itself_opens() {
    assert_eq!(describe(&policy(&[]).evaluate(signal(1.25))), texts(&["short BTC", "long ETH"]));
}

#[test]
fn no_opening_while_either_asset_is_held() {
    assert!(policy(&["ETH"]).evaluate(signal(2.0)).is_none());
    assert!(policy(&["BTC", "SOL"]).evaluate(signal(-2.0)).is_none());
}

#[test]
fn reverting_score_closes_held_assets() {
    assert_eq!(describe(&policy(&["ETH", "BTC"]).evaluate(signal(0.1))), texts(&["close BTC", "close ETH"]));
    assert_eq!(describe(&policy(&["ETH"]).evaluate(signal(-0.25))), texts(&["close ETH"]));
    assert_eq!(describe(&policy(&["SOL"]).evaluate(signal(0.0))), texts(&[]));
}

#[test]
fn cut_loss_closes_held_assets() {
    assert_eq!(describe(&policy(&["BTC"]).evaluate(signal(3.0))), texts(&["close BTC"]));
    assert_eq!(describe(&policy(&["BTC", "ETH"]).evaluate(signal(-7.5))), texts(&["close BTC", "close ETH"]));
}

#[test]
fn score_between_exit_and_entry_holds() {
    assert!(policy(&["BTC"]).evaluate(signal(0.8)).is_none());
    assert!(policy(&[]).evaluate(signal(-1.0)).is_none());
}

#[test]
fn undefined_score_does_nothing() {
    assert!(policy(&["BTC", "ETH"]).evaluate(signal(f64::NAN)).is_none());
}

#[test]
fn uncertain_market_closes_everything() {
    assert_eq!(
        describe(&policy(&["SOL", "BTC", "ETH"]).evaluate(Signal::MarketUncertain)),
        texts(&["close SOL", "close BTC", "close ETH"])
    );
}

#[test]
fn uncertain_market_without_holdings_does_nothing() {
    assert!(policy(&[]).evaluate(Signal::MarketUncertain).is_none());
}

#[test]
fn decisions_never_mix_and_open_only_hedged_pairs() {
    let holdings: Vec<Vec<&str>> = vec![vec![], vec!["BTC"], vec!["ETH"], vec!["BTC", "ETH"], vec!["SOL"]];
    let scores = [-9.0, -3.0, -2.9, -1.25, -1.0, -0.25, 0.0, 0.2, 0.3, 1.24, 1.25, 2.0, 3.0, 4.0];
    for held in holdings.iter() {
        for z in scores.iter() {
            let decision = describe(&policy(held).evaluate(signal(*z)));
            if let Some(orders) = decision {
                let opens = orders.iter().filter(|o| !o.starts_with("close")).count();
                let closes = orders.iter().filter(|o| o.starts_with("close")).count();
                assert!(opens == 0 || closes == 0);
                if opens > 0 {
                    assert_eq!(opens, 2);
                    assert!(!held.contains(&"BTC") && !held.contains(&"ETH"));
                }
                for order in orders.iter().filter(|o| o.starts_with("close")) {
                    assert!(held.iter().any(|a| order.ends_with(a)));
                }
            }
        }
    }
}

#[test]
fn each_held_asset_is_closed_once() {
    let decision = describe(&policy(&["ETH", "SOL", "BTC"]).evaluate(Signal::MarketUncertain)).unwrap();
    let mut sorted = decision.clone();
    sorted.sort();
    sorted.dedup();
    assert_eq!(sorted.len(), decision.len());
}
