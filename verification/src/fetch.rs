use vstd::prelude::*;
use vstd::string::*;

verus! {

/// What to ask the market-chart service for: the price history of `coin`
/// quoted in `currency`, going back `since` days, at `interval` resolution.
#[derive(Debug)]
pub struct MarketChartQuery {
    pub coin: String,
    pub currency: String,
    pub since: String,
    pub interval: String,
    pub precision: String,
}

/// The address of the market-chart resource of `coin`.
pub open spec fn chart_endpoint(coin: Seq<char>) -> Seq<char> {
    "https://api.coingecko.com/api/v3/coins/"@ + coin + "/market_chart"@
}

/// The query parameters of a market-chart request, in the order they are sent.
pub open spec fn chart_parameters(
    currency: Seq<char>,
    since: Seq<char>,
    interval: Seq<char>,
    precision: Seq<char>,
) -> Seq<(Seq<char>, Seq<char>)> {
    seq![
        ("vs_currency"@, currency),
        ("days"@, since),
        ("interval"@, interval),
        ("precision"@, precision),
    ]
}

/// The serialized URL that `reqwest::Url::parse_with_params` makes of `base`
/// with the query pairs `params` appended; `None` where `base` does not parse.
pub uninterp spec fn url_with_params(base: Seq<char>, params: Seq<(Seq<char>, Seq<char>)>) -> Option<
    Seq<char>,
>;

/// Calls `reqwest::Url::parse_with_params` and serializes the URL it builds.
/// Trusted: the serialized URL, or its absence when parsing fails, is
/// `url_with_params` of the base and the pairs; what that text is, the url
/// crate decides (the WHATWG URL rules with form-urlencoded pairs).
#[verifier::external_body]
fn parse_with_params(base: &str, params: &Vec<(String, String)>) -> (url: Option<String>)
    ensures
        match url {
            Some(u) => url_with_params(base@, params.deep_view()) == Some(u@),
            None => url_with_params(base@, params.deep_view()) is None,
        },
{
    reqwest::Url::parse_with_params(base, params).ok().map(String::from)
}

impl MarketChartQuery {
    /// The query for the whole hourly US-dollar history of `coin`, at full precision.
    pub fn hourly_history(coin: String) -> (query: MarketChartQuery)
        ensures
            query.coin@ == coin@,
            query.currency@ == "usd"@,
            query.since@ == "max"@,
            query.interval@ == "hourly"@,
            query.precision@ == "full"@,
    {
        MarketChartQuery {
            coin,
            currency: String::from_str("usd"),
            since: String::from_str("max"),
            interval: String::from_str("hourly"),
            precision: String::from_str("full"),
        }
    }

    /// The address of the market-chart resource this query asks for.
    pub fn endpoint(&self) -> (endpoint: String)
        ensures
            endpoint@ == chart_endpoint(self.coin@),
    {
        let mut endpoint = String::from_str("https://api.coingecko.com/api/v3/coins/");
        endpoint.append(self.coin.as_str());
        endpoint.append("/market_chart");
        endpoint
    }

    /// The query parameters this query sends.
    pub fn parameters(&self) -> (params: Vec<(String, String)>)
        ensures
            params.deep_view() == chart_parameters(
                self.currency@,
                self.since@,
                self.interval@,
                self.precision@,
            ),
    {
        let mut params: Vec<(String, String)> = Vec::new();
        params.push((String::from_str("vs_currency"), self.currency.clone()));
        params.push((String::from_str("days"), self.since.clone()));
        params.push((String::from_str("interval"), self.interval.clone()));
        params.push((String::from_str("precision"), self.precision.clone()));
        assert(params.deep_view() =~= chart_parameters(
            self.currency@,
            self.since@,
            self.interval@,
            self.precision@,
        ));
        params
    }

    /// The full request URL of this query; `None` where it does not parse as a URL.
    pub fn url(&self) -> (url: Option<String>)
        ensures
            url matches Some(u) ==> url_with_params(
                chart_endpoint(self.coin@),
                chart_parameters(self.currency@, self.since@, self.interval@, self.precision@),
            ) == Some(u@),
            url is None ==> url_with_params(
                chart_endpoint(self.coin@),
                chart_parameters(self.currency@, self.since@, self.interval@, self.precision@),
            ) is None,
    {
        let endpoint = self.endpoint();
        let params = self.parameters();
        parse_with_params(endpoint.as_str(), &params)
    }
}


#[derive(Clone, Copy, Debug, PartialEq, Eq)]
pub enum AssetError {
    /// An asset name that the price feed does not know.
    UnsupportedAsset,
}

/// The symbol of the US-dollar pair of `asset` on the exchange's price feed.
pub open spec fn exchange_pair_of(asset: Seq<char>) -> Option<Seq<char>> {
    if asset == "BTC"@ {
        Some("BTC/USD"@)
    } else if asset == "ETH"@ {
        Some("ETH/USD"@)
    } else if asset == "SOL"@ {
        Some("SOL/USD"@)
    } else {
        None
    }
}

/// The identifier of `asset` on the market-chart service.
pub open spec fn chart_coin_of(asset: Seq<char>) -> Option<Seq<char>> {
    if asset == "BTC"@ {
        Some("bitcoin"@)
    } else if asset == "ETH"@ {
        Some("ethereum"@)
    } else if asset == "SOL"@ {
        Some("solana"@)
    } else {
        None
    }
}

/// Both names translated, or the error when either has no translation.
pub open spec fn both(first: Option<Seq<char>>, second: Option<Seq<char>>) -> Result<
    (Seq<char>, Seq<char>),
    AssetError,
> {
    match (first, second) {
        (Some(a), Some(b)) => Ok((a, b)),
        _ => Err(AssetError::UnsupportedAsset),
    }
}

/// The view of a translated pair.
pub open spec fn pair_view(r: Result<(String, String), AssetError>) -> Result<
    (Seq<char>, Seq<char>),
    AssetError,
> {
    match r {
        Ok((a, b)) => Ok((a@, b@)),
        Err(e) => Err(e),
    }
}

fn is_text(s: &String, text: &str) -> (same: bool)
    ensures
        same == (s@ == text@),
{
    let t = String::from_str(text);
    *s == t
}

fn exchange_pair(asset: &String) -> (pair: Option<String>)
    ensures
        match pair {
            Some(p) => exchange_pair_of(asset@) == Some(p@),
            None => exchange_pair_of(asset@) is None,
        },
{
    if is_text(asset, "BTC") {
        Some(String::from_str("BTC/USD"))
    } else if is_text(asset, "ETH") {
        Some(String::from_str("ETH/USD"))
    } else if is_text(asset, "SOL") {
        Some(String::from_str("SOL/USD"))
    } else {
        None
    }
}

fn chart_coin(asset: &String) -> (coin: Option<String>)
    ensures
        match coin {
            Some(c) => chart_coin_of(asset@) == Some(c@),
            None => chart_coin_of(asset@) is None,
        },
{
    if is_text(asset, "BTC") {
        Some(String::from_str("bitcoin"))
    } else if is_text(asset, "ETH") {
        Some(String::from_str("ethereum"))
    } else if is_text(asset, "SOL") {
        Some(String::from_str("solana"))
    } else {
        None
    }
}

/// The exchange's price-feed symbols of a pair of assets.
pub fn exchange_pairs(assets: &(String, String)) -> (pairs: Result<(String, String), AssetError>)
    ensures
        pair_view(pairs) == both(exchange_pair_of(assets.0@), exchange_pair_of(assets.1@)),
{
    match (exchange_pair(&assets.0), exchange_pair(&assets.1)) {
        (Some(a), Some(b)) => Ok((a, b)),
        _ => Err(AssetError::UnsupportedAsset),
    }
}

/// The market-chart identifiers of a pair of assets.
pub fn chart_coins(assets: &(String, String)) -> (coins: Result<(String, String), AssetError>)
    ensures
        pair_view(coins) == both(chart_coin_of(assets.0@), chart_coin_of(assets.1@)),
{
    match (chart_coin(&assets.0), chart_coin(&assets.1)) {
        (Some(a), Some(b)) => Ok((a, b)),
        _ => Err(AssetError::UnsupportedAsset),
    }
}

/// Which price of a watched pair a ticker update is for.
#[derive(Clone, Copy, Debug, PartialEq, Eq)]
pub enum PriceSlot {
    First,
    Second,
}

/// The price a ticker update for `symbol` sets when watching the pair
/// `(first, second)`: the first where it is the first symbol, else the second
/// where it is the second; `None` for any other symbol.
pub open spec fn slot_of(symbol: Seq<char>, first: Seq<char>, second: Seq<char>) -> Option<PriceSlot> {
    if symbol == first {
        Some(PriceSlot::First)
    } else if symbol == second {
        Some(PriceSlot::Second)
    } else {
        None
    }
}

/// The price a ticker update for `symbol` sets when watching the pair `pair`.
pub fn tick_slot(symbol: &String, pair: &(String, String)) -> (slot: Option<PriceSlot>)
    ensures
        slot == slot_of(symbol@, pair.0@, pair.1@),
{
    if *symbol == pair.0 {
        Some(PriceSlot::First)
    } else if *symbol == pair.1 {
        Some(PriceSlot::Second)
    } else {
        None
    }
}


/// What the price feed delivers next.
pub enum FeedEvent {
    /// A ticker update for the pair with this symbol.
    Ticker(String),
    /// A heartbeat of the connection.
    Heartbeat,
    /// Any other message on a subscribed channel.
    OtherChannel,
    /// A reply to a request.
    Method,
    /// An error reported by the exchange.
    Error,
    /// A message that could not be read.
    Unreadable,
    /// The connection was closed.
    Closed,
    /// Nothing arrived within the waiting time.
    TimedOut,
}

/// What the feed does with an event.
#[derive(Clone, Copy, Debug, PartialEq, Eq)]
pub enum FeedAction {
    /// Stamp the cached prices with the current time, set the price in the
    /// slot (where the update is for one of the pair) and publish them.
    PublishPrices(Option<PriceSlot>),
    /// Publish an error in place of prices.
    PublishError,
    /// Record the message and do nothing else.
    Record,
    /// Do nothing.
    Ignore,
}

/// The feed's action on an event while watching the pair `(first, second)`,
/// and whether it goes on reading afterwards.
pub open spec fn feed_step_of(event: FeedEvent, first: Seq<char>, second: Seq<char>) -> (
    FeedAction,
    bool,
) {
    match event {
        FeedEvent::Ticker(symbol) => (FeedAction::PublishPrices(slot_of(symbol@, first, second)), true),
        FeedEvent::Heartbeat => (FeedAction::Ignore, true),
        FeedEvent::OtherChannel => (FeedAction::Record, true),
        FeedEvent::Method => (FeedAction::Record, true),
        FeedEvent::Error => (FeedAction::PublishError, true),
        FeedEvent::Unreadable => (FeedAction::Record, true),
        FeedEvent::Closed => (FeedAction::PublishError, false),
        FeedEvent::TimedOut => (FeedAction::PublishError, false),
    }
}

/// The feed's action on `event` while watching the pair `pair`, and whether
/// it goes on reading: ticker updates publish prices, exchange errors publish
/// an error, a closed or silent connection publishes an error and stops.
pub fn feed_step(event: &FeedEvent, pair: &(String, String)) -> (step: (FeedAction, bool))
    ensures
        step == feed_step_of(*event, pair.0@, pair.1@),
{
    match event {
        FeedEvent::Ticker(symbol) => (FeedAction::PublishPrices(tick_slot(symbol, pair)), true),
        FeedEvent::Heartbeat => (FeedAction::Ignore, true),
        FeedEvent::OtherChannel => (FeedAction::Record, true),
        FeedEvent::Method => (FeedAction::Record, true),
        FeedEvent::Error => (FeedAction::PublishError, true),
        FeedEvent::Unreadable => (FeedAction::Record, true),
        FeedEvent::Closed => (FeedAction::PublishError, false),
        FeedEvent::TimedOut => (FeedAction::PublishError, false),
    }
}

/// The feed stops exactly when the connection is closed or falls silent, and
/// it always publishes an error when it stops.
pub proof fn lemma_feed_stops_only_on_lost_connection(
    event: FeedEvent,
    first: Seq<char>,
    second: Seq<char>,
)
    ensures
        !feed_step_of(event, first, second).1 <==> (event is Closed || event is TimedOut),
        !feed_step_of(event, first, second).1 ==> feed_step_of(event, first, second).0
            == FeedAction::PublishError,
{
}


/// A ticker update for the first symbol of the watched pair sets the first
/// price, one for the second symbol (when it differs from the first) sets the
/// second price, any other sets none; each is published and reading goes on.
pub proof fn lemma_ticks_set_their_own_price(symbol: String, first: Seq<char>, second: Seq<char>)
    ensures
        symbol@ == first ==> feed_step_of(FeedEvent::Ticker(symbol), first, second) == (
            FeedAction::PublishPrices(Some(PriceSlot::First)),
            true,
        ),
        symbol@ != first && symbol@ == second ==> feed_step_of(
            FeedEvent::Ticker(symbol),
            first,
            second,
        ) == (FeedAction::PublishPrices(Some(PriceSlot::Second)), true),
        symbol@ != first && symbol@ != second ==> feed_step_of(
            FeedEvent::Ticker(symbol),
            first,
            second,
        ) == (FeedAction::PublishPrices(None), true),
{
}

/// Translating a pair of assets keeps their order: when both translate, the
/// first name is the translation of the first asset and the second of the
/// second; it fails exactly when either asset has no translation.
pub proof fn lemma_pairs_translate_in_order(a0: Seq<char>, a1: Seq<char>)
    ensures
        both(chart_coin_of(a0), chart_coin_of(a1)) matches Ok((x, y)) ==> chart_coin_of(a0) == Some(
            x,
        ) && chart_coin_of(a1) == Some(y),
        both(chart_coin_of(a0), chart_coin_of(a1)) is Err <==> (chart_coin_of(a0) is None
            || chart_coin_of(a1) is None),
        both(exchange_pair_of(a0), exchange_pair_of(a1)) matches Ok((x, y)) ==> exchange_pair_of(a0)
            == Some(x) && exchange_pair_of(a1) == Some(y),
        both(exchange_pair_of(a0), exchange_pair_of(a1)) is Err <==> (exchange_pair_of(a0) is None
            || exchange_pair_of(a1) is None),
{
}

} // verus!
