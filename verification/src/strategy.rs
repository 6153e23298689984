use vstd::prelude::*;

use crate::orders::{Order, OrderModel, Side};
use crate::signals::{Signal, SignalModel, ZScoreReading};

verus! {

/// The trading policy's view of the account: the assets in which a position
/// is held.
pub struct StatArbPolicy {
    pub portfolio: Vec<String>,
}

/// The held assets, by their characters.
pub open spec fn holdings(portfolio: Seq<String>) -> Seq<Seq<char>> {
    portfolio.map_values(|a: String| a@)
}

/// Closing orders for `first` and then `second`, each only where it is held.
pub open spec fn close_held(held: Seq<Seq<char>>, first: Seq<char>, second: Seq<char>) -> Seq<
    OrderModel,
> {
    (if held.contains(first) {
        seq![OrderModel::Close(first)]
    } else {
        seq![]
    }) + (if held.contains(second) {
        seq![OrderModel::Close(second)]
    } else {
        seq![]
    })
}

/// The opening orders of a pair trade: long the asset that is cheap against
/// the other, short the other one.
pub open spec fn open_pair(first: Seq<char>, second: Seq<char>, negative: bool) -> Seq<OrderModel> {
    if negative {
        seq![OrderModel::Open(first, Side::Long), OrderModel::Open(second, Side::Short)]
    } else {
        seq![OrderModel::Open(first, Side::Short), OrderModel::Open(second, Side::Long)]
    }
}

/// The policy's decision on a signal, given the held assets.
/// - A score between entry and cut-loss opens a hedged pair, unless either
///   asset is already held, in which case nothing is done.
/// - Otherwise a score within the exit score, or at or beyond the cut-loss
///   score, closes whichever of the two assets is held (possibly none).
/// - Otherwise nothing is done.
/// - An uncertain market closes every held asset, and does nothing when
///   nothing is held.
pub open spec fn decide(held: Seq<Seq<char>>, signal: SignalModel) -> Option<Seq<OrderModel>> {
    match signal {
        SignalModel::StatArb { first, second, z_score } => {
            if z_score.reaches_entry && z_score.under_cut_loss {
                if held.contains(first) || held.contains(second) {
                    None
                } else {
                    Some(open_pair(first, second, z_score.negative))
                }
            } else if z_score.within_exit || z_score.reaches_cut_loss {
                Some(close_held(held, first, second))
            } else {
                None
            }
        },
        SignalModel::MarketUncertain => {
            if held.len() > 0 {
                Some(held.map_values(|a: Seq<char>| OrderModel::Close(a)))
            } else {
                None
            }
        },
    }
}

/// The orders of a decision, by their views.
pub open spec fn decision_view(decision: Option<Vec<Order>>) -> Option<Seq<OrderModel>> {
    match decision {
        Some(orders) => Some(orders@.map_values(|o: Order| o@)),
        None => None,
    }
}

/// Whether `asset` is among the held assets.
fn holds(portfolio: &Vec<String>, asset: &String) -> (held: bool)
    ensures
        held == holdings(portfolio@).contains(asset@),
{
    let mut i: usize = 0;
    while i < portfolio.len()
        invariant
            i <= portfolio.len(),
            forall|j: int| 0 <= j < i ==> portfolio@[j]@ != asset@,
        decreases portfolio.len() - i,
    {
        if portfolio[i] == *asset {
            assert(holdings(portfolio@)[i as int] == asset@);
            return true;
        }
        i = i + 1;
    }
    proof {
        if holdings(portfolio@).contains(asset@) {
            let j = choose|j: int| 0 <= j < portfolio.len() && holdings(portfolio@)[j] == asset@;
            assert(portfolio@[j]@ == asset@);
        }
    }
    false
}

impl StatArbPolicy {
    pub fn new(portfolio: Vec<String>) -> (policy: StatArbPolicy)
        ensures
            policy.portfolio@ == portfolio@,
    {
        StatArbPolicy { portfolio }
    }

    /// The orders the policy places on `signal`; `None` where it places none.
    pub fn evaluate(&self, signal: Signal) -> (decision: Option<Vec<Order>>)
        ensures
            decision_view(decision) == decide(holdings(self.portfolio@), signal@),
    {
        let ghost held = holdings(self.portfolio@);
        let ghost sig = signal@;
        match signal {
            Signal::StatArb(score) => {
                let z = score.z_score;
                let (first, second) = score.assets;
                if z.reaches_entry && z.under_cut_loss {
                    if holds(&self.portfolio, &first) || holds(&self.portfolio, &second) {
                        None
                    } else {
                        let mut orders: Vec<Order> = Vec::new();
                        if z.negative {
                            orders.push(Order::Open((first, Side::Long)));
                            orders.push(Order::Open((second, Side::Short)));
                        } else {
                            orders.push(Order::Open((first, Side::Short)));
                            orders.push(Order::Open((second, Side::Long)));
                        }
                        let ghost expected = decide(held, sig);
                        assert(decision_view(Some(orders)) =~= expected);
                        Some(orders)
                    }
                } else if z.within_exit || z.reaches_cut_loss {
                    let hold_first = holds(&self.portfolio, &first);
                    let hold_second = holds(&self.portfolio, &second);
                    let mut orders: Vec<Order> = Vec::new();
                    if hold_first {
                        orders.push(Order::Close(first));
                    }
                    if hold_second {
                        orders.push(Order::Close(second));
                    }
                    proof {
                        let v = orders@.map_values(|o: Order| o@);
                        let c = close_held(held, sig->first, sig->second);
                        assert(v =~= c);
                    }
                    Some(orders)
                } else {
                    None
                }
            },
            Signal::MarketUncertain => {
                if self.portfolio.len() > 0 {
                    let mut orders: Vec<Order> = Vec::new();
                    let mut i: usize = 0;
                    while i < self.portfolio.len()
                        invariant
                            i <= self.portfolio.len(),
                            orders.len() == i,
                            forall|j: int|
                                0 <= j < i ==> (#[trigger] orders@[j])@ == OrderModel::Close(
                                    self.portfolio@[j]@,
                                ),
                        decreases self.portfolio.len() - i,
                    {
                        orders.push(Order::Close(self.portfolio[i].clone()));
                        i = i + 1;
                    }
                    proof {
                        let v = orders@.map_values(|o: Order| o@);
                        let c = held.map_values(|a: Seq<char>| OrderModel::Close(a));
                        assert(v =~= c);
                    }
                    Some(orders)
                } else {
                    None
                }
            },
        }
    }
}


/// The decision contains an order that opens a position.
pub open spec fn opens(orders: Seq<OrderModel>) -> bool {
    exists|i: int| 0 <= i < orders.len() && #[trigger] orders[i] is Open
}

/// The decision contains an order that closes a position.
pub open spec fn closes(orders: Seq<OrderModel>) -> bool {
    exists|i: int| 0 <= i < orders.len() && #[trigger] orders[i] is Close
}

/// A position is only opened as a hedged pair on a stat-arb signal, and only
/// when neither asset is held: long the first asset and short the second when
/// the score is negative, the other way round otherwise.
pub proof fn lemma_opening_is_hedged_pair(held: Seq<Seq<char>>, signal: SignalModel)
    requires
        decide(held, signal) matches Some(orders) && opens(orders),
    ensures
        signal matches SignalModel::StatArb { first, second, z_score } && {
            &&& !held.contains(first)
            &&& !held.contains(second)
            &&& decide(held, signal) == Some(open_pair(first, second, z_score.negative))
            &&& open_pair(first, second, z_score.negative).len() == 2
            &&& open_pair(first, second, z_score.negative)[0] == OrderModel::Open(
                first,
                if z_score.negative { Side::Long } else { Side::Short },
            )
            &&& open_pair(first, second, z_score.negative)[1] == OrderModel::Open(
                second,
                if z_score.negative { Side::Short } else { Side::Long },
            )
        },
{
    let orders = decide(held, signal)->Some_0;
    let i = choose|i: int| 0 <= i < orders.len() && #[trigger] orders[i] is Open;
    match signal {
        SignalModel::StatArb { first, second, z_score } => {
            if !(z_score.reaches_entry && z_score.under_cut_loss) {
                let c = close_held(held, first, second);
                assert(orders == c);
                assert(c[i] is Close);
            }
        },
        SignalModel::MarketUncertain => {
            assert(orders[i] == OrderModel::Close(held[i]));
        },
    }
}

/// No decision both opens and closes positions.
pub proof fn lemma_decision_never_mixes(held: Seq<Seq<char>>, signal: SignalModel)
    requires
        decide(held, signal) is Some,
    ensures
        !(opens(decide(held, signal)->Some_0) && closes(decide(held, signal)->Some_0)),
{
    let orders = decide(held, signal)->Some_0;
    if opens(orders) && closes(orders) {
        lemma_opening_is_hedged_pair(held, signal);
        let i = choose|i: int| 0 <= i < orders.len() && #[trigger] orders[i] is Close;
        assert(orders[i] is Open);
    }
}

/// Only held assets are ever closed.
pub proof fn lemma_closes_only_held(held: Seq<Seq<char>>, signal: SignalModel, i: int)
    requires
        decide(held, signal) matches Some(orders) && 0 <= i < orders.len()
            && orders[i] is Close,
    ensures
        held.contains(decide(held, signal)->Some_0[i]->Close_0),
{
    let orders = decide(held, signal)->Some_0;
    match signal {
        SignalModel::StatArb { first, second, z_score } => {
            if z_score.reaches_entry && z_score.under_cut_loss {
                assert(orders[i] is Open);
            }
        },
        SignalModel::MarketUncertain => {
            assert(orders[i] == OrderModel::Close(held[i]));
        },
    }
}

/// When the market is uncertain every held asset is closed, once each and in
/// the order the holdings are listed; with nothing held nothing is done.
pub proof fn lemma_uncertain_market_liquidates(held: Seq<Seq<char>>)
    ensures
        held.len() == 0 ==> decide(held, SignalModel::MarketUncertain) is None,
        held.len() > 0 ==> (decide(held, SignalModel::MarketUncertain) matches Some(orders) && {
            &&& orders.len() == held.len()
            &&& forall|i: int| 0 <= i < held.len() ==> #[trigger] orders[i] == OrderModel::Close(held[i])
        }),
{
}


/// No asset is listed twice among the holdings, as in an account's map of
/// positions.
pub open spec fn holdings_distinct(held: Seq<Seq<char>>) -> bool {
    forall|i: int, j: int| 0 <= i < j < held.len() ==> held[i] != held[j]
}

/// With holdings that list no asset twice, and a signal on two different
/// assets, no decision closes the same asset twice.
pub proof fn lemma_closes_each_asset_once(held: Seq<Seq<char>>, signal: SignalModel)
    requires
        holdings_distinct(held),
        signal matches SignalModel::StatArb { first, second, .. } ==> first != second,
    ensures
        decide(held, signal) matches Some(orders) ==> forall|i: int, j: int|
            0 <= i < j < orders.len() && orders[i] is Close && orders[j] is Close
                ==> orders[i]->Close_0 != orders[j]->Close_0,
{
    if decide(held, signal) is Some {
        let orders = decide(held, signal)->Some_0;
        assert forall|i: int, j: int|
            0 <= i < j < orders.len() && orders[i] is Close && orders[j] is Close
                implies orders[i]->Close_0 != orders[j]->Close_0 by {
            match signal {
                SignalModel::StatArb { first, second, z_score } => {
                    if !(z_score.reaches_entry && z_score.under_cut_loss) {
                        let c = close_held(held, first, second);
                        assert(orders == c);
                        assert(i == 0 && j == 1);
                        assert(held.contains(first) && held.contains(second));
                        assert(c[0] == OrderModel::Close(first));
                        assert(c[1] == OrderModel::Close(second));
                    }
                },
                SignalModel::MarketUncertain => {
                    assert(orders[i] == OrderModel::Close(held[i]));
                    assert(orders[j] == OrderModel::Close(held[j]));
                },
            }
        }
    }
}


/// A score that reaches the entry score while under the cut-loss score opens
/// the hedged pair whenever neither of its two assets is held, whatever else
/// is held: long the first asset and short the second on a negative score,
/// short the first and long the second otherwise.
pub proof fn lemma_flat_pair_opens(
    held: Seq<Seq<char>>,
    first: Seq<char>,
    second: Seq<char>,
    z_score: ZScoreReading,
)
    requires
        z_score.reaches_entry,
        z_score.under_cut_loss,
        !held.contains(first),
        !held.contains(second),
    ensures
        decide(held, SignalModel::StatArb { first, second, z_score }) matches Some(orders) && {
            &&& orders.len() == 2
            &&& orders[0] == OrderModel::Open(
                first,
                if z_score.negative { Side::Long } else { Side::Short },
            )
            &&& orders[1] == OrderModel::Open(
                second,
                if z_score.negative { Side::Short } else { Side::Long },
            )
        },
{
}

/// On a stat-arb signal the decision depends on the holdings only through
/// whether the signal's two assets are held.
pub proof fn lemma_only_the_pair_matters(
    held1: Seq<Seq<char>>,
    held2: Seq<Seq<char>>,
    first: Seq<char>,
    second: Seq<char>,
    z_score: ZScoreReading,
)
    requires
        held1.contains(first) == held2.contains(first),
        held1.contains(second) == held2.contains(second),
    ensures
        decide(held1, SignalModel::StatArb { first, second, z_score }) == decide(
            held2,
            SignalModel::StatArb { first, second, z_score },
        ),
{
    let s = SignalModel::StatArb { first, second, z_score };
    assert(close_held(held1, first, second) == close_held(held2, first, second));
}

} // verus!
