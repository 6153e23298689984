use vstd::prelude::*;

verus! {

/// Where a spread's z-score stands against a policy's thresholds. Each field
/// is the outcome of one comparison, so that a score that compares false
/// against everything (not a number) keeps all of them false.
#[derive(Clone, Copy, Debug, PartialEq, Eq)]
pub struct ZScoreReading {
    /// The score's magnitude is at least the entry score.
    pub reaches_entry: bool,
    /// The score's magnitude is below the cut-loss score.
    pub under_cut_loss: bool,
    /// The score's magnitude is at most the exit score.
    pub within_exit: bool,
    /// The score's magnitude is at least the cut-loss score.
    pub reaches_cut_loss: bool,
    /// The score is below zero: the first asset is cheap against the second.
    pub negative: bool,
}

/// A statistical-arbitrage reading of a pair of assets.
pub struct StatArbSignal {
    pub assets: (String, String),
    pub z_score: ZScoreReading,
}

/// What the model says about the market.
pub enum Signal {
    StatArb(StatArbSignal),
    MarketUncertain,
}

pub enum SignalModel {
    StatArb { first: Seq<char>, second: Seq<char>, z_score: ZScoreReading },
    MarketUncertain,
}

impl View for Signal {
    type V = SignalModel;

    open spec fn view(&self) -> SignalModel {
        match self {
            Signal::StatArb(s) => SignalModel::StatArb {
                first: s.assets.0@,
                second: s.assets.1@,
                z_score: s.z_score,
            },
            Signal::MarketUncertain => SignalModel::MarketUncertain,
        }
    }
}

} // verus!
