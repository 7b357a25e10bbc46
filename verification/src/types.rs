//! The charging rules of a game and the direction of a pass.
use vstd::prelude::*;

verus! {

/// How charges are made: freely or in turn (bridge), once or until everyone passes (chain),
/// openly or hidden until every charge is in (blind).
#[derive(Clone, Copy, Debug, PartialEq, Eq, Hash, Structural)]
pub enum ChargingRules {
    Classic,
    Blind,
    Bridge,
    BlindBridge,
    Chain,
    BlindChain,
}

impl ChargingRules {
    pub open spec fn spec_free(self) -> bool {
        self == ChargingRules::Classic || self == ChargingRules::Blind
    }

    pub open spec fn spec_chain(self) -> bool {
        self == ChargingRules::Chain || self == ChargingRules::BlindChain
    }

    pub open spec fn spec_blind(self) -> bool {
        self == ChargingRules::Blind || self == ChargingRules::BlindBridge || self
            == ChargingRules::BlindChain
    }

    /// Anyone may charge at any time; otherwise charges go around the table in turn.
    pub fn free(&self) -> (r: bool)
        ensures
            r == self.spec_free(),
    {
        match self {
            ChargingRules::Classic | ChargingRules::Blind => true,
            _ => false,
        }
    }

    /// Charging goes on until every player in turn declines to charge more.
    pub fn chain(&self) -> (r: bool)
        ensures
            r == self.spec_chain(),
    {
        match self {
            ChargingRules::Chain | ChargingRules::BlindChain => true,
            _ => false,
        }
    }

    /// Charges stay hidden from the other players until charging is over.
    pub fn blind(&self) -> (r: bool)
        ensures
            r == self.spec_blind(),
    {
        match self {
            ChargingRules::Classic | ChargingRules::Bridge | ChargingRules::Chain => false,
            _ => true,
        }
    }

    /// The name of the rules, as `Debug` writes it.
    pub fn name(&self) -> (s: &'static str)
        ensures
            s@ == match *self {
                ChargingRules::Classic => "Classic"@,
                ChargingRules::Blind => "Blind"@,
                ChargingRules::Bridge => "Bridge"@,
                ChargingRules::BlindBridge => "BlindBridge"@,
                ChargingRules::Chain => "Chain"@,
                ChargingRules::BlindChain => "BlindChain"@,
            },
    {
        match self {
            ChargingRules::Classic => "Classic",
            ChargingRules::Blind => "Blind",
            ChargingRules::Bridge => "Bridge",
            ChargingRules::BlindBridge => "BlindBridge",
            ChargingRules::Chain => "Chain",
            ChargingRules::BlindChain => "BlindChain",
        }
    }
}

/// The direction in which cards are passed in a hand.
#[derive(Clone, Copy, Debug, PartialEq, Eq, Hash, Structural)]
pub enum PassDirection {
    Left,
    Right,
    Across,
    Keeper,
}

impl PassDirection {
    pub open spec fn spec_idx(self) -> u8 {
        match self {
            PassDirection::Left => 0,
            PassDirection::Right => 1,
            PassDirection::Across => 2,
            PassDirection::Keeper => 3,
        }
    }

    pub fn idx(self) -> (r: u64)
        ensures
            r == self.spec_idx(),
    {
        match self {
            PassDirection::Left => 0,
            PassDirection::Right => 1,
            PassDirection::Across => 2,
            PassDirection::Keeper => 3,
        }
    }
}

/// The draws of chance in a game: the deal of each hand, and the scattering of the keeper pass.
pub enum RandomEvent {
    Deal(PassDirection),
    KeeperPass,
}

impl RandomEvent {
    /// The stream of the seeded generator that the event draws from.
    pub fn id(&self) -> (r: u64)
        ensures
            r == match self {
                RandomEvent::Deal(d) => d.spec_idx() as u64,
                RandomEvent::KeeperPass => 4,
            },
    {
        match self {
            RandomEvent::Deal(PassDirection::Left) => 0,
            RandomEvent::Deal(PassDirection::Right) => 1,
            RandomEvent::Deal(PassDirection::Across) => 2,
            RandomEvent::Deal(PassDirection::Keeper) => 3,
            RandomEvent::KeeperPass => 4,
        }
    }
}

} // verus!
