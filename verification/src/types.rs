//! Shared vocabulary: decimal pairs, votes, neuron kinds and the error type.

use vstd::prelude::*;
use crate::ordered_map::{KeyOrder, MapKey};

verus! {

/// A fixed-point number as a `(whole, fractional)` pair with three decimal digits.
pub type DecimalNumber = (u32, u32);

/// Weight given to a neuron when it is first added to a layer.
pub const DEFAULT_WEIGHT: DecimalNumber = (1, 0);

/// The value that a neuron reads where nothing is carried in.
pub const INITIAL_VOTING_POWER: DecimalNumber = (0, 0);

/// Number of delegatees whose votes decide a delegated ballot.
pub const QUORUM_SIZE: u32 = 5;

/// Number of the chosen delegatees that must not abstain.
pub const QUORUM_PARTICIPATION_THRESHOLD: u32 = 3;

pub const MIN_DELEGATEES: u32 = 5;

pub const MAX_DELEGATEES: u32 = 10;

/// A ballot as cast. `Remove` is never stored: casting it erases the ballot.
#[derive(Clone, Copy, Debug, PartialEq, Eq, Structural)]
pub enum Vote {
    Yes,
    No,
    Abstain,
    Delegate,
    Remove,
}

/// A ballot after delegation has been resolved and abstentions dropped.
#[derive(Clone, Copy, Debug, PartialEq, Eq, Structural)]
pub enum NormalizedVote {
    Yes,
    No,
}

/// How a layer reduces the votes of its neurons to one number.
#[derive(Clone, Copy, Debug, PartialEq, Eq, Structural)]
pub enum LayerAggregator {
    Unknown,
    Sum,
    Product,
}

/// What a voter did in a round.
#[derive(Clone, Copy, Debug, PartialEq, Eq, Structural)]
pub enum RoundAction {
    Vote,
    Delegate,
    Abstain,
}

/// The closed set of scoring functions a layer can hold.
#[derive(Clone, Copy, Debug, PartialEq, Eq, Structural)]
pub enum NeuronType {
    Dummy,
    AssignedReputation,
    PriorVotingHistory,
    TrustGraph,
}

impl NeuronType {
    /// Place of the kind among all kinds: they are ordered by name.
    pub open spec fn position(self) -> int {
        match self {
            NeuronType::AssignedReputation => 0,
            NeuronType::Dummy => 1,
            NeuronType::PriorVotingHistory => 2,
            NeuronType::TrustGraph => 3,
        }
    }

    fn place(&self) -> (res: u8)
        ensures
            res == self.position(),
    {
        match self {
            NeuronType::AssignedReputation => 0,
            NeuronType::Dummy => 1,
            NeuronType::PriorVotingHistory => 2,
            NeuronType::TrustGraph => 3,
        }
    }
}

impl View for NeuronType {
    type V = NeuronType;

    open spec fn view(&self) -> NeuronType {
        *self
    }
}

impl MapKey for NeuronType {
    open spec fn key_lt(a: NeuronType, b: NeuronType) -> bool {
        a.position() < b.position()
    }

    proof fn lemma_key_lt_irreflexive(a: NeuronType) {
    }

    proof fn lemma_key_lt_transitive(a: NeuronType, b: NeuronType, c: NeuronType) {
    }

    proof fn lemma_key_lt_total(a: NeuronType, b: NeuronType) {
    }

    fn compare(&self, other: &Self) -> (res: KeyOrder) {
        let a = self.place();
        let b = other.place();
        if a < b {
            KeyOrder::Less
        } else if a == b {
            KeyOrder::Equal
        } else {
            KeyOrder::Greater
        }
    }

    fn duplicate(&self) -> (res: Self) {
        *self
    }
}

/// Reputation tier assigned to a user by the community.
#[derive(Clone, Copy, Debug, PartialEq, Eq, Structural)]
pub enum ReputationCategory {
    Excellent,
    VeryGood,
    Good,
    Average,
    Poor,
    Uncategorized,
}

/// Voting-power bonus that a reputation category stands for: nothing for the
/// two lowest categories, then one step more for each category.
pub open spec fn reputation_category_bonus(reputation_category: ReputationCategory) -> u32 {
    match reputation_category {
        ReputationCategory::Uncategorized | ReputationCategory::Poor => 0,
        ReputationCategory::Average => 2,
        ReputationCategory::Good => 3,
        ReputationCategory::VeryGood => 4,
        ReputationCategory::Excellent => 5,
    }
}

/// The bonus that a reputation category stands for.
pub fn get_reputation_category_bonus(reputation_category: ReputationCategory) -> (res: u32)
    ensures
        res == reputation_category_bonus(reputation_category),
{
    match reputation_category {
        ReputationCategory::Uncategorized | ReputationCategory::Poor => 0,
        ReputationCategory::Average => 2,
        ReputationCategory::Good => 3,
        ReputationCategory::VeryGood => 4,
        ReputationCategory::Excellent => 5,
    }
}

/// The vote that a text names; any text that names none is an abstention.
pub open spec fn vote_named(text: Seq<char>) -> Vote {
    if text == "Yes"@ {
        Vote::Yes
    } else if text == "No"@ {
        Vote::No
    } else if text == "Delegate"@ {
        Vote::Delegate
    } else if text == "Remove"@ {
        Vote::Remove
    } else {
        Vote::Abstain
    }
}

/// Whether two texts are the same.
fn same_text(a: &str, b: &str) -> (res: bool)
    ensures
        res == (a@ == b@),
{
    a.to_owned() == b.to_owned()
}

/// The vote that a text names.
pub fn vote_from_str(text: &str) -> (res: Vote)
    ensures
        res == vote_named(text@),
{
    if same_text(text, "Yes") {
        return Vote::Yes;
    }
    if same_text(text, "No") {
        return Vote::No;
    }
    if same_text(text, "Delegate") {
        return Vote::Delegate;
    }
    if same_text(text, "Remove") {
        return Vote::Remove;
    }
    Vote::Abstain
}

/// The normalised vote that a text names.
pub open spec fn normalized_vote_named(text: Seq<char>) -> Result<
    NormalizedVote,
    VotingSystemError,
> {
    if text == "Yes"@ {
        Ok(NormalizedVote::Yes)
    } else if text == "No"@ {
        Ok(NormalizedVote::No)
    } else {
        Err(VotingSystemError::UnknownVote)
    }
}

/// The normalised vote that a text names.
pub fn normalized_vote_from_str(text: &str) -> (res: Result<NormalizedVote, VotingSystemError>)
    ensures
        res == normalized_vote_named(text@),
{
    if same_text(text, "Yes") {
        return Ok(NormalizedVote::Yes);
    }
    if same_text(text, "No") {
        return Ok(NormalizedVote::No);
    }
    Err(VotingSystemError::UnknownVote)
}

/// The name of a normalised vote.
pub open spec fn normalized_vote_name(vote: NormalizedVote) -> Seq<char> {
    match vote {
        NormalizedVote::Yes => "Yes"@,
        NormalizedVote::No => "No"@,
    }
}

/// The name of a normalised vote: the text that names it again.
pub fn normalized_vote_to_string(vote: NormalizedVote) -> (res: String)
    ensures
        res@ == normalized_vote_name(vote),
        normalized_vote_named(res@) == Ok::<NormalizedVote, VotingSystemError>(vote),
{
    proof {
        reveal_strlit("Yes");
        reveal_strlit("No");
    }
    match vote {
        NormalizedVote::Yes => "Yes".to_owned(),
        NormalizedVote::No => "No".to_owned(),
    }
}

/// A normalised vote as a ballot may hold it: by itself, or by its name.
pub trait BallotVote: Sized {
    /// The vote that the value stands for; a text that names none stands for
    /// none.
    spec fn vote(&self) -> Result<NormalizedVote, VotingSystemError>;

    /// Reads the vote that the value stands for.
    fn read(&self) -> (res: Result<NormalizedVote, VotingSystemError>)
        ensures
            res == self.vote(),
    ;

    /// A copy of the value.
    fn copied(&self) -> (res: Self)
        ensures
            res == *self,
    ;
}

impl BallotVote for NormalizedVote {
    open spec fn vote(&self) -> Result<NormalizedVote, VotingSystemError> {
        Ok(*self)
    }

    fn read(&self) -> (res: Result<NormalizedVote, VotingSystemError>) {
        Ok(*self)
    }

    fn copied(&self) -> (res: Self) {
        *self
    }
}

impl BallotVote for String {
    open spec fn vote(&self) -> Result<NormalizedVote, VotingSystemError> {
        normalized_vote_named(self@)
    }

    fn read(&self) -> (res: Result<NormalizedVote, VotingSystemError>) {
        normalized_vote_from_str(self.as_str())
    }

    fn copied(&self) -> (res: Self) {
        self.clone()
    }
}

/// The aggregator that a text names; any text that names none is `Unknown`.
pub open spec fn layer_aggregator_named(text: Seq<char>) -> LayerAggregator {
    if text == "Sum"@ {
        LayerAggregator::Sum
    } else if text == "Product"@ {
        LayerAggregator::Product
    } else {
        LayerAggregator::Unknown
    }
}

/// The aggregator that a text names.
pub fn layer_aggregator_from_str(text: &str) -> (res: LayerAggregator)
    ensures
        res == layer_aggregator_named(text@),
{
    if same_text(text, "Sum") {
        return LayerAggregator::Sum;
    }
    if same_text(text, "Product") {
        return LayerAggregator::Product;
    }
    LayerAggregator::Unknown
}

/// The kind of neuron that a text names.
pub open spec fn neuron_type_named(text: Seq<char>) -> Result<NeuronType, VotingSystemError> {
    if text == "Dummy"@ {
        Ok(NeuronType::Dummy)
    } else if text == "AssignedReputation"@ {
        Ok(NeuronType::AssignedReputation)
    } else if text == "PriorVotingHistory"@ {
        Ok(NeuronType::PriorVotingHistory)
    } else if text == "TrustGraph"@ {
        Ok(NeuronType::TrustGraph)
    } else {
        Err(VotingSystemError::UnknownNeuronType)
    }
}

/// The kind of neuron that a text names.
pub fn neuron_type_from_str(text: &str) -> (res: Result<NeuronType, VotingSystemError>)
    ensures
        res == neuron_type_named(text@),
{
    if same_text(text, "Dummy") {
        return Ok(NeuronType::Dummy);
    }
    if same_text(text, "AssignedReputation") {
        return Ok(NeuronType::AssignedReputation);
    }
    if same_text(text, "PriorVotingHistory") {
        return Ok(NeuronType::PriorVotingHistory);
    }
    if same_text(text, "TrustGraph") {
        return Ok(NeuronType::TrustGraph);
    }
    Err(VotingSystemError::UnknownNeuronType)
}

/// The reputation category that a text names; any text that names none
/// leaves the user uncategorised.
pub open spec fn reputation_category_named(text: Seq<char>) -> ReputationCategory {
    if text == "Poor"@ {
        ReputationCategory::Poor
    } else if text == "Average"@ {
        ReputationCategory::Average
    } else if text == "Good"@ {
        ReputationCategory::Good
    } else if text == "VeryGood"@ {
        ReputationCategory::VeryGood
    } else if text == "Excellent"@ {
        ReputationCategory::Excellent
    } else {
        ReputationCategory::Uncategorized
    }
}

/// The reputation category that a text names.
pub fn reputation_category_from_str(text: &str) -> (res: ReputationCategory)
    ensures
        res == reputation_category_named(text@),
{
    if same_text(text, "Poor") {
        return ReputationCategory::Poor;
    }
    if same_text(text, "Average") {
        return ReputationCategory::Average;
    }
    if same_text(text, "Good") {
        return ReputationCategory::Good;
    }
    if same_text(text, "VeryGood") {
        return ReputationCategory::VeryGood;
    }
    if same_text(text, "Excellent") {
        return ReputationCategory::Excellent;
    }
    ReputationCategory::Uncategorized
}

/// Every failure the library reports.
#[derive(Clone, Copy, Debug, PartialEq, Eq, Structural)]
pub enum VotingSystemError {
    /// A failure of no other kind.
    UnknownError,
    /// The voting system has no outside data.
    ExternalDataProviderNotSet,
    /// A layer was run before it was given an aggregator.
    LayerAggregatorNotSet,
    /// A layer was run before it was given a neuron.
    NoNeuronsExist,
    /// Votes were handed to the aggregator `Unknown`.
    CannotRunUnknownLayerAggregator,
    /// The governance pipeline was run before it was given a layer.
    NoLayersExist,
    /// The submission is known already.
    SubmissionAlreadyAdded,
    /// A voter cast a second ballot where only one is allowed.
    UserAlreadyVoted,
    /// The sum of no votes was asked for.
    ReducingvotesForSumAggregatorFailed,
    /// The product of no votes was asked for.
    ReducingvotesForProductAggregatorFailed,
    /// The voting system has no governance pipeline.
    NeuralGovernanceNotSet,
    /// A voter was active in a round that has no bonus.
    RoundNotFoundInRoundBonusMap,
    /// The pipeline has no layer with the identifier.
    NoSuchLayer,
    /// A voter delegates without having named delegatees.
    DelegateesNotFound,
    /// A delegatee cast no ballot on the submission.
    VoteNotFoundForDelegatee,
    /// A ballot resolved to a vote that cannot be counted.
    UnexpectedValue,
    /// More than ten delegatees were named.
    TooManyDelegatees,
    /// Fewer than five delegatees were named.
    NotEnoughDelegatees,
    /// A text names no kind of neuron.
    UnknownNeuronType,
    /// A text names no normalised vote.
    UnknownVote,
    /// A voter has a normalised ballot but no recorded voting power.
    UnknownVoter,
    /// A divisor whose encoding is zero.
    DivisionByZero,
    /// A fractional part of 1000 or more.
    InvalidFractional,
    /// A result whose whole part does not fit in 32 bits.
    ArithmeticOverflow,
    /// Text that is not of the form `whole.fractional`.
    MalformedDecimal,
}

} // verus!
