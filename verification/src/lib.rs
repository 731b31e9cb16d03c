//! A minimal governance ledger: a durable ordered map from 64-bit keys to
//! size-bounded proposal records, with create, edit, end and vote operations
//! layered on top of a verified binary codec.

pub mod codec;
pub mod proposal;
pub mod store;

pub use codec::decode_proposal;
pub use codec::encode_proposal;
pub use codec::MAX_RECORD_SIZE;
pub use proposal::Choice;
pub use proposal::CreateProposal;
pub use proposal::Principal;
pub use proposal::Proposal;
pub use proposal::ProposalModel;
pub use proposal::VoteError;
pub use store::ProposalStore;
