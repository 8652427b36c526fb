//! A stake-weighted search engine: a ledger of unstaked credits, a stake
//! ledger indexed both by website and by term, and a ranking over it.
pub mod alist;
pub mod directory;
pub mod identity;
pub mod index;
pub mod laws;
pub mod ledger;
pub mod ranking;
pub mod seed;
pub mod stakes;
pub mod state;
pub mod text;

pub use identity::{parse_identity, principal_to_link, resolve_caller, Identity, SearchError, Website};
pub use ledger::WithdrawStep;
pub use ranking::SCORE_ONE;
pub use stakes::{Stake, StakeDelta};
pub use state::{AppState, WebsiteDescription};
pub use text::normalize_term;
