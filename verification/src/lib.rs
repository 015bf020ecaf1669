//! A non-fungible-token registry and marketplace-listing ledger.
//!
//! The ledger tracks which identity owns which token, serves metadata and
//! ownership queries, and keeps a simple sale-listing book on top of
//! ownership. It is built from three stores — the token store, the reverse
//! owner index, and the listing book — composed behind a single facade that
//! keeps them consistent across mint, transfer, list and delist.

pub mod ledger;
pub mod listing_book;
pub mod owner_index;
pub mod token_store;
pub mod types;

pub use ledger::Ledger;
pub use listing_book::Listing;
pub use listing_book::ListingBook;
pub use owner_index::OwnerEntry;
pub use owner_index::OwnerIndex;
pub use token_store::TokenMetadata;
pub use token_store::TokenStore;
pub use types::AccountIdentifier;
pub use types::Error;
pub use types::ExtendedMetadataResult;
pub use types::MetadataDesc;
pub use types::MintReceipt;
pub use types::MintReceiptPart;
pub use types::Principal;
pub use types::TokenIndex;
pub use types::User;
