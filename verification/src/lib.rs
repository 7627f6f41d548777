//! A small proof-of-work blockchain: transactions, blocks, a block tree
//! that tracks forks, a transaction pool, and the bookkeeping that full
//! nodes use to answer block requests.
pub mod text;
pub mod mini_chain;
