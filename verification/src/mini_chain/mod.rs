pub mod block;
pub mod order;
pub mod canonical;
pub mod digest;
pub mod clock;
pub mod random;
pub mod txset;
pub mod metadata;
pub mod strset;
pub mod chain;
pub mod edit;
pub mod mempool;
pub mod node;
