pub mod semaphore;
pub mod channel;
pub mod banker_model;
pub mod banker;
pub mod tl2;
pub mod dining;
pub mod fairlock;
pub mod fair_waiting;
pub mod ticketlock;
pub mod spinlock;
pub mod mcs;
pub mod stack;
pub mod stack_bad;
pub mod green;
pub mod hello;
pub mod session;
pub mod selector;
