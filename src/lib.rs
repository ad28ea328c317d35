//! A registry of ownable, breedable kitties, and the circular doubly-linked
//! list over a point-access key-value store that indexes each owner's kitties.

mod keys;
pub mod hashing;
pub mod kitties;
pub mod linked_list;

pub use linked_list::{LinkedItem, LinkedList};
pub use hashing::{Entropy, random_value};
pub use kitties::{combine_dna, AccountId, Error, Kitty, KittyIndex, Module, ModuleView};
