pub mod amount;
pub mod item;
pub mod machine;

pub use amount::{Amount, AmountError};
pub use item::{InvalidItem, Item, ItemDomain, ItemStack, ItemStacks, StackTooLarge};
pub use machine::{InvalidMachine, Machine, MachineDomain};
