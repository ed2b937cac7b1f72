//! The commands of the bus: addressing, enumeration, and the device
//! operations built on them.

pub mod memory;
pub mod rom;

pub use memory::{
    And, MemoryConvert, MemoryPowerSupplyRead, MemoryRecall, MemoryScratchpadCopy,
    MemoryScratchpadRead, MemoryScratchpadWrite,
};
pub use rom::{
    AlarmSearch, RomMatch, RomRead, RomSearch, RomSkip, COMMAND_ALARM_SEARCH,
    COMMAND_ROM_MATCH, COMMAND_ROM_READ, COMMAND_ROM_SEARCH, COMMAND_ROM_SKIP,
};
