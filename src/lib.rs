//! Sample-by-sample recording of named numeric channels, with the table
//! layout and CSV framing used to store them and read them back.

pub mod codec;
pub mod laws;
pub mod recorder;
pub mod table;

pub use recorder::{DisabledSampleLogger, SampleLogger};
pub use codec::{read_csv_as_audio_data, ReadError};
pub use table::{ChannelTable, ImbalanceError};
