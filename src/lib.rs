pub mod buffer;
pub mod data_source;
pub mod log_entry;
pub mod reader;
pub mod search_state;
pub mod text;
pub mod time;

pub use buffer::Buffer;
pub use data_source::{DataSource, PaginationState, SearchPaginationState};
pub use log_entry::{LogEntry, Source};
pub use reader::EntryAssembler;
pub use search_state::{SearchSlice, SearchSourceBuffer, SearchState};
pub use time::Timestamp;
