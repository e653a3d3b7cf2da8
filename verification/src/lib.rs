//! Byte sources addressed by URIs.
//!
//! A URI of one of five schemes opens a seekable stream of bytes:
//!
//! * `file:` and bare paths, through a function that the caller hands in,
//! * `mem:`, a byte string in a table,
//! * `data:`, bytes in the URI itself,
//! * `slice:`, a window on what another URI opens,
//! * `concat:`, several of them in a row.
//!
//! [`open::open_bytes`] opens any of them; [`open::stream_of`] says what it
//! opens. [`scope`] decides which files may be opened, and [`buffered`] what
//! reader and worker of a prefetching stream do. [`laws`] says what has to hold
//! of all that.
pub mod buffered;
pub mod concat;
pub mod data;
pub mod error;
pub mod laws;
pub mod lockstep;
pub mod mem;
pub mod open;
pub mod scope;
pub mod slice;
pub mod stream;
pub mod sub;
pub mod text;
pub mod uri;

pub use buffered::{
    BufferedSourceBuilder, DEFAULT_BLOCK, DEFAULT_LOOKBACK_DEN, DEFAULT_LOOKBACK_NUM,
    DEFAULT_PREFETCH_TIMEOUT,
};
pub use concat::{open_concat, parse as parse_concat_uri, ConcatUri};
pub use data::{open_data, parse as parse_data_uri, DataUri};
pub use error::{Error, ErrorKind, IoError};
pub use mem::{open_mem, MemTable};
pub use open::{open_bytes, open_file};
pub use scope::{open_file_scoped, FileScope, ScopeSlot};
pub use slice::{open_slice, parse as parse_slice_uri, SliceUri};
pub use stream::{stream_len, BytesSource, SeekFrom, Source};
pub use sub::SubSource;
