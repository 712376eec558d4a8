//! Reading and writing of tar archives.

pub mod archive;
pub mod archive_laws;
pub mod block_writer;
pub mod builder;
pub mod bytes;
pub mod contained;
pub mod dir_laws;
pub mod entry;
pub mod entry_type;
pub mod error;
pub mod exact_laws;
pub mod fields;
pub mod found_laws;
pub mod front_laws;
pub mod gather_laws;
pub mod gathering;
pub mod gnu;
pub mod header;
pub mod header_laws;
pub mod link_laws;
pub mod machine;
pub mod meta_laws;
pub mod name_laws;
pub mod number;
pub mod number_laws;
pub mod parser;
pub mod path;
pub mod path_laws;
pub mod pax;
pub mod pax_laws;
pub mod plain_laws;
pub mod reader;
pub mod realpath;
pub mod realpath_laws;
pub mod revdep;
pub mod revdep_laws;
pub mod run_laws;
pub mod sparse_laws;
pub mod split_laws;
pub mod stored_path;
pub mod stream_append;
pub mod stream_file_laws;
pub mod stream_item;
pub mod stream_laws;
pub mod stream_walk;
pub mod streamer;
pub mod tempdir;
pub mod unpack;
pub mod unpack_all;
pub mod unpack_laws;
pub mod walk_laws;
pub mod walk_step_laws;
pub mod windows;

pub use archive::{Archive, ArchiveInner, Entries};
pub use block_writer::{
    pad_archive, pad_block, HeaderBlockWriter, HeaderWriter, NeededHeaders, Pad,
};
pub use builder::{Builder, DirStep, DirWalk};
pub use entry::{Entry, EntryFields, EntryIo, Options};
pub use entry_type::EntryType;
pub use error::TarError;
pub use fields::{
    GnuExtSparseHeader, GnuHeader, GnuHeaderMut, GnuSparseHeader, OldHeader, OldHeaderMut,
    UstarHeader, UstarHeaderMut,
};
pub use gnu::{GnuEntries, GnuEntry};
pub use header::{Header, HeaderMode, Metadata};
pub use machine::{Action, EntriesFields};
pub use pax::{PaxExtension, PaxExtensions};
pub use reader::Reader;
pub use stream_item::{StreamData, StreamFile, StreamItem, StreamLink, StreamSpecialFile};
pub use stream_walk::{StreamStep, StreamWalk};
pub use streamer::{FileBody, Fill, Streamer, StreamerReadMetadata};
