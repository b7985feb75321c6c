//! Reading, building and extracting "mega file" archives: a header, a table
//! of entry names, a table of fixed-size records and the entries' bytes.
pub mod crc;
pub mod error;
pub mod export_file;
pub mod file_writer;
pub mod filemeta;
pub mod filename;
pub mod guarantees;
pub mod header;
pub mod le;
pub mod mega_file;
pub mod order;
pub mod table_record;

pub use error::ArchiveError;
pub use export_file::ExportFile;
pub use filemeta::FileMeta;
pub use filename::Filename;
pub use header::Header;
pub use mega_file::MegaFile;
pub use table_record::TableRecord;
