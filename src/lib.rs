//! Extraction of file attachments from Outlook `.msg` compound files.
//!
//! The compound-file directory is modelled as a sequence of
//! [`directory::DirEntry`] values. Attachment storages are located by name,
//! their property streams resolved by property code, decoded, and assembled
//! into [`attachment::Attachment`] records; [`output`] holds the naming policy
//! for writing them out. [`storage`] says which streams of an attachment
//! storage are to be read; reading the compound file itself is the caller's.

pub mod attachment;
pub mod directory;
pub mod output;
pub mod property;
pub mod resolve;
pub mod storage;
pub mod utf16;
