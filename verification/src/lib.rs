//! Translation of the text of e-book markup through a pluggable backend.
//!
//! The library extracts the translatable text blocks of a markup entry,
//! plans their translation in numbered chunks, reassembles what the backend
//! returns in the order of the input, and puts each translated block back
//! beside its source text without touching the structure of the markup.
//!
//! The markup side: [`reader`] turns bytes into the events of [`markup`];
//! [`layout`] tells where each event lies in the bytes; [`strip`] cuts the
//! pronunciation annotations out of them; [`resolve`] and [`walker`] find
//! the translatable spans; [`blocks`] extracts the blocks among them and
//! puts their translations into the bytes, before the tags that end them;
//! [`epub`] does this for the entries of an e-book. Stripping and
//! reinsertion only cut and insert: every other byte of a document stays as
//! it was.
//!
//! The translation side: [`translate`] holds the chunks, the outcomes and
//! the orchestrator that decides what is sent and what is merged;
//! [`client`] holds what each backend is sent and what is read of its
//! answers.
//!
//! The library does no input or output. Its caller reads and writes the
//! e-book and talks to the backend.

pub mod blocks;
pub mod client;
pub mod decimal;
pub mod epub;
pub mod layout;
pub mod markup;
pub mod reader;
pub mod resolve;
pub mod strings;
pub mod strip;
pub mod text;
pub mod translate;
pub mod walker;
