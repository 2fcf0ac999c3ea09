//! Board, task and sharing logic of the Cardbe task manager, with its contracts.
pub mod text;
pub mod clock;
pub mod encoding;
pub mod models;
pub mod ids;
pub mod stored;
pub mod sorting;
pub mod positions;
pub mod keyed;
pub mod persist;
pub mod recovery;
pub mod loro_board;
pub mod update;
pub mod links;
pub mod board;
pub mod archive;
pub mod templates;
pub mod notes;
pub mod boards;
pub mod labels;
pub mod history;
pub mod transfer;
pub mod notifications;
pub mod equality;
pub mod iroh_share;
pub mod invites;
pub mod share;
pub mod schema;
pub mod diagnostics;
