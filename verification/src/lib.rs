//! Model and rules of a light Discord client: the guild/channel/message
//! structure, the client state that packets from the bot update, the
//! decisions the user interface takes, and what is persisted between runs.

pub mod text;
pub mod time;
pub mod discord_structure;
pub mod emoji_window;
pub mod postman;
pub mod state;
pub mod client;
pub mod bot;
