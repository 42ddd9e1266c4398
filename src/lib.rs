pub mod team;
pub mod record;
pub mod score;
pub mod text;
pub mod registry;
pub mod rank;
pub mod laws;
pub mod parse;
pub mod seeding;
pub mod layout;
