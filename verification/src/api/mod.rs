pub mod dto;
pub mod error;
pub mod handlers;
pub mod validation;
