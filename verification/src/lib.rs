pub mod fixed;
pub mod text;
pub mod time;
pub mod instrument;
pub mod capture;
pub mod book;
pub mod reconstructor;
pub mod compare;
pub mod json;
pub mod feed;
pub mod store;
pub mod audit;
pub mod reconstruct;
pub mod session;
