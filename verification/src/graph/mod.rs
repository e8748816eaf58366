pub mod between;
pub mod builder;
pub mod csr;
pub mod layout;
pub mod traverse;
