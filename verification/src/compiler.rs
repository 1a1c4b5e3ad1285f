pub mod scope;
