pub mod base64;
pub mod calc;
pub mod collections;
pub mod fibo;
pub mod fibonacci;
pub mod my_algorithms;
pub mod my_lib;
pub mod order;
