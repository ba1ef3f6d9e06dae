pub mod dijkstra;
pub mod palindrome;
pub mod paths;
