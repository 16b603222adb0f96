//! Small verified exercises: a singly linked list and the rules of a
//! word-guessing game.

pub mod hangman;
pub mod linked_list;
pub mod list_laws;
