//! Small verified exercises on functions, recursion, ownership and borrowing,
//! together with the decision core of a console number-guessing game.
pub mod basics;
pub mod guessing;
pub mod ownership;
