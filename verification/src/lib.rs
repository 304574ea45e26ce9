pub mod order_book;
pub mod orders;
