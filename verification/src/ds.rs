pub mod stack;
