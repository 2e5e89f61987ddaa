pub mod recursion;
pub mod selection_sorting;
