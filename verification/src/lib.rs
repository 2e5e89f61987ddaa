pub mod algos;
pub mod array_list;
pub mod bubble_sort;
pub mod ds;
pub mod insert_sorting;
pub mod linked_list;
pub mod merge_sort;
pub mod quicksort;
pub mod skiplist;
pub mod sorting;
pub mod vector;
