pub mod graphviz;
