pub mod benfords_law;
pub mod brainfuck_everything;
pub mod dijkstra_practice;
