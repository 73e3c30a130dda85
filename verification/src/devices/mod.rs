pub mod aula_f75;
