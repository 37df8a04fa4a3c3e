pub mod kociemba;
