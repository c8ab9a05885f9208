pub mod health;
