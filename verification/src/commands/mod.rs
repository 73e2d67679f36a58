pub mod check;
pub mod diff;
pub mod run;
pub mod push;
pub mod sync;
pub mod secrets;
pub mod projects;
pub mod init;
pub mod login;
pub mod keys;
