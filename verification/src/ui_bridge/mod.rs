pub mod editor_form;
pub mod editor_laws;
pub mod editor_session;
pub mod key_lines;
pub mod qr;
pub mod status;
