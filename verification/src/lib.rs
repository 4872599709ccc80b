//! Front end of a small scripting-language interpreter: a lexical scanner
//! that turns source text into positioned lexical units, and a validator
//! that checks the statement-termination rule over the scanned stream.

pub mod scanner;
pub mod text;
pub mod validator;
