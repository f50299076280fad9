pub mod create;
pub mod matching;
pub mod thompson_nfa;

pub use create::Regexp;
pub use create::RegexpError;
pub use create::regexp_from_string;
pub use create::regexp_to_string;
pub use matching::is_match;
pub use thompson_nfa::Inst;
pub use thompson_nfa::Thread;
pub use thompson_nfa::compile_regexp;
pub use thompson_nfa::thompson_vm;
