pub mod command;
pub mod interpret;
pub mod interpret_laws;
pub mod io;
pub mod preprocess;
pub mod preprocess_laws;

pub use command::Command;
pub use command::RawCommand;
pub use interpret::Interpreter;
pub use io::ChannelError;
pub use io::InputOutput;
pub use io::ScriptedInputOutput;
pub use preprocess::Preprocessor;
