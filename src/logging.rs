//! The sinks that receive each classified result, chosen by name.
use vstd::prelude::*;
use crate::config::Config;

verus! {

/// The name of the sink that prints each result.
pub open spec fn print_name() -> Seq<char> {
    seq!['p', 'r', 'i', 'n', 't']
}

/// A sink that prints each result.
#[derive(Clone, Copy, Debug, PartialEq, Eq)]
pub struct PrintLogger {}

impl PrintLogger {
    pub fn new() -> (r: PrintLogger)
        ensures
            r == (PrintLogger {  }),
    {
        PrintLogger {  }
    }
}

/// One configured sink.
#[derive(Clone, Copy, Debug, PartialEq, Eq)]
pub enum Sink {
    Print(PrintLogger),
}

/// A sink name in the configuration that names no known sink.
#[derive(Clone, Debug, PartialEq, Eq)]
pub enum ConfigError {
    UnknownSink(String),
}

/// The sink registered under `name`, if any.
pub fn sink_named(name: &String) -> (r: Option<Sink>)
    ensures
        r is Some <==> name@ == print_name(),
{
    let print = "print".to_owned();
    proof {
        reveal_strlit("print");
        assert(print@ =~= print_name());
    }
    if *name == print {
        Some(Sink::Print(PrintLogger::new()))
    } else {
        None
    }
}

/// The sinks that receive each result, in the order of registration.
pub struct LoggerGroup {
    pub sinks: Vec<Sink>,
}

impl LoggerGroup {
    /// Builds one sink per configured name, in order. The first name that
    /// names no known sink is refused with `UnknownSink`.
    pub fn new(config: &Config) -> (r: Result<LoggerGroup, ConfigError>)
        ensures
            r is Ok <==> forall|i: int|
                0 <= i < config.logger_list.len() ==> (#[trigger] config.logger_list@[i])@
                    == print_name(),
            r is Ok ==> r->Ok_0.sinks.len() == config.logger_list.len(),
            r matches Err(ConfigError::UnknownSink(n)) ==> exists|i: int|
                0 <= i < config.logger_list.len() && n == config.logger_list@[i]
                    && n@ != print_name() && forall|k: int|
                    0 <= k < i ==> (#[trigger] config.logger_list@[k])@ == print_name(),
    {
        let names = &config.logger_list;
        let mut sinks: Vec<Sink> = Vec::new();
        let mut i: usize = 0;
        while i < names.len()
            invariant
                names == &config.logger_list,
                0 <= i <= names.len(),
                sinks.len() == i,
                forall|k: int| 0 <= k < i ==> (#[trigger] names@[k])@ == print_name(),
            decreases names.len() - i,
        {
            match sink_named(&names[i]) {
                Some(s) => sinks.push(s),
                None => {
                    return Err(ConfigError::UnknownSink(names[i].clone()));
                },
            }
            i = i + 1;
        }
        Ok(LoggerGroup { sinks })
    }
}

} // verus!
