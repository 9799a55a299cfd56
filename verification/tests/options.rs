use bf_run::options::{ArgumentParseError, ExecutorArg, MemoryType};

#[test]
fn executors_are_chosen_by_name() {
    assert_eq!(ExecutorArg::from_str("oi").unwrap(), ExecutorArg::OldInterpreterArg);
    assert_eq!(ExecutorArg::from_str("ni").unwrap(), ExecutorArg::NewInterpreterArg);
    assert_eq!(ExecutorArg::from_str("r").unwrap(), ExecutorArg::RecompilerArg);
}

#[test]
fn tapes_are_chosen_by_name() {
    assert_eq!(MemoryType::from_str("ua").unwrap(), MemoryType::UnsafeArrayArg);
    assert_eq!(MemoryType::from_str("da").unwrap(), MemoryType::DualArrayArg);
    assert_eq!(MemoryType::from_str("sa").unwrap(), MemoryType::SingleArrayArg);
}

#[test]
fn unknown_executor_names_come_back_in_the_error() {
    for name in ["", "o", "oi ", "OI", "rr", "ua"] {
        match ExecutorArg::from_str(name) {
            Err(ArgumentParseError::ExecutorParseError(text)) => assert_eq!(text, name),
            _ => panic!("{:?} names no executor", name),
        }
    }
}

#[test]
fn unknown_tape_names_come_back_in_the_error() {
    for name in ["", "a", "ua ", "UA", "r", "das"] {
        match MemoryType::from_str(name) {
            Err(ArgumentParseError::MemoryTypeParseError(text)) => assert_eq!(text, name),
            _ => panic!("{:?} names no tape", name),
        }
    }
}
