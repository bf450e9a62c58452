//! What an extension module needs besides inference: the number of worker threads,
//! and how errors are raised.
use crate::inference::{InferenceError, InferenceErrorView};
use vstd::prelude::*;

verus! {

/// The number of threads where none is asked for: all that are available but one, and
/// at least one.
pub fn default_thread_count(available: Option<usize>) -> (count: usize)
    ensures
        count == match available {
            Some(available) => if available <= 2 {
                1
            } else {
                (available - 1) as usize
            },
            None => 1,
        },
{
    match available {
        Some(available) => {
            if available <= 2 {
                1
            } else {
                available - 1
            }
        },
        None => 1,
    }
}

/// The number of threads, if it is one.
pub fn thread_count(requested: Option<usize>, available: Option<usize>) -> (result: Result<
    usize,
    String,
>)
    ensures
        match requested {
            Some(0) => result matches Err(message) && message@
                == "num_threads must be greater than zero"@,
            Some(count) => result == Ok::<usize, String>(count),
            None => result matches Ok(count) && count == match available {
                Some(available) => if available <= 2 {
                    1
                } else {
                    (available - 1) as usize
                },
                None => 1,
            },
        },
{
    let count: usize = match requested {
        Some(count) => count,
        None => default_thread_count(available),
    };
    if count == 0 {
        return Err("num_threads must be greater than zero".to_owned());
    }
    Ok(count)
}

/// How an error is raised.
#[derive(Clone, Copy, Debug, PartialEq, Eq, Structural)]
pub enum ExceptionKind {
    /// The caller passed a bad value.
    Value,
    /// Something failed.
    Runtime,
}

/// How an inference error is raised, and with what text.
pub fn exception_for(error: InferenceError) -> (exception: (ExceptionKind, String))
    ensures
        match error@ {
            InferenceErrorView::InvalidArgument(text) => exception.0 == ExceptionKind::Value
                && exception.1@ == text,
            InferenceErrorView::Backend(text) => exception.0 == ExceptionKind::Runtime
                && exception.1@ == text,
            InferenceErrorView::Model(text) => exception.0 == ExceptionKind::Runtime
                && exception.1@ == text,
        },
{
    match error {
        InferenceError::InvalidArgument(text) => (ExceptionKind::Value, text),
        InferenceError::Backend(text) => (ExceptionKind::Runtime, text),
        InferenceError::Model(text) => (ExceptionKind::Runtime, text),
    }
}

} // verus!
