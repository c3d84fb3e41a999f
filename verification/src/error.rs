//! Failures to write a command's response.

use vstd::prelude::*;

verus! {

/// One of the two output streams of a run.
#[derive(Clone, Copy, Debug, PartialEq, Eq)]
pub enum OutputStream {
    Stdout,
    Stderr,
}

pub open spec fn stream_name(stream: OutputStream) -> Seq<char> {
    match stream {
        OutputStream::Stdout => "standard output"@,
        OutputStream::Stderr => "standard error"@,
    }
}

impl OutputStream {
    /// How the stream is named in messages.
    pub fn name(self) -> (r: &'static str)
        ensures
            r@ == stream_name(self),
    {
        match self {
            OutputStream::Stdout => "standard output",
            OutputStream::Stderr => "standard error",
        }
    }
}

/// A write or flush that failed, with the stream and the operating system's cause.
#[derive(Debug)]
pub struct OutputError {
    stream: OutputStream,
    source: std::io::Error,
}

impl OutputError {
    pub closed spec fn stream_value(&self) -> OutputStream {
        self.stream
    }

    pub closed spec fn source_value(&self) -> std::io::Error {
        self.source
    }

    pub fn new(stream: OutputStream, source: std::io::Error) -> (r: Self)
        ensures
            r.stream_value() == stream,
            r.source_value() == source,
    {
        OutputError { stream, source }
    }

    pub fn stream(&self) -> (r: OutputStream)
        ensures
            r == self.stream_value(),
    {
        self.stream
    }

    pub fn source_error(&self) -> (r: &std::io::Error)
        ensures
            *r == self.source_value(),
    {
        &self.source
    }

    /// What the failure says: `could not write to <stream>`.
    pub fn message(&self) -> (r: String)
        ensures
            r@ == "could not write to "@ + stream_name(self.stream_value()),
    {
        let mut text = String::new();
        text.append("could not write to ");
        text.append(self.stream.name());
        text
    }
}

} // verus!
