//! What can go wrong.

use vstd::prelude::*;
use vstd::string::*;
use crate::path::{path_text, FilePath};

verus! {

#[derive(Debug)]
pub enum Failure {
    /// The path to work on is not an existing directory.
    NotADirectory(FilePath),
    /// The directory to scan is not an existing directory.
    CannotScan(FilePath),
    /// The manifest that was asked for does not exist.
    HashfileNotFound(FilePath),
    /// A manifest's path has no directory.
    NoParentDir,
    /// The log to undo does not exist.
    LogNotFound,
    /// The log to undo is not well-formed, for the reason that is given.
    MalformedLog(String),
}

pub open spec fn message(e: Failure) -> Seq<char> {
    match e {
        Failure::NotADirectory(p) => "Path does not exist or is not a directory: "@ + path_text(p@),
        Failure::CannotScan(p) => "路径不存在或不是目录: "@ + path_text(p@),
        Failure::HashfileNotFound(p) => "Hashfile not found: "@ + path_text(p@),
        Failure::NoParentDir => "No parent dir"@,
        Failure::LogNotFound => "Log not found"@,
        Failure::MalformedLog(why) => why@,
    }
}

impl Failure {
    pub fn to_text(&self) -> (r: String)
        ensures
            r@ == message(*self),
    {
        match self {
            Failure::NotADirectory(p) => {
                let mut s = "Path does not exist or is not a directory: ".to_string();
                s.append(p.text().as_str());
                s
            },
            Failure::CannotScan(p) => {
                let mut s = "路径不存在或不是目录: ".to_string();
                s.append(p.text().as_str());
                s
            },
            Failure::HashfileNotFound(p) => {
                let mut s = "Hashfile not found: ".to_string();
                s.append(p.text().as_str());
                s
            },
            Failure::NoParentDir => "No parent dir".to_string(),
            Failure::LogNotFound => "Log not found".to_string(),
            Failure::MalformedLog(why) => why.clone(),
        }
    }
}

} // verus!
