//! The options of the program, and what follows from them.

use vstd::prelude::*;
use crate::names::{expand_pattern, expanded, extension, extension_of, file_stem, stem_of};

verus! {

/// The options of the program, but for the alpha floor, which goes into the tone curve.
#[derive(Debug)]
pub struct App {
    /// Input image files or directories.
    pub inputs: Vec<String>,
    /// Single output file path; requires exactly one input.
    pub output_file: Option<String>,
    /// Output naming pattern: `{stem}` is the name of the input file without its extension,
    /// `{ext}` is its extension.
    pub pattern: String,
    /// Output directory for batch processing.
    pub output_dir: Option<String>,
    pub verbose: bool,
    pub crop: bool,
    pub stdin: bool,
    pub stdout: bool,
    pub http: bool,
    pub address: String,
    pub port: u16,
    pub model: String,
    pub tile: bool,
}

/// Why options do not go together.
#[derive(Debug, Clone, Copy, PartialEq, Eq)]
pub enum UsageError {
    /// Pictures are to be read from the standard input and from files.
    StdinWithInputs,
    /// The result is to go to the standard output and to a file.
    StdoutWithOutputFile,
    /// A single output file needs exactly one input.
    OutputFileNeedsOneInput,
}

/// Where a result is stored.
#[derive(Debug)]
pub enum Destination {
    /// In the file with this path.
    File(String),
    /// In the directory with the first path, under the second name.
    Directory(String, String),
}

/// What kind of work the options ask for.
#[derive(Debug, Clone, Copy, PartialEq, Eq)]
pub enum Mode {
    /// Serve requests over HTTP.
    Http,
    /// Process one picture from the standard input.
    Stdin,
    /// Process files.
    Batch,
}

impl App {
    /// What is wrong with the options, if anything; of several faults, the first.
    pub open spec fn fault(&self) -> Option<UsageError> {
        if self.stdin && self.inputs@.len() > 0 {
            Some(UsageError::StdinWithInputs)
        } else if self.stdout && self.output_file is Some {
            Some(UsageError::StdoutWithOutputFile)
        } else if self.output_file is Some && self.inputs@.len() != 1 {
            Some(UsageError::OutputFileNeedsOneInput)
        } else {
            None
        }
    }

    /// Tells whether the options go together.
    pub fn check(&self) -> (result: Result<(), UsageError>)
        ensures
            result is Ok <==> self.fault() is None,
            result matches Err(e) ==> self.fault() == Some(e),
    {
        if self.stdin && self.inputs.len() > 0 {
            Err(UsageError::StdinWithInputs)
        } else if self.stdout && self.output_file.is_some() {
            Err(UsageError::StdoutWithOutputFile)
        } else if self.output_file.is_some() && self.inputs.len() != 1 {
            Err(UsageError::OutputFileNeedsOneInput)
        } else {
            Ok(())
        }
    }

    /// The kind of work: a server comes before the standard input, and that before files.
    pub fn mode(&self) -> (mode: Mode)
        ensures
            mode == (if self.http {
                Mode::Http
            } else if self.stdin {
                Mode::Stdin
            } else {
                Mode::Batch
            }),
    {
        if self.http {
            Mode::Http
        } else if self.stdin {
            Mode::Stdin
        } else {
            Mode::Batch
        }
    }

    /// The directory for results: the one that was asked for; otherwise a directory of their
    /// own if the inputs are directories or left out, and the current directory if all inputs
    /// are files.
    pub open spec fn result_directory(&self, any_directory: bool) -> Seq<char> {
        match self.output_dir {
            Some(directory) => directory@,
            None => if self.inputs@.len() == 0 || any_directory {
                "output_images"@
            } else {
                "."@
            },
        }
    }

    /// Where the result for the input file `file_name` is stored. `any_directory` tells whether
    /// one of the inputs is a directory.
    pub fn destination(&self, file_name: &str, any_directory: bool) -> (destination: Destination)
        ensures
            match self.output_file {
                Some(path) => destination matches Destination::File(p) && p@ == path@,
                None => destination matches Destination::Directory(directory, name) && directory@
                    == self.result_directory(any_directory) && name@ == expanded(
                    self.pattern@,
                    stem_of(file_name@),
                    match extension_of(file_name@) {
                        Some(ext) => ext,
                        None => Seq::empty(),
                    },
                ),
            },
    {
        match &self.output_file {
            Some(path) => Destination::File(path.clone()),
            None => {
                let stem: String = file_stem(file_name);
                let ext: String = match extension(file_name) {
                    Some(ext) => ext,
                    None => String::new(),
                };
                let name: String = expand_pattern(
                    self.pattern.as_str(),
                    stem.as_str(),
                    ext.as_str(),
                );
                let directory: String = match &self.output_dir {
                    Some(directory) => directory.clone(),
                    None => if self.inputs.len() == 0 || any_directory {
                        "output_images".to_owned()
                    } else {
                        ".".to_owned()
                    },
                };
                Destination::Directory(directory, name)
            },
        }
    }
}

/// Which options do not go together: pictures from the standard input and from files, a result
/// on the standard output and in a file, and a single output file for any number of inputs but
/// one.
pub proof fn law_options_that_do_not_go_together(app: &App)
    ensures
        app.fault() is None <==> {
            &&& !(app.stdin && app.inputs@.len() > 0)
            &&& !(app.stdout && app.output_file is Some)
            &&& app.output_file is Some ==> app.inputs@.len() == 1
        },
        app.fault() == Some(UsageError::StdinWithInputs) <==> app.stdin && app.inputs@.len() > 0,
        app.fault() == Some(UsageError::StdoutWithOutputFile) <==> !(app.stdin && app.inputs@.len()
            > 0) && app.stdout && app.output_file is Some,
        app.fault() == Some(UsageError::OutputFileNeedsOneInput) ==> app.output_file is Some
            && app.inputs@.len() != 1,
{
}

/// Results go to the directory that was asked for. Otherwise they go to a directory of their own
/// where no input is given or one of the inputs is a directory, and else to the current one.
pub proof fn law_where_results_go(app: &App, any_directory: bool)
    ensures
        app.output_dir matches Some(directory) ==> app.result_directory(any_directory)
            == directory@,
        app.output_dir is None && app.inputs@.len() == 0 ==> app.result_directory(any_directory)
            == "output_images"@,
        app.output_dir is None && any_directory ==> app.result_directory(any_directory)
            == "output_images"@,
        app.output_dir is None && app.inputs@.len() > 0 && !any_directory ==> app.result_directory(
            any_directory,
        ) == "."@,
{
}

} // verus!
