//! The error taxonomy of the compiler and its source-context rendering.
//!
//! Every resolution error carries the file path, the 1-based line, the
//! 0-based column, and a rendered snippet of the surrounding source lines.
use vstd::prelude::*;

use crate::text::{dec_str, split_lines, usize_to_string, split_lines_exec};

verus! {

/// The different kinds of errors that can occur while compiling.
#[derive(Debug)]
pub enum RCSSError {
    /// A file could not be read or written; raised outside the core.
    IoError { message: String },
    /// The grammar front end rejected the source text.
    ParseError {
        file_path: String,
        line: usize,
        column: usize,
        message: String,
        context: String,
    },
    /// A file failed to compile for a reason with no finer classification.
    CompilationError { file_path: String, message: String },
    /// The command line was invalid; raised outside the core.
    ConfigError { message: String },
    /// An import path did not name a cached file.
    ImportError {
        file_path: String,
        import_path: String,
        line: usize,
        column: usize,
        message: String,
        context: String,
    },
    /// A declaration referenced a variable that is not in scope.
    VariableError {
        file_path: String,
        variable_name: String,
        line: usize,
        column: usize,
        message: String,
        context: String,
    },
    /// A rule body invoked a function that is not in scope.
    FunctionError {
        file_path: String,
        line: usize,
        column: usize,
        function_name: String,
        message: String,
        context: String,
    },
}

/// The lines of the snippet around `error_line`, joined with line feeds:
/// from `context_lines` above it through `context_lines - 1` below it,
/// clamped to the file.
pub open spec fn join_lines_nl(lines: Seq<Seq<char>>, i: int, end: int) -> Seq<char>
    decreases end - i,
{
    if i < 0 || i >= end || end > lines.len() {
        Seq::empty()
    } else {
        lines[i] + seq!['\n'] + join_lines_nl(lines, i + 1, end)
    }
}

/// The rendered source context around a 1-based error line.
pub open spec fn error_context_spec(s: Seq<char>, error_line: int, context_lines: int) -> Seq<
    char,
> {
    let lines = split_lines(s);
    let start = if error_line >= context_lines {
        error_line - context_lines
    } else {
        0
    };
    let end = if error_line + context_lines <= lines.len() {
        error_line + context_lines
    } else {
        lines.len() as int
    };
    join_lines_nl(lines, start, end)
}

/// The source lines around `error_line`, each followed by a line feed.
pub fn get_error_context(file_content: &str, error_line: usize, context_lines: usize) -> (r:
    String)
    requires
        error_line + context_lines <= usize::MAX,
    ensures
        r@ == error_context_spec(file_content@, error_line as int, context_lines as int),
{
    let lines = split_lines_exec(file_content);
    let start: usize = if error_line >= context_lines {
        error_line - context_lines
    } else {
        0
    };
    let end_raw: usize = error_line + context_lines;
    let end: usize = if end_raw <= lines.len() {
        end_raw
    } else {
        lines.len()
    };
    let mut ctx = String::new();
    let mut i: usize = start;
    if i > end {
        return ctx;
    }
    while i < end
        invariant
            start <= i <= end,
            end <= lines.len(),
            lines.deep_view().len() == lines.len(),
            ctx@ + join_lines_nl(lines.deep_view(), i as int, end as int) == join_lines_nl(
                lines.deep_view(),
                start as int,
                end as int,
            ),
        decreases end - i,
    {
        ctx.append(lines[i].as_str());
        ctx.append("\n");
        proof {
            reveal_strlit("\n");
            assert("\n"@ =~= seq!['\n']);
            assert(lines.deep_view()[i as int] == lines@[i as int]@);
        }
        i = i + 1;
    }
    proof {
        assert(ctx@ + join_lines_nl(lines.deep_view(), end as int, end as int) =~= ctx@);
    }
    ctx
}

/// The one-line description of an error, over the views of its fields.
pub open spec fn display_spec(e: RCSSError) -> Seq<char> {
    match e {
        RCSSError::IoError { message } => "IO Error: "@ + message@,
        RCSSError::ParseError { file_path, line, column, message, context } => "Parse Error at "@
            + file_path@ + ":"@ + dec_str(line as int) + ":"@ + dec_str(column as int) + " - "@
            + message@ + " (Context: "@ + context@ + ")"@,
        RCSSError::CompilationError { file_path, message } => "Compilation Error in "@ + file_path@
            + " - "@ + message@,
        RCSSError::ConfigError { message } => "Configuration Error: "@ + message@,
        RCSSError::ImportError { file_path, import_path, line, column, message, context } =>
            "Import Error in "@ + file_path@ + " importing '"@ + import_path@ + "' - "@ + message@,
        RCSSError::VariableError { file_path, variable_name, line, column, message, context } =>
            "Variable Error in "@ + file_path@ + " for '"@ + variable_name@ + "' - "@ + message@,
        RCSSError::FunctionError { file_path, line, column, function_name, message, context } =>
            "Function Error for func: "@ + function_name@ + " at "@ + file_path@ + ":"@ + dec_str(
            line as int,
        ) + ":"@ + dec_str(column as int) + " - "@ + message@ + " (Context: "@ + context@ + ")"@,
    }
}

impl RCSSError {
    /// A one-line rendering of the error, fit for a console or a log.
    pub fn to_display_string(&self) -> (r: String)
        ensures
            r@ == display_spec(*self),
    {
        let mut r = String::new();
        match self {
            RCSSError::IoError { message } => {
                r.append("IO Error: ");
                r.append(message.as_str());
            },
            RCSSError::ParseError { file_path, line, column, message, context } => {
                r.append("Parse Error at ");
                r.append(file_path.as_str());
                r.append(":");
                let l = usize_to_string(*line);
                r.append(l.as_str());
                r.append(":");
                let c = usize_to_string(*column);
                r.append(c.as_str());
                r.append(" - ");
                r.append(message.as_str());
                r.append(" (Context: ");
                r.append(context.as_str());
                r.append(")");
            },
            RCSSError::CompilationError { file_path, message } => {
                r.append("Compilation Error in ");
                r.append(file_path.as_str());
                r.append(" - ");
                r.append(message.as_str());
            },
            RCSSError::ConfigError { message } => {
                r.append("Configuration Error: ");
                r.append(message.as_str());
            },
            RCSSError::ImportError { file_path, import_path, line, column, message, context } => {
                r.append("Import Error in ");
                r.append(file_path.as_str());
                r.append(" importing '");
                r.append(import_path.as_str());
                r.append("' - ");
                r.append(message.as_str());
            },
            RCSSError::VariableError {
                file_path,
                variable_name,
                line,
                column,
                message,
                context,
            } => {
                r.append("Variable Error in ");
                r.append(file_path.as_str());
                r.append(" for '");
                r.append(variable_name.as_str());
                r.append("' - ");
                r.append(message.as_str());
            },
            RCSSError::FunctionError {
                file_path,
                line,
                column,
                function_name,
                message,
                context,
            } => {
                r.append("Function Error for func: ");
                r.append(function_name.as_str());
                r.append(" at ");
                r.append(file_path.as_str());
                r.append(":");
                let l = usize_to_string(*line);
                r.append(l.as_str());
                r.append(":");
                let c = usize_to_string(*column);
                r.append(c.as_str());
                r.append(" - ");
                r.append(message.as_str());
                r.append(" (Context: ");
                r.append(context.as_str());
                r.append(")");
            },
        }
        r
    }
}

} // verus!
