//! Stack frames, before and after symbols were found for them.

use crate::text;
use vstd::prelude::*;
use vstd::string::StringExecFns;

verus! {

/// Identifies an executable.
#[derive(Debug, Clone, Copy, PartialEq, Eq, Hash)]
pub struct FileId(pub u128);

impl FileId {
    /// The ID as text: 32 lower-case hexadecimal digits.
    pub open spec fn spec_hex(self) -> Seq<char> {
        text::hex(self.0 as int, 32)
    }

    /// Formats the ID as 32 lower-case hexadecimal digits.
    pub fn format_hex(self) -> (hex: String)
        ensures
            hex@ == self.spec_hex(),
    {
        let mut hex = String::new();
        text::push_hex(&mut hex, self.0, 32);
        assert(hex@ =~= self.spec_hex());
        hex
    }
}

/// Identifies a code location: a place in an executable.
#[derive(Debug, Clone, Copy, PartialEq, Eq, Hash)]
pub struct FrameId {
    /// The executable or script.
    pub file_id: FileId,
    /// An address in native code, or whatever an interpreter identifies its lines by.
    pub addr_or_line: u64,
}

/// What runs the code of a frame.
#[derive(Debug, Clone, Copy, PartialEq, Eq, Hash)]
pub enum InterpKind {
    /// The processor itself.
    Native,
    /// Anything else, by its number.
    Other(u8),
}

/// The kind of a frame.
#[derive(Debug, Clone, Copy, PartialEq, Eq, Hash)]
pub enum FrameKind {
    /// A frame of running code.
    Regular(InterpKind),
    /// Any other frame, such as one that marks an unwinding error, with what runs its code
    /// where that is known.
    Special(Option<InterpKind>),
}

impl FrameKind {
    /// What runs the code of a frame of this kind, where that is known.
    pub open spec fn spec_interp(self) -> Option<InterpKind> {
        match self {
            FrameKind::Regular(interp) => Some(interp),
            FrameKind::Special(interp) => interp,
        }
    }

    /// What runs the code of a frame of this kind, where that is known.
    pub fn interp(self) -> (interp: Option<InterpKind>)
        ensures
            interp == self.spec_interp(),
    {
        match self {
            FrameKind::Regular(interp) => Some(interp),
            FrameKind::Special(interp) => interp,
        }
    }
}

/// Raw frame, as it was recorded.
#[derive(Debug, Clone, Copy, PartialEq, Eq, Hash)]
pub struct Frame {
    pub id: FrameId,
    pub kind: FrameKind,
}

/// What is recorded of a frame of interpreted code.
#[derive(Debug)]
pub struct StackFrame {
    pub function_name: Option<String>,
    pub file_name: Option<String>,
    /// The line number, 0 if unknown.
    pub line_number: u64,
}

/// What is recorded of an executable.
#[derive(Debug)]
pub struct Executable {
    pub file_name: Option<String>,
}

/// Frame with corresponding symbol information.
#[derive(Debug)]
pub struct SymbolizedFrame {
    /// Raw frame info.
    pub raw: Frame,
    /// Function name, if known.
    pub func: Option<String>,
    /// File name, if known.
    pub file: Option<String>,
    /// Line number, if known.
    pub line_no: Option<u32>,
}

/// The characters of an optional string.
pub open spec fn chars(string: Option<String>) -> Option<Seq<char>> {
    match string {
        Some(string) => Some(string@),
        None => None,
    }
}

/// Frame with corresponding symbol information, its names as plain characters.
pub struct SymbolizedFrameView {
    pub raw: Frame,
    pub func: Option<Seq<char>>,
    pub file: Option<Seq<char>>,
    pub line_no: Option<u32>,
}

impl View for SymbolizedFrame {
    type V = SymbolizedFrameView;

    open spec fn view(&self) -> SymbolizedFrameView {
        SymbolizedFrameView {
            raw: self.raw,
            func: chars(self.func),
            file: chars(self.file),
            line_no: self.line_no,
        }
    }
}

/// A frame of which nothing but its raw form is known.
pub open spec fn spec_unsymbolized(raw: Frame) -> SymbolizedFrameView {
    SymbolizedFrameView { raw, func: None, file: None, line_no: None }
}

/// How a frame is printed. Native frames are led by the name of their executable, or by its ID
/// where it has none. This is not done for other frames because their file IDs do not
/// correspond to any executable. Then comes the function with the file and the line, as far as they
/// are known, or the bare address where the function is not.
pub open spec fn display_text(
    frame: SymbolizedFrameView,
    executable: Option<Executable>,
) -> Seq<char> {
    let native = frame.raw.kind.spec_interp() == Some(InterpKind::Native);
    let lead = if native {
        match executable {
            Some(Executable { file_name: Some(name) }) => name@,
            _ => frame.raw.id.file_id.spec_hex(),
        }
    } else {
        Seq::empty()
    };
    let location = match frame.func {
        Some(func) => {
            let separator = if native {
                ": "@
            } else {
                Seq::empty()
            };
            let file = match frame.file {
                Some(file) => " in "@ + file,
                None => Seq::empty(),
            };
            let line = match frame.line_no {
                Some(line) => ":"@ + text::decimal(line as nat),
                None => Seq::empty(),
            };
            separator + func + file + line
        },
        None => "+0x"@ + text::hex(frame.raw.id.addr_or_line as int, 16),
    };
    lead + location
}

impl SymbolizedFrame {
    /// Create a fully unsymbolized frame.
    pub fn unsymbolized(raw: Frame) -> (frame: Self)
        ensures
            frame@ == spec_unsymbolized(raw),
    {
        SymbolizedFrame { raw, func: None, file: None, line_no: None }
    }

    /// The frame as text, where `executable` is what is recorded of the frame's executable.
    pub fn display(&self, executable: Option<&Executable>) -> (shown: String)
        ensures
            shown@ == display_text(
                self@,
                match executable {
                    Some(executable) => Some(*executable),
                    None => None,
                },
            ),
    {
        let mut f = String::new();
        let native = matches!(self.raw.kind.interp(), Some(InterpKind::Native));
        if native {
            match executable {
                Some(Executable { file_name: Some(name) }) => {
                    f.append(name.as_str());
                },
                _ => {
                    let hex = self.raw.id.file_id.format_hex();
                    f.append(hex.as_str());
                },
            }
        }
        match &self.func {
            Some(func) => {
                if native {
                    f.append(": ");
                }
                f.append(func.as_str());
                if let Some(file) = &self.file {
                    f.append(" in ");
                    f.append(file.as_str());
                }
                if let Some(line) = &self.line_no {
                    f.append(":");
                    text::push_decimal(&mut f, *line as u64);
                }
            },
            None => {
                f.append("+0x");
                text::push_hex(&mut f, self.raw.id.addr_or_line as u128, 16);
            },
        }
        f
    }
}

} // verus!
