//! The format enumeration, the argument sets of the two ledger operations and
//! the rule on file extensions.
use crate::text::spells;
use crate::text::str_chars;
use vstd::prelude::*;

verus! {

/// The three representations of a ledger.
#[derive(Debug, Clone, Copy, PartialEq, Eq, Structural)]
pub enum DataFormat {
    Bin,
    Csv,
    Txt,
}

/// Arguments of a conversion: the input file, its format and the format to
/// write.
#[derive(Debug)]
pub struct CliArgs {
    pub input: String,
    pub input_format: DataFormat,
    pub output_format: DataFormat,
}

/// Whether `extension` names one of the three representations.
pub open spec fn supported_extension(extension: Seq<char>) -> bool {
    extension == "bin"@ || extension == "csv"@ || extension == "txt"@
}

/// Tests a file extension, given without its dot, against the three that are
/// accepted: `bin`, `csv` and `txt`.
pub fn extension_supported(extension: &str) -> (r: bool)
    ensures
        r == supported_extension(extension@),
{
    let chars = str_chars(extension);
    spells(&chars, "bin") || spells(&chars, "csv") || spells(&chars, "txt")
}

} // verus!
