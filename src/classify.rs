//! File classification by extension, with a content sniff as fallback.

use vstd::prelude::*;
use crate::strs::str_eq;
use crate::types::FileType;

verus! {

/// Extensions read as plain text, source code or configuration.
pub open spec fn is_text_extension(e: Seq<char>) -> bool {
    e == "txt"@ || e == "md"@ || e == "log"@ || e == "rst"@ || e == "json"@ || e == "yaml"@
        || e == "yml"@ || e == "toml"@ || e == "ini"@ || e == "cfg"@ || e == "xml"@ || e == "html"@
        || e == "css"@ || e == "rs"@ || e == "py"@ || e == "js"@ || e == "ts"@ || e == "java"@
        || e == "c"@ || e == "cpp"@ || e == "h"@ || e == "hpp"@ || e == "go"@ || e == "sh"@
        || e == "sql"@
}

/// The kind that an extension alone decides, if any.
pub open spec fn spec_type_of_extension(e: Seq<char>) -> Option<FileType> {
    if e == "csv"@ {
        Some(FileType::Csv)
    } else if e == "tsv"@ || e == "tab"@ {
        Some(FileType::Tsv)
    } else if e == "xls"@ || e == "xlsx"@ || e == "xlsm"@ || e == "ods"@ {
        Some(FileType::Excel)
    } else if is_text_extension(e) {
        Some(FileType::Text)
    } else {
        None
    }
}

fn text_extension(e: &str) -> (r: bool)
    ensures
        r == is_text_extension(e@),
{
    str_eq(e, "txt") || str_eq(e, "md") || str_eq(e, "log") || str_eq(e, "rst") || str_eq(e, "json")
        || str_eq(e, "yaml") || str_eq(e, "yml") || str_eq(e, "toml") || str_eq(e, "ini") || str_eq(
        e,
        "cfg",
    ) || str_eq(e, "xml") || str_eq(e, "html") || str_eq(e, "css") || str_eq(e, "rs") || str_eq(
        e,
        "py",
    ) || str_eq(e, "js") || str_eq(e, "ts") || str_eq(e, "java") || str_eq(e, "c") || str_eq(e, "cpp")
        || str_eq(e, "h") || str_eq(e, "hpp") || str_eq(e, "go") || str_eq(e, "sh") || str_eq(e, "sql")
}

/// The kind of a file from its lower-case extension, when that decides it.
pub fn type_of_extension(ext: &str) -> (r: Option<FileType>)
    ensures
        r == spec_type_of_extension(ext@),
{
    if str_eq(ext, "csv") {
        Some(FileType::Csv)
    } else if str_eq(ext, "tsv") || str_eq(ext, "tab") {
        Some(FileType::Tsv)
    } else if str_eq(ext, "xls") || str_eq(ext, "xlsx") || str_eq(ext, "xlsm") || str_eq(ext, "ods") {
        Some(FileType::Excel)
    } else if text_extension(ext) {
        Some(FileType::Text)
    } else {
        None
    }
}

/// A byte that plain text does not hold: a control byte other than tab,
/// newline, form feed and carriage return.
pub open spec fn is_control(b: u8) -> bool {
    (b < 32 && b != 9 && b != 10 && b != 12 && b != 13) || b == 127
}

pub open spec fn count_control(s: Seq<u8>) -> nat
    decreases s.len(),
{
    if s.len() == 0 {
        0
    } else {
        count_control(s.drop_last()) + if is_control(s.last()) {
            1nat
        } else {
            0nat
        }
    }
}

/// A sample reads as text when it holds no zero byte and at most one
/// control byte in ten.
pub open spec fn spec_looks_like_text(s: Seq<u8>) -> bool {
    !s.contains(0u8) && 10 * count_control(s) <= s.len()
}

/// Classifies the first bytes of a file: text or binary.
pub fn sniff_type(sample: &[u8]) -> (r: FileType)
    ensures
        r == (if spec_looks_like_text(sample@) {
            FileType::Text
        } else {
            FileType::Binary
        }),
{
    let mut controls: usize = 0;
    let mut zero = false;
    for i in 0..sample.len()
        invariant
            controls == count_control(sample@.take(i as int)),
            controls <= i,
            zero == sample@.take(i as int).contains(0u8),
    {
        assert(sample@.take(i + 1).drop_last() =~= sample@.take(i as int));
        assert(sample@.take(i + 1).last() == sample@[i as int]);
        let b = sample[i];
        if (b < 32 && b != 9 && b != 10 && b != 12 && b != 13) || b == 127 {
            controls += 1;
        }
        if b == 0 {
            zero = true;
            assert(sample@.take(i + 1)[i as int] == 0u8);
        } else if !zero {
            assert forall|k: int| 0 <= k < i + 1 implies #[trigger] sample@.take(i + 1)[k] != 0u8 by {
                if k < i {
                    assert(sample@.take(i + 1)[k] == sample@.take(i as int)[k]);
                }
            }
        } else {
            proof {
                let k = choose|k: int| 0 <= k < i && sample@.take(i as int)[k] == 0u8;
                assert(sample@.take(i + 1)[k] == 0u8);
            }
        }
    }
    assert(sample@.take(sample.len() as int) =~= sample@);
    assert(10 * controls <= sample.len() <==> controls <= sample.len() / 10);
    if !zero && controls <= sample.len() / 10 {
        FileType::Text
    } else {
        FileType::Binary
    }
}

} // verus!
