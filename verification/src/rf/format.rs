//! Formats of IQ samples.

use crate::rf::error::{RfError, RfResult};
use vstd::prelude::*;
use vstd::string::StringExecFns;

verus! {

/// Format of a complex sample.
#[derive(Debug, Clone, Copy, PartialEq, Eq, Structural)]
pub enum SampleFormat {
    /// Two signed integers of 8 bits.
    I8,
    /// Two signed integers of 16 bits.
    I16,
    /// Two floating-point numbers of 32 bits.
    F32,
}

/// Bytes of one complex sample.
pub open spec fn sample_bytes(format: SampleFormat) -> int {
    match format {
        SampleFormat::I8 => 2,
        SampleFormat::I16 => 4,
        SampleFormat::F32 => 8,
    }
}

/// A character with the letters A to Z made small.
pub open spec fn ascii_lower(c: char) -> char {
    if 'A' <= c && c <= 'Z' {
        (c as u32 + 32) as char
    } else {
        c
    }
}

/// A text with the letters A to Z made small.
pub open spec fn ascii_lowered(text: Seq<char>) -> Seq<char> {
    Seq::new(text.len(), |i: int| ascii_lower(text[i]))
}

/// The format that a name in small letters stands for.
pub open spec fn format_named(name: Seq<char>) -> Option<SampleFormat> {
    if name == "i8"@ || name == "sc8"@ || name == "int8"@ {
        Some(SampleFormat::I8)
    } else if name == "i16"@ || name == "sc16"@ || name == "int16"@ {
        Some(SampleFormat::I16)
    } else if name == "f32"@ || name == "fc32"@ || name == "float32"@ {
        Some(SampleFormat::F32)
    } else {
        None
    }
}

/// `str::to_ascii_lowercase`: a copy with the letters A to Z mapped to a to z and
/// everything else unchanged.
#[verifier::external_body]
fn to_ascii_lowercase(text: &str) -> (lowered: String)
    ensures
        lowered@ == ascii_lowered(text@),
{
    text.to_ascii_lowercase()
}

/// Whether two texts are equal.
fn same_text(a: &String, b: &str) -> (same: bool)
    ensures
        same <==> a@ == b@,
{
    *a == String::from_str(b)
}

impl SampleFormat {
    /// Bytes of one complex sample.
    pub fn bytes_per_complex_sample(self) -> (bytes: usize)
        ensures
            bytes == sample_bytes(self),
    {
        match self {
            SampleFormat::I8 => 2,
            SampleFormat::I16 => 4,
            SampleFormat::F32 => 8,
        }
    }

    /// The format with the given name, in small or capital letters: `i8`, `sc8`
    /// or `int8`; `i16`, `sc16` or `int16`; `f32`, `fc32` or `float32`.
    pub fn parse(name: &str) -> (format: RfResult<SampleFormat>)
        ensures
            format is Ok <==> format_named(ascii_lowered(name@)) is Some,
            format matches Ok(f) ==> format_named(ascii_lowered(name@)) == Some(f),
            format matches Err(e) ==> e is UnsupportedFormat && e->UnsupportedFormat_0@
                == ascii_lowered(name@),
    {
        let lowered = to_ascii_lowercase(name);
        if same_text(&lowered, "i8") || same_text(&lowered, "sc8") || same_text(&lowered, "int8") {
            Ok(SampleFormat::I8)
        } else if same_text(&lowered, "i16") || same_text(&lowered, "sc16") || same_text(
            &lowered,
            "int16",
        ) {
            Ok(SampleFormat::I16)
        } else if same_text(&lowered, "f32") || same_text(&lowered, "fc32") || same_text(
            &lowered,
            "float32",
        ) {
            Ok(SampleFormat::F32)
        } else {
            Err(RfError::UnsupportedFormat(lowered))
        }
    }
}

impl std::str::FromStr for SampleFormat {
    type Err = RfError;

    fn from_str(name: &str) -> (format: RfResult<SampleFormat>)
        ensures
            format is Ok <==> format_named(ascii_lowered(name@)) is Some,
            format matches Ok(f) ==> format_named(ascii_lowered(name@)) == Some(f),
            format matches Err(e) ==> e is UnsupportedFormat && e->UnsupportedFormat_0@
                == ascii_lowered(name@),
    {
        SampleFormat::parse(name)
    }
}

/// Capital letters count as small ones in the name of a format, and nothing else
/// does.
pub proof fn law_capital_letters_count_as_small(name: Seq<char>, i: int)
    requires
        0 <= i < name.len(),
    ensures
        ascii_lowered(name).len() == name.len(),
        ascii_lowered(ascii_lowered(name)) == ascii_lowered(name),
        'A' <= name[i] <= 'Z' ==> ascii_lowered(name)[i] as u32 == name[i] as u32 + 32,
        !('A' <= name[i] <= 'Z') ==> ascii_lowered(name)[i] == name[i],
{
    let once = ascii_lowered(name);
    assert forall|j: int| 0 <= j < name.len() implies #[trigger] ascii_lower(once[j]) == once[j] by {
        assert(once[j] == ascii_lower(name[j]));
    }
    assert(ascii_lowered(once) =~= once);
}

/// Each format has three names and no other, and a sample of it holds two parts of 8,
/// 16 or 32 bits.
pub proof fn law_formats_have_three_names(name: Seq<char>)
    ensures
        format_named(name) == Some(SampleFormat::I8) <==> name == "i8"@ || name == "sc8"@ || name
            == "int8"@,
        format_named(name) == Some(SampleFormat::I16) <==> name == "i16"@ || name == "sc16"@ || name
            == "int16"@,
        format_named(name) == Some(SampleFormat::F32) <==> name == "f32"@ || name == "fc32"@ || name
            == "float32"@,
        8 * sample_bytes(SampleFormat::I8) == 2 * 8,
        8 * sample_bytes(SampleFormat::I16) == 2 * 16,
        8 * sample_bytes(SampleFormat::F32) == 2 * 32,
{
    reveal_strlit("i8");
    reveal_strlit("sc8");
    reveal_strlit("int8");
    reveal_strlit("i16");
    reveal_strlit("sc16");
    reveal_strlit("int16");
    reveal_strlit("f32");
    reveal_strlit("fc32");
    reveal_strlit("float32");
    let a = "i8"@;
    let b = "sc8"@;
    let c = "int8"@;
    let d = "i16"@;
    let e = "sc16"@;
    let f = "int16"@;
    let g = "f32"@;
    let h = "fc32"@;
    let k = "float32"@;
    assert(a[0] == 'i' && b[0] == 's' && c[0] == 'i' && d[0] == 'i' && e[0] == 's' && f[0] == 'i'
        && g[0] == 'f' && h[0] == 'f' && k[0] == 'f');
    assert(a.len() == 2 && b.len() == 3 && c.len() == 4 && d.len() == 3 && e.len() == 4 && f.len()
        == 5);
}

} // verus!
