//! The closed set of supported input channel layouts.
//!
//! Each format declares how many channels a row carries and the permutation
//! mapping the i-th input value to its canonical RGBA slot (0 = R, 1 = G,
//! 2 = B, 3 = A).

use vstd::prelude::*;

verus! {

/// Error returned when a user-supplied format name is not recognised.
#[derive(Debug, Clone, PartialEq, Eq)]
pub enum TextureFormatError {
    UnsupportedTextureFormat(String),
}

/// A supported input channel layout.
#[derive(Debug, Clone, Copy, PartialEq, Eq, Structural)]
pub enum SupportedTextureFormats {
    Rgba8,
    Bgra8,
    Rgb8,
    Bgr8,
}

impl SupportedTextureFormats {
    /// The permutation from input field position to canonical RGBA slot.
    pub open spec fn spec_indices(self) -> Seq<usize> {
        match self {
            SupportedTextureFormats::Rgba8 => seq![0usize, 1usize, 2usize, 3usize],
            SupportedTextureFormats::Bgra8 => seq![2usize, 1usize, 0usize, 3usize],
            SupportedTextureFormats::Rgb8 => seq![0usize, 1usize, 2usize],
            SupportedTextureFormats::Bgr8 => seq![2usize, 1usize, 0usize],
        }
    }

    /// How many channel values a row of this format carries.
    pub open spec fn spec_channel_count(self) -> nat {
        match self {
            SupportedTextureFormats::Rgba8 => 4,
            SupportedTextureFormats::Bgra8 => 4,
            SupportedTextureFormats::Rgb8 => 3,
            SupportedTextureFormats::Bgr8 => 3,
        }
    }

    pub fn get_vec4_indices(&self) -> (r: Vec<usize>)
        ensures
            r@ == self.spec_indices(),
    {
        match self {
            SupportedTextureFormats::Rgba8 => {
                let v = vec![0usize, 1usize, 2usize, 3usize];
                assert(v@ =~= self.spec_indices());
                v
            },
            SupportedTextureFormats::Bgra8 => {
                let v = vec![2usize, 1usize, 0usize, 3usize];
                assert(v@ =~= self.spec_indices());
                v
            },
            SupportedTextureFormats::Rgb8 => {
                let v = vec![0usize, 1usize, 2usize];
                assert(v@ =~= self.spec_indices());
                v
            },
            SupportedTextureFormats::Bgr8 => {
                let v = vec![2usize, 1usize, 0usize];
                assert(v@ =~= self.spec_indices());
                v
            },
        }
    }

    pub fn get_buffer_len(&self) -> (r: usize)
        ensures
            r == self.spec_channel_count(),
    {
        match self {
            SupportedTextureFormats::Rgba8 => 4,
            SupportedTextureFormats::Bgra8 => 4,
            SupportedTextureFormats::Rgb8 => 3,
            SupportedTextureFormats::Bgr8 => 3,
        }
    }
}

impl Default for SupportedTextureFormats {
    /// The format assumed when none is named.
    fn default() -> (r: Self)
        ensures
            r == SupportedTextureFormats::Rgba8,
    {
        SupportedTextureFormats::Rgba8
    }
}

/// The code point of `c` with an ASCII upper-case letter folded to lower
/// case.
pub open spec fn lower_code(c: char) -> int {
    if 65 <= c as int && c as int <= 90 {
        c as int + 32
    } else {
        c as int
    }
}

/// Whether `s` equals the (lower-case) `name` up to ASCII case.
pub open spec fn matches_ignore_ascii_case(s: Seq<char>, name: Seq<char>) -> bool {
    s.len() == name.len() && forall|i: int|
        0 <= i < s.len() ==> lower_code(#[trigger] s[i]) == name[i] as int
}

#[verifier::loop_isolation(false)]
fn eq_ignore_ascii_case(s: &str, name: &str) -> (r: bool)
    ensures
        r == matches_ignore_ascii_case(s@, name@),
{
    let sl = s.unicode_len();
    let nl = name.unicode_len();
    if sl != nl {
        return false;
    }
    let mut i: usize = 0;
    while i < sl
        invariant
            0 <= i <= sl,
            forall|j: int| 0 <= j < i ==> lower_code(#[trigger] s@[j]) == name@[j] as int,
        decreases sl - i,
    {
        let c = s.get_char(i);
        let d = name.get_char(i);
        let cu = c as u32;
        let code: u32 = if cu >= 65 && cu <= 90 {
            cu + 32
        } else {
            cu
        };
        if code != d as u32 {
            return false;
        }
        i = i + 1;
    }
    true
}

impl SupportedTextureFormats {
    /// The name of the format, as it is listed and as `from_str` accepts it
    /// up to ASCII case.
    pub open spec fn spec_name(self) -> Seq<char> {
        match self {
            SupportedTextureFormats::Rgba8 => "Rgba8"@,
            SupportedTextureFormats::Bgra8 => "Bgra8"@,
            SupportedTextureFormats::Rgb8 => "Rgb8"@,
            SupportedTextureFormats::Bgr8 => "Bgr8"@,
        }
    }

    pub fn name(&self) -> (r: String)
        ensures
            r@ == self.spec_name(),
    {
        match self {
            SupportedTextureFormats::Rgba8 => String::from_str("Rgba8"),
            SupportedTextureFormats::Bgra8 => String::from_str("Bgra8"),
            SupportedTextureFormats::Rgb8 => String::from_str("Rgb8"),
            SupportedTextureFormats::Bgr8 => String::from_str("Bgr8"),
        }
    }

    /// Every supported format, in the order it is listed to the user.
    pub fn all_formats() -> (r: Vec<SupportedTextureFormats>)
        ensures
            r@ == seq![
                SupportedTextureFormats::Rgba8,
                SupportedTextureFormats::Bgra8,
                SupportedTextureFormats::Rgb8,
                SupportedTextureFormats::Bgr8,
            ],
    {
        let v = vec![
            SupportedTextureFormats::Rgba8,
            SupportedTextureFormats::Bgra8,
            SupportedTextureFormats::Rgb8,
            SupportedTextureFormats::Bgr8,
        ];
        assert(v@ =~= seq![
            SupportedTextureFormats::Rgba8,
            SupportedTextureFormats::Bgra8,
            SupportedTextureFormats::Rgb8,
            SupportedTextureFormats::Bgr8,
        ]);
        v
    }

    /// Select the format named by `s`, ignoring ASCII case; an unrecognised
    /// name is a configuration error carrying the offending string.
    pub fn from_str(s: &str) -> (r: Result<SupportedTextureFormats, TextureFormatError>)
        ensures
            r == Ok::<SupportedTextureFormats, TextureFormatError>(
                SupportedTextureFormats::Rgba8,
            ) <==> matches_ignore_ascii_case(s@, "rgba8"@),
            r == Ok::<SupportedTextureFormats, TextureFormatError>(
                SupportedTextureFormats::Bgra8,
            ) <==> matches_ignore_ascii_case(s@, "bgra8"@),
            r == Ok::<SupportedTextureFormats, TextureFormatError>(
                SupportedTextureFormats::Rgb8,
            ) <==> matches_ignore_ascii_case(s@, "rgb8"@),
            r == Ok::<SupportedTextureFormats, TextureFormatError>(
                SupportedTextureFormats::Bgr8,
            ) <==> matches_ignore_ascii_case(s@, "bgr8"@),
            r matches Err(e) ==> ({
                &&& !matches_ignore_ascii_case(s@, "rgba8"@)
                &&& !matches_ignore_ascii_case(s@, "bgra8"@)
                &&& !matches_ignore_ascii_case(s@, "rgb8"@)
                &&& !matches_ignore_ascii_case(s@, "bgr8"@)
                &&& e matches TextureFormatError::UnsupportedTextureFormat(t) && t@ == s@
            }),
    {
        proof {
            reveal_strlit("rgba8");
            reveal_strlit("bgra8");
            reveal_strlit("rgb8");
            reveal_strlit("bgr8");
        }
        if eq_ignore_ascii_case(s, "rgba8") {
            proof {
                if matches_ignore_ascii_case(s@, "bgra8"@) {
                    assert(lower_code(s@[0]) == "bgra8"@[0] as int);
                    assert(lower_code(s@[0]) == "rgba8"@[0] as int);
                }
            }
            Ok(SupportedTextureFormats::Rgba8)
        } else if eq_ignore_ascii_case(s, "bgra8") {
            Ok(SupportedTextureFormats::Bgra8)
        } else if eq_ignore_ascii_case(s, "rgb8") {
            proof {
                if matches_ignore_ascii_case(s@, "bgr8"@) {
                    assert(lower_code(s@[0]) == "bgr8"@[0] as int);
                    assert(lower_code(s@[0]) == "rgb8"@[0] as int);
                }
            }
            Ok(SupportedTextureFormats::Rgb8)
        } else if eq_ignore_ascii_case(s, "bgr8") {
            Ok(SupportedTextureFormats::Bgr8)
        } else {
            Err(TextureFormatError::UnsupportedTextureFormat(String::from_str(s)))
        }
    }
}

impl TextureFormatError {
    /// The user-facing description of the error.
    pub fn message(&self) -> (r: String)
        ensures
            self matches TextureFormatError::UnsupportedTextureFormat(t) ==> r@ == "Texture format `"@
                + t@ + "` is either unsupported or invalid."@,
    {
        match self {
            TextureFormatError::UnsupportedTextureFormat(t) => {
                let mut m = String::from_str("Texture format `");
                m.append(t.as_str());
                m.append("` is either unsupported or invalid.");
                m
            },
        }
    }
}

/// Every format's permutation has the declared channel count as its length,
/// stays within the four canonical slots, repeats no slot, and keeps the
/// alpha slot (if present) last, so the first three entries address R, G, B.
pub proof fn lemma_format_permutation(fmt: SupportedTextureFormats)
    ensures
        fmt.spec_indices().len() == fmt.spec_channel_count(),
        fmt.spec_channel_count() == 3 || fmt.spec_channel_count() == 4,
        forall|i: int|
            0 <= i < fmt.spec_indices().len() ==> #[trigger] fmt.spec_indices()[i] < fmt.spec_channel_count(),
        forall|i: int|
            0 <= i < fmt.spec_indices().len() && i < 3 ==> #[trigger] fmt.spec_indices()[i] < 3,
        forall|i: int, j: int|
            0 <= i < j < fmt.spec_indices().len() ==> fmt.spec_indices()[i] != fmt.spec_indices()[j],
{
}

} // verus!
