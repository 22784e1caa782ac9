use vstd::prelude::*;

use crate::image::FrameType;

verus! {

#[verifier::external_type_specification]
#[verifier::external_body]
pub struct ExPathBuf(std::path::PathBuf);

/// What `str::to_lowercase` makes of a text.
pub uninterp spec fn lower_of(s: Seq<char>) -> Seq<char>;

/// Relies on `str::to_lowercase`: the lower-case form depends on the
/// characters alone, and the empty text stays empty.
#[verifier::external_body]
fn lowercase(s: &str) -> (r: String)
    ensures
        r@ == lower_of(s@),
        s@.len() == 0 ==> r@.len() == 0,
{
    s.to_lowercase()
}

/// Whether `a` holds exactly the text `b`.
fn same_text(a: &String, b: &str) -> (r: bool)
    ensures
        r == (a@ == b@),
{
    *a == b.to_owned()
}

/// Display name of a frame role.
pub open spec fn role_label(t: FrameType) -> Seq<char> {
    match t {
        FrameType::Light => "Light"@,
        FrameType::Dark => "Dark"@,
        FrameType::Flat => "Flat"@,
        FrameType::Bias => "Bias"@,
        FrameType::DarkFlat => "Dark Flat"@,
    }
}

/// Header value under which a frame role is stored.
pub open spec fn role_keyword(t: FrameType) -> Seq<char> {
    match t {
        FrameType::Light => "LIGHT"@,
        FrameType::Dark => "DARK"@,
        FrameType::Flat => "FLAT"@,
        FrameType::Bias => "BIAS"@,
        FrameType::DarkFlat => "DARKFLAT"@,
    }
}

/// Frame role named by an already lower-cased header value; anything
/// unrecognised counts as a light frame.
pub open spec fn role_of_lowered(s: Seq<char>) -> FrameType {
    if s == "dark"@ {
        FrameType::Dark
    } else if s == "flat"@ {
        FrameType::Flat
    } else if s == "bias"@ {
        FrameType::Bias
    } else if s == "darkflat"@ {
        FrameType::DarkFlat
    } else {
        FrameType::Light
    }
}

/// File extensions, in lower case, of the image container format.
pub open spec fn is_image_extension(ext: Seq<char>) -> bool {
    ext == "fits"@ || ext == "fit"@ || ext == "fts"@
}

impl FrameType {
    /// Header value under which this role is stored.
    pub fn keyword(&self) -> (r: &'static str)
        ensures
            r@ == role_keyword(*self),
    {
        match self {
            FrameType::Light => {
                proof { reveal_strlit("LIGHT"); }
                "LIGHT"
            },
            FrameType::Dark => {
                proof { reveal_strlit("DARK"); }
                "DARK"
            },
            FrameType::Flat => {
                proof { reveal_strlit("FLAT"); }
                "FLAT"
            },
            FrameType::Bias => {
                proof { reveal_strlit("BIAS"); }
                "BIAS"
            },
            FrameType::DarkFlat => {
                proof { reveal_strlit("DARKFLAT"); }
                "DARKFLAT"
            },
        }
    }

    /// Frame role named by a header value that is already in lower case.
    pub fn from_lowered_keyword(s: &String) -> (r: FrameType)
        ensures
            r == role_of_lowered(s@),
    {
        if same_text(s, "dark") {
            FrameType::Dark
        } else if same_text(s, "flat") {
            FrameType::Flat
        } else if same_text(s, "bias") {
            FrameType::Bias
        } else if same_text(s, "darkflat") {
            FrameType::DarkFlat
        } else {
            FrameType::Light
        }
    }

    /// Frame role named by a header value, compared without regard to case.
    pub fn from_keyword(s: &str) -> (r: FrameType)
        ensures
            r == role_of_lowered(lower_of(s@)),
    {
        let lowered = lowercase(s);
        FrameType::from_lowered_keyword(&lowered)
    }
}

/// Whether a file extension, taken as it is, marks an image file.
pub fn is_fits_extension(ext: &str) -> (r: bool)
    ensures
        r == is_image_extension(ext@),
{
    let e = ext.to_owned();
    same_text(&e, "fits") || same_text(&e, "fit") || same_text(&e, "fts")
}

/// Whether a file extension marks an image file, without regard to case.
pub fn has_image_extension(ext: &str) -> (r: bool)
    ensures
        r == is_image_extension(lower_of(ext@)),
{
    let lowered = lowercase(ext);
    is_fits_extension(lowered.as_str())
}

/// How a preview maps sample values to display brightness.
#[derive(Debug, Clone, Copy, PartialEq, Eq, Structural)]
pub enum StretchMethod {
    /// Simple min/max normalisation.
    Linear,
    /// Logarithmic curve that lifts faint detail.
    Logarithmic,
    /// Automatic histogram adjustment.
    AutoStretch,
}

impl Default for StretchMethod {
    fn default() -> (r: StretchMethod)
        ensures
            r == StretchMethod::Linear,
    {
        StretchMethod::Linear
    }
}

/// The frames of one role that a session works with: the folder they were
/// found in and the image files chosen from it.
pub struct FrameSet {
    pub frame_type: FrameType,
    pub directory: Option<std::path::PathBuf>,
    pub file_paths: Vec<std::path::PathBuf>,
    pub is_required: bool,
}

impl FrameSet {
    /// A frame set of the given role with no folder and no files yet.
    pub fn new(frame_type: FrameType, is_required: bool) -> (r: FrameSet)
        ensures
            r.frame_type == frame_type,
            r.is_required == is_required,
            r.directory is None,
            r.file_paths@.len() == 0,
    {
        FrameSet { frame_type, directory: None, file_paths: Vec::new(), is_required }
    }

    /// Display name of the set's frame role.
    pub fn frame_type_name(&self) -> (r: &'static str)
        ensures
            r@ == role_label(self.frame_type),
    {
        match self.frame_type {
            FrameType::Light => {
                proof { reveal_strlit("Light"); }
                "Light"
            },
            FrameType::Dark => {
                proof { reveal_strlit("Dark"); }
                "Dark"
            },
            FrameType::Flat => {
                proof { reveal_strlit("Flat"); }
                "Flat"
            },
            FrameType::Bias => {
                proof { reveal_strlit("Bias"); }
                "Bias"
            },
            FrameType::DarkFlat => {
                proof { reveal_strlit("Dark Flat"); }
                "Dark Flat"
            },
        }
    }
}

} // verus!
