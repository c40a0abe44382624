//! Answering a request for braille art: which ditherer a request selects,
//! how the image is rendered, and what is said when there is no image or
//! the rendering is too long.

use vstd::prelude::*;
use vstd::string::StrSliceExecFns;
use crate::commons::braille_img::{packed, BrailleImg};
use crate::commons::dithering::{dithered, Ditherer};
use crate::commons::gray_img::{GrayImg, GrayView};

verus! {

/// The width in dots of a rendering for which the request names none.
pub const DEFAULT_WIDTH: u32 = 58;

/// The longest rendering, in characters, that a limited request accepts.
pub const MAX_CHARS: usize = 500;

/// The dithering that a request can ask for.
#[derive(Clone, Copy, Debug, PartialEq, Eq, Structural)]
pub enum Dithering {
    /// Two-row Sierra error diffusion; what a request gets if it asks for
    /// nothing.
    Sierra2,
    /// Ordered dithering with the 4x4 matrix.
    Bayer,
    /// No dithering.
    Threshold,
}

impl Dithering {
    /// The ditherer that the choice stands for.
    pub open spec fn ditherer(self) -> Ditherer {
        match self {
            Dithering::Sierra2 => Ditherer::Sierra2Row,
            Dithering::Bayer => Ditherer::Bayer4x4,
            Dithering::Threshold => Ditherer::Threshold,
        }
    }

    /// The ditherer that the choice stands for.
    pub fn to_ditherer(&self) -> (ditherer: Ditherer)
        ensures
            ditherer == self.ditherer(),
    {
        match self {
            Dithering::Sierra2 => Ditherer::Sierra2Row,
            Dithering::Bayer => Ditherer::Bayer4x4,
            Dithering::Threshold => Ditherer::Threshold,
        }
    }
}

impl Default for Dithering {
    fn default() -> (dithering: Self)
        ensures
            dithering == Dithering::Sierra2,
    {
        Dithering::Sierra2
    }
}

/// A request for braille art, as it arrives: every choice but the address
/// of the image may be left open.
pub struct Request {
    pub img_url: String,
    pub line_break: Option<bool>,
    pub width: Option<u32>,
    pub height: Option<u32>,
    pub limit: Option<bool>,
    pub allow_empty: Option<bool>,
    pub dithering: Dithering,
}

/// A choice, or what holds where the request leaves it open.
pub open spec fn chosen(choice: Option<bool>, otherwise: bool) -> bool {
    match choice {
        Some(value) => value,
        None => otherwise,
    }
}

impl Request {
    /// Whether glyphs without dots are replaced: yes, unless the request
    /// allows empty glyphs.
    pub open spec fn no_empty_chars(self) -> bool {
        !chosen(self.allow_empty, false)
    }

    /// Whether rows end in a line break: yes, unless the request says
    /// otherwise.
    pub open spec fn break_line(self) -> bool {
        chosen(self.line_break, true)
    }

    /// Whether the length of the rendering is limited: only if the request
    /// asks for it.
    pub open spec fn limited(self) -> bool {
        chosen(self.limit, false)
    }

    /// The width in dots to scale the image to.
    pub fn target_width(&self) -> (width: u32)
        ensures
            width == (match self.width {
                Some(w) => w,
                None => DEFAULT_WIDTH,
            }),
    {
        self.width.unwrap_or(DEFAULT_WIDTH)
    }
}

/// How the attempt to get the image of a request ended.
pub enum Fetched {
    /// The address could not be requested.
    RequestFailed,
    /// The answer does not say that it is an image of a known format.
    NotAnImage,
    /// The answer could not be read as the image it claims to be.
    Unreadable,
    /// The image, scaled to the size of the rendering and reduced to
    /// lightness.
    Image(GrayImg),
}

/// The rendering of an image as a request asks for it.
pub open spec fn rendering(req: Request, img: GrayView) -> Seq<char> {
    packed(dithered(img, req.dithering.ditherer())).text(req.no_empty_chars(), req.break_line())
}

/// The answer to a request.
pub open spec fn answer(req: Request, fetched: Fetched) -> Seq<char> {
    match fetched {
        Fetched::RequestFailed => "failed to request image."@,
        Fetched::NotAnImage => "link is not an image."@,
        Fetched::Unreadable => "failed to read image."@,
        Fetched::Image(img) => if rendering(req, img@).len() > MAX_CHARS && req.limited() {
            "image too tall"@
        } else {
            rendering(req, img@)
        },
    }
}

/// Answers a request: with the rendering of the image, or with a message
/// that says why there is none. A limited request gets a rendering of at
/// most [`MAX_CHARS`] characters, or the message that the image is too
/// tall.
pub fn braille(req: &Request, fetched: Fetched) -> (reply: String)
    requires
        fetched matches Fetched::Image(img) ==> img.wf(),
    ensures
        reply@ == answer(*req, fetched),
{
    match fetched {
        Fetched::RequestFailed => "failed to request image.".to_owned(),
        Fetched::NotAnImage => "link is not an image.".to_owned(),
        Fetched::Unreadable => "failed to read image.".to_owned(),
        Fetched::Image(img) => {
            let ascii = BrailleImg::from_image(img, req.dithering.to_ditherer()).to_str(
                !req.allow_empty.unwrap_or(false),
                req.line_break.unwrap_or(true),
            );
            if ascii.as_str().unicode_len() > MAX_CHARS && req.limit.unwrap_or(false) {
                "image too tall".to_owned()
            } else {
                ascii
            }
        },
    }
}

} // verus!
