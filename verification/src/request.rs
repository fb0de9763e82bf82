//! Which picture the window asks for, by the path of its address.

use vstd::prelude::*;
use vstd::string::*;
use crate::strings::{capture, capture_of, parse_index, parsed_index, same_chars, to_chars};

verus! {

/// A picture that the window asks for: a character of one of the two fonts,
/// or a subimage of an image.
#[derive(Clone, Copy, Debug, PartialEq, Eq, Structural)]
pub enum ImageRequest {
    SmallFont { character: usize },
    LargeFont { character: usize },
    Subimage { image: usize, subimage: usize },
}

/// The pattern of the end of a path: a hyphen, the name of a font or the
/// number of an image, a hyphen, and the number of the character or
/// subimage.
pub open spec fn request_pattern() -> Seq<char> {
    "-(\\w+)-(\\d+)$"@
}

/// The picture asked for by a name and a number, as they were found in a
/// path: none where either was not found, or where a number is none that
/// fits.
pub open spec fn request_of(name: Option<Seq<char>>, number: Option<Seq<char>>) -> Option<
    ImageRequest,
> {
    match (name, number) {
        (Some(name), Some(number)) => match parsed_index(number) {
            Some(index) => if name == "smallfont"@ {
                Some(ImageRequest::SmallFont { character: index })
            } else if name == "largefont"@ {
                Some(ImageRequest::LargeFont { character: index })
            } else {
                match parsed_index(name) {
                    Some(image) => Some(ImageRequest::Subimage { image, subimage: index }),
                    None => None,
                }
            },
            None => None,
        },
        _ => None,
    }
}

/// The picture asked for by a name and a number, as they were found in a
/// path.
pub fn image_request_of_parts(name: Option<&str>, number: Option<&str>) -> (request: Option<
    ImageRequest,
>)
    ensures
        request == request_of(
            match name {
                Some(name) => Some(name@),
                None => None,
            },
            match number {
                Some(number) => Some(number@),
                None => None,
            },
        ),
{
    let name = match name {
        Some(name) => name,
        None => {
            return None;
        },
    };
    let number = match number {
        Some(number) => number,
        None => {
            return None;
        },
    };
    let digits = to_chars(number);
    let index = match parse_index(digits.as_slice()) {
        Some(index) => index,
        None => {
            return None;
        },
    };
    let chars = to_chars(name);
    if same_chars(chars.as_slice(), "smallfont") {
        Some(ImageRequest::SmallFont { character: index })
    } else if same_chars(chars.as_slice(), "largefont") {
        Some(ImageRequest::LargeFont { character: index })
    } else {
        match parse_index(chars.as_slice()) {
            Some(image) => Some(ImageRequest::Subimage { image, subimage: index }),
            None => None,
        }
    }
}

/// The picture that the path of an address asks for.
pub fn image_request_of(path: &str) -> (request: Option<ImageRequest>)
    ensures
        request == request_of(
            capture_of(request_pattern(), path@, 1),
            capture_of(request_pattern(), path@, 2),
        ),
{
    let name = capture("-(\\w+)-(\\d+)$", path, 1);
    let number = capture("-(\\w+)-(\\d+)$", path, 2);
    match name {
        Some(name) => match number {
            Some(number) => image_request_of_parts(Some(name.as_str()), Some(number.as_str())),
            None => image_request_of_parts(Some(name.as_str()), None),
        },
        None => match number {
            Some(number) => image_request_of_parts(None, Some(number.as_str())),
            None => image_request_of_parts(None, None),
        },
    }
}

} // verus!
