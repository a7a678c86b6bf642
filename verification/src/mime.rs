//! Media types of resources.
use vstd::prelude::*;

use crate::text::chars_eq_str;
use crate::text::chars_of;

verus! {

#[derive(Debug, Clone, Copy, PartialEq, Eq, Structural)]
pub enum MediaType {
    TextPlain,
    TextHtml,
    TextCss,
    ApplicationJavascript,
    ApplicationJson,
    ImagePng,
    ImageJpeg,
    ImageGif,
    ImageSvgXml,
}

/// Why a media type was refused.
#[derive(Debug, Clone, Copy, PartialEq, Eq, Structural)]
pub enum MediaTypeError {
    Unsupported,
}

pub open spec fn textplain_name() -> Seq<char> {
    seq!['t', 'e', 'x', 't', '/', 'p', 'l', 'a', 'i', 'n']
}

pub open spec fn texthtml_name() -> Seq<char> {
    seq!['t', 'e', 'x', 't', '/', 'h', 't', 'm', 'l']
}

pub open spec fn textcss_name() -> Seq<char> {
    seq!['t', 'e', 'x', 't', '/', 'c', 's', 's']
}

pub open spec fn applicationjavascript_name() -> Seq<char> {
    seq!['a', 'p', 'p', 'l', 'i', 'c', 'a', 't', 'i', 'o', 'n', '/', 'j', 'a', 'v', 'a', 's', 'c', 'r', 'i', 'p', 't']
}

pub open spec fn applicationjson_name() -> Seq<char> {
    seq!['a', 'p', 'p', 'l', 'i', 'c', 'a', 't', 'i', 'o', 'n', '/', 'j', 's', 'o', 'n']
}

pub open spec fn imagepng_name() -> Seq<char> {
    seq!['i', 'm', 'a', 'g', 'e', '/', 'p', 'n', 'g']
}

pub open spec fn imagejpeg_name() -> Seq<char> {
    seq!['i', 'm', 'a', 'g', 'e', '/', 'j', 'p', 'e', 'g']
}

pub open spec fn imagegif_name() -> Seq<char> {
    seq!['i', 'm', 'a', 'g', 'e', '/', 'g', 'i', 'f']
}

pub open spec fn imagesvgxml_name() -> Seq<char> {
    seq!['i', 'm', 'a', 'g', 'e', '/', 's', 'v', 'g', '+', 'x', 'm', 'l']
}

impl MediaType {
    /// The type's name, `type/subtype`.
    pub open spec fn spec_name(self) -> Seq<char> {
        match self {
            MediaType::TextPlain => textplain_name(),
            MediaType::TextHtml => texthtml_name(),
            MediaType::TextCss => textcss_name(),
            MediaType::ApplicationJavascript => applicationjavascript_name(),
            MediaType::ApplicationJson => applicationjson_name(),
            MediaType::ImagePng => imagepng_name(),
            MediaType::ImageJpeg => imagejpeg_name(),
            MediaType::ImageGif => imagegif_name(),
            MediaType::ImageSvgXml => imagesvgxml_name(),
        }
    }

    /// The type named exactly `s`, if supported.
    pub open spec fn spec_parse(s: Seq<char>) -> Option<MediaType> {
        if s == textplain_name() {
            Some(MediaType::TextPlain)
        } else if s == texthtml_name() {
            Some(MediaType::TextHtml)
        } else if s == textcss_name() {
            Some(MediaType::TextCss)
        } else if s == applicationjavascript_name() {
            Some(MediaType::ApplicationJavascript)
        } else if s == applicationjson_name() {
            Some(MediaType::ApplicationJson)
        } else if s == imagepng_name() {
            Some(MediaType::ImagePng)
        } else if s == imagejpeg_name() {
            Some(MediaType::ImageJpeg)
        } else if s == imagegif_name() {
            Some(MediaType::ImageGif)
        } else if s == imagesvgxml_name() {
            Some(MediaType::ImageSvgXml)
        } else {
            None
        }
    }

    pub fn parse_chars(s: &[char]) -> (r: Result<MediaType, MediaTypeError>)
        ensures
            match MediaType::spec_parse(s@) {
                Some(m) => r == Ok::<MediaType, MediaTypeError>(m),
                None => r == Err::<MediaType, MediaTypeError>(MediaTypeError::Unsupported),
            },
    {
        proof {
            reveal_strlit("text/plain");
            assert("text/plain"@ =~= textplain_name());
            reveal_strlit("text/html");
            assert("text/html"@ =~= texthtml_name());
            reveal_strlit("text/css");
            assert("text/css"@ =~= textcss_name());
            reveal_strlit("application/javascript");
            assert("application/javascript"@ =~= applicationjavascript_name());
            reveal_strlit("application/json");
            assert("application/json"@ =~= applicationjson_name());
            reveal_strlit("image/png");
            assert("image/png"@ =~= imagepng_name());
            reveal_strlit("image/jpeg");
            assert("image/jpeg"@ =~= imagejpeg_name());
            reveal_strlit("image/gif");
            assert("image/gif"@ =~= imagegif_name());
            reveal_strlit("image/svg+xml");
            assert("image/svg+xml"@ =~= imagesvgxml_name());
        }
        if chars_eq_str(s, "text/plain") {
            Ok(MediaType::TextPlain)
        } else if chars_eq_str(s, "text/html") {
            Ok(MediaType::TextHtml)
        } else if chars_eq_str(s, "text/css") {
            Ok(MediaType::TextCss)
        } else if chars_eq_str(s, "application/javascript") {
            Ok(MediaType::ApplicationJavascript)
        } else if chars_eq_str(s, "application/json") {
            Ok(MediaType::ApplicationJson)
        } else if chars_eq_str(s, "image/png") {
            Ok(MediaType::ImagePng)
        } else if chars_eq_str(s, "image/jpeg") {
            Ok(MediaType::ImageJpeg)
        } else if chars_eq_str(s, "image/gif") {
            Ok(MediaType::ImageGif)
        } else if chars_eq_str(s, "image/svg+xml") {
            Ok(MediaType::ImageSvgXml)
        } else {
            Err(MediaTypeError::Unsupported)
        }
    }

    /// The type's name, as `Display` writes it.
    pub fn to_string(&self) -> (r: String)
        ensures
            r@ == self.spec_name(),
    {
        let lit: &str = match self {
            MediaType::TextPlain => "text/plain",
            MediaType::TextHtml => "text/html",
            MediaType::TextCss => "text/css",
            MediaType::ApplicationJavascript => "application/javascript",
            MediaType::ApplicationJson => "application/json",
            MediaType::ImagePng => "image/png",
            MediaType::ImageJpeg => "image/jpeg",
            MediaType::ImageGif => "image/gif",
            MediaType::ImageSvgXml => "image/svg+xml",
        };
        proof {
            reveal_strlit("text/plain");
            reveal_strlit("text/html");
            reveal_strlit("text/css");
            reveal_strlit("application/javascript");
            reveal_strlit("application/json");
            reveal_strlit("image/png");
            reveal_strlit("image/jpeg");
            reveal_strlit("image/gif");
            reveal_strlit("image/svg+xml");
        }
        let r = String::from_str(lit);
        assert(r@ =~= self.spec_name());
        r
    }

    /// Only a type's exact name is read as that type.
    pub proof fn lemma_parse_only_names(s: Seq<char>)
        ensures
            MediaType::spec_parse(s) matches Some(m) ==> s == m.spec_name(),
    {
    }

    /// Reading a type back from its name gives the same type.
    pub proof fn lemma_name_roundtrip(self)
        ensures
            MediaType::spec_parse(self.spec_name()) == Some(self),
    {
        assert(textplain_name()[0] != imagejpeg_name()[0]);
        assert(texthtml_name()[0] != imagepng_name()[0]);
        assert(texthtml_name()[0] != imagegif_name()[0]);
        assert(imagepng_name()[6] != imagegif_name()[6]);
    }
}

impl Default for MediaType {
    fn default() -> (r: MediaType)
        ensures
            r == MediaType::TextPlain,
    {
        MediaType::TextPlain
    }
}

impl std::str::FromStr for MediaType {
    type Err = MediaTypeError;

    fn from_str(s: &str) -> (r: Result<MediaType, MediaTypeError>)
        ensures
            match MediaType::spec_parse(s@) {
                Some(m) => r == Ok::<MediaType, MediaTypeError>(m),
                None => r == Err::<MediaType, MediaTypeError>(MediaTypeError::Unsupported),
            },
    {
        let cs = chars_of(s);
        MediaType::parse_chars(cs.as_slice())
    }
}

} // verus!
