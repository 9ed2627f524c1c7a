use vstd::prelude::*;

verus! {

/// Image size tiers for progressive loading.
#[derive(Debug, Clone, Copy, PartialEq, Eq, Structural)]
pub enum ImageTier {
    /// Small thumbnail, about 200 px.
    Thumb,
    /// Medium preview, about 800 px.
    Preview,
    /// Full-resolution original.
    Original,
}

impl ImageTier {
    /// The storage prefix of the tier.
    pub open spec fn prefix_spec(self) -> Seq<char> {
        match self {
            ImageTier::Thumb => "thumb"@,
            ImageTier::Preview => "preview"@,
            ImageTier::Original => "original"@,
        }
    }

    /// The storage prefix under which images of this tier are kept.
    pub fn as_prefix(self) -> (r: &'static str)
        ensures
            r@ == self.prefix_spec(),
    {
        match self {
            ImageTier::Thumb => "thumb",
            ImageTier::Preview => "preview",
            ImageTier::Original => "original",
        }
    }

    /// The tier named `s`, if any.
    pub open spec fn named(s: Seq<char>) -> Option<Self> {
        if s == "thumb"@ {
            Some(ImageTier::Thumb)
        } else if s == "preview"@ {
            Some(ImageTier::Preview)
        } else if s == "original"@ {
            Some(ImageTier::Original)
        } else {
            None
        }
    }

    /// The tier whose prefix is `s`, if any.
    pub fn from_str(s: &str) -> (r: Option<Self>)
        ensures
            r == Self::named(s@),
            r matches Some(t) ==> t.prefix_spec() == s@,
    {
        proof {
            reveal_strlit("thumb");
            reveal_strlit("preview");
            reveal_strlit("original");
        }
        let text = s.to_owned();
        if text == "thumb".to_owned() {
            Some(ImageTier::Thumb)
        } else if text == "preview".to_owned() {
            Some(ImageTier::Preview)
        } else if text == "original".to_owned() {
            Some(ImageTier::Original)
        } else {
            None
        }
    }
}

} // verus!
