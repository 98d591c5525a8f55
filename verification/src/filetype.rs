use vstd::prelude::*;
use crate::paths::{lower_chars, str_cmp, to_lower};

verus! {

/// The file kinds the tools recognize, by extension.
#[derive(Debug, Clone, Copy, PartialEq, Eq, Structural)]
pub enum FileType {
    Pal,
    Frm,
    Dat,
    Acm,
    Mve,
}

impl FileType {
    /// Classifies a file extension, ignoring letter case.
    pub fn new(ext: &str) -> (r: Option<FileType>)
        ensures
            r == (if lower_chars(ext@) == "pal"@ {
                Some(FileType::Pal)
            } else if lower_chars(ext@) == "frm"@ {
                Some(FileType::Frm)
            } else if lower_chars(ext@) == "dat"@ {
                Some(FileType::Dat)
            } else if lower_chars(ext@) == "acm"@ {
                Some(FileType::Acm)
            } else if lower_chars(ext@) == "mve"@ {
                Some(FileType::Mve)
            } else {
                Option::<FileType>::None
            }),
    {
        let low = to_lower(ext);
        if str_cmp(low.as_str(), "pal") == 0 {
            Some(FileType::Pal)
        } else if str_cmp(low.as_str(), "frm") == 0 {
            Some(FileType::Frm)
        } else if str_cmp(low.as_str(), "dat") == 0 {
            Some(FileType::Dat)
        } else if str_cmp(low.as_str(), "acm") == 0 {
            Some(FileType::Acm)
        } else if str_cmp(low.as_str(), "mve") == 0 {
            Some(FileType::Mve)
        } else {
            None
        }
    }
}

} // verus!
