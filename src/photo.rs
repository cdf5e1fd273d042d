use vstd::prelude::*;

verus! {

/// Which kind of file must have a counterpart for a photo to be kept.
#[derive(Clone, Copy, Debug, PartialEq, Eq, Structural)]
pub enum FilterMode {
    /// RAW files without a developed image are orphans.
    Raw,
    /// Developed images without a RAW file are orphans.
    Img,
}

/// What the catalog knows of one logical photo.
#[derive(Debug)]
pub struct Photo {
    pub file_name: String,
    pub has_raw: bool,
    pub has_jpg: bool,
}

/// The mathematical value of a `Photo`.
pub ghost struct PhotoView {
    pub file_name: Seq<char>,
    pub has_raw: bool,
    pub has_jpg: bool,
}

impl View for Photo {
    type V = PhotoView;

    open spec fn view(&self) -> PhotoView {
        PhotoView { file_name: self.file_name@, has_raw: self.has_raw, has_jpg: self.has_jpg }
    }
}

/// The configuration of one run: the directory scanned, the filter, and the
/// two extensions (without the leading dot, compared case-sensitively).
#[derive(Debug)]
pub struct PhotoDir {
    pub path: String,
    pub filter: FilterMode,
    pub raw_ext: String,
    pub img_ext: String,
}

pub ghost struct PhotoDirView {
    pub path: Seq<char>,
    pub filter: FilterMode,
    pub raw_ext: Seq<char>,
    pub img_ext: Seq<char>,
}

impl View for PhotoDir {
    type V = PhotoDirView;

    open spec fn view(&self) -> PhotoDirView {
        PhotoDirView {
            path: self.path@,
            filter: self.filter,
            raw_ext: self.raw_ext@,
            img_ext: self.img_ext@,
        }
    }
}

/// The extension that the filter names: the one that identities carry.
pub open spec fn filter_ext(d: PhotoDirView) -> Seq<char> {
    match d.filter {
        FilterMode::Raw => d.raw_ext,
        FilterMode::Img => d.img_ext,
    }
}

/// A record is an orphan when it has the kind the filter names and lacks
/// the other one.
pub open spec fn is_orphan_spec(filter: FilterMode, p: PhotoView) -> bool {
    match filter {
        FilterMode::Raw => p.has_raw && !p.has_jpg,
        FilterMode::Img => p.has_jpg && !p.has_raw,
    }
}

pub open spec fn raw_word() -> Seq<char> {
    seq!['R', 'A', 'W']
}

pub open spec fn img_word() -> Seq<char> {
    seq!['I', 'M', 'G']
}

/// Reads a filter mode from its name, `RAW` or `IMG`.
pub fn parse_filter(s: &str) -> (r: Option<FilterMode>)
    ensures
        r == Some(FilterMode::Raw) <==> s@ == raw_word(),
        r == Some(FilterMode::Img) <==> s@ == img_word(),
        r is None <==> (s@ != raw_word() && s@ != img_word()),
{
    if s.unicode_len() != 3 {
        return None;
    }
    let c0 = s.get_char(0);
    let c1 = s.get_char(1);
    let c2 = s.get_char(2);
    if c0 == 'R' && c1 == 'A' && c2 == 'W' {
        assert(s@ =~= raw_word());
        Some(FilterMode::Raw)
    } else if c0 == 'I' && c1 == 'M' && c2 == 'G' {
        assert(s@ =~= img_word());
        Some(FilterMode::Img)
    } else {
        None
    }
}

impl PhotoDir {
    /// The extension that the filter selects.
    pub fn filter_extension(&self) -> (r: &String)
        ensures
            r@ == filter_ext(self@),
    {
        match self.filter {
            FilterMode::Raw => &self.raw_ext,
            FilterMode::Img => &self.img_ext,
        }
    }
}

/// Decides whether a record is an orphan under a filter.
pub fn is_orphan(filter: FilterMode, photo: &Photo) -> (r: bool)
    ensures
        r == is_orphan_spec(filter, photo@),
{
    match filter {
        FilterMode::Raw => photo.has_raw && !photo.has_jpg,
        FilterMode::Img => photo.has_jpg && !photo.has_raw,
    }
}

/// How the directory argument becomes the scanned directory.
#[derive(Debug)]
pub enum SourcePath {
    /// Resolve this relative path against the working directory.
    Canonicalize(String),
    /// Use this path as it is.
    AsGiven(String),
}

/// An empty argument means the working directory, an argument that starts
/// with `.` is resolved, and any other is used as it is.
pub fn source_path(path: &String) -> (r: SourcePath)
    ensures
        match r {
            SourcePath::Canonicalize(p) => if path@.len() == 0 {
                p@ == seq!['.', '/']
            } else {
                path@[0] == '.' && p@ == path@
            },
            SourcePath::AsGiven(p) => path@.len() > 0 && path@[0] != '.' && p@ == path@,
        },
{
    let s = path.as_str();
    if s.unicode_len() == 0 {
        let here = String::from_str("./");
        proof {
            reveal_strlit("./");
        }
        SourcePath::Canonicalize(here)
    } else if s.get_char(0) == '.' {
        SourcePath::Canonicalize(path.clone())
    } else {
        SourcePath::AsGiven(path.clone())
    }
}

} // verus!
