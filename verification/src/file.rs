use vstd::prelude::*;

use crate::text::ascii_lower;
use crate::text::spec_lower;
use crate::text::string_eq_str;

verus! {

/// Which tree of the workspace a file belongs to.
#[derive(Debug, Clone, Copy, PartialEq, Eq, Structural)]
pub enum FileKind {
    Include,
    Layout,
    Page,
}

/// The recognized file formats, each reached from a set of extensions.
#[derive(Debug, Clone, Copy, PartialEq, Eq, Structural)]
pub enum FileFormat {
    Html,
    Markdown,
    Yaml,
    Json,
    Rhai,
    Bash,
}

/// A classification failure: the name of an unrecognized extension, a
/// path that is not text, or a path without the expected shape.
#[derive(Debug)]
pub enum FileInfoError {
    UnexpectedFileFormat(String),
    InvalidPath,
    UnexpectedFilePath(String),
    UnexpectedFileKind(String),
}

/// The kind a lower-cased directory name names, if any.
pub open spec fn kind_of_text(t: Seq<char>) -> Option<FileKind> {
    if t == "includes"@ {
        Some(FileKind::Include)
    } else if t == "layouts"@ {
        Some(FileKind::Layout)
    } else if t == "pages"@ {
        Some(FileKind::Page)
    } else {
        None
    }
}

/// The format a lower-cased extension names, if any.
pub open spec fn format_of_text(t: Seq<char>) -> Option<FileFormat> {
    if t == "html"@ || t == "htm"@ || t == "xhtml"@ || t == "xml"@ {
        Some(FileFormat::Html)
    } else if t == "yaml"@ || t == "yml"@ {
        Some(FileFormat::Yaml)
    } else if t == "json"@ {
        Some(FileFormat::Json)
    } else if t == "rhai"@ {
        Some(FileFormat::Rhai)
    } else if t == "md"@ || t == "markdown"@ || t == "mdown"@ || t == "mkdn"@ || t == "mdwn"@
        || t == "mdtxt"@ || t == "mdtext"@ || t == "text"@ || t == "rmd"@ {
        Some(FileFormat::Markdown)
    } else if t == "sh"@ {
        Some(FileFormat::Bash)
    } else {
        None
    }
}

impl FileKind {
    /// Classifies a directory name, case-insensitively.
    pub fn from_str(s: &str) -> (r: Result<FileKind, FileInfoError>)
        ensures
            match kind_of_text(spec_lower(s@)) {
                Some(k) => r == Ok::<FileKind, FileInfoError>(k),
                None => r matches Err(FileInfoError::UnexpectedFileKind(t)) && t@ == spec_lower(
                    s@,
                ),
            },
    {
        let l = ascii_lower(s);
        if string_eq_str(&l, "includes") {
            Ok(FileKind::Include)
        } else if string_eq_str(&l, "layouts") {
            Ok(FileKind::Layout)
        } else if string_eq_str(&l, "pages") {
            Ok(FileKind::Page)
        } else {
            Err(FileInfoError::UnexpectedFileKind(l))
        }
    }
}

impl FileFormat {
    /// Classifies an extension, case-insensitively.
    pub fn from_str(s: &str) -> (r: Result<FileFormat, FileInfoError>)
        ensures
            match format_of_text(spec_lower(s@)) {
                Some(f) => r == Ok::<FileFormat, FileInfoError>(f),
                None => r matches Err(FileInfoError::UnexpectedFileFormat(t)) && t@ == s@,
            },
    {
        let l = ascii_lower(s);
        if string_eq_str(&l, "html") || string_eq_str(&l, "htm") || string_eq_str(&l, "xhtml")
            || string_eq_str(&l, "xml") {
            Ok(FileFormat::Html)
        } else if string_eq_str(&l, "yaml") || string_eq_str(&l, "yml") {
            Ok(FileFormat::Yaml)
        } else if string_eq_str(&l, "json") {
            Ok(FileFormat::Json)
        } else if string_eq_str(&l, "rhai") {
            Ok(FileFormat::Rhai)
        } else if string_eq_str(&l, "md") || string_eq_str(&l, "markdown") || string_eq_str(
            &l,
            "mdown",
        ) || string_eq_str(&l, "mkdn") || string_eq_str(&l, "mdwn") || string_eq_str(&l, "mdtxt")
            || string_eq_str(&l, "mdtext") || string_eq_str(&l, "text") || string_eq_str(
            &l,
            "rmd",
        ) {
            Ok(FileFormat::Markdown)
        } else if string_eq_str(&l, "sh") {
            Ok(FileFormat::Bash)
        } else {
            let owned = s.to_owned();
            Err(FileInfoError::UnexpectedFileFormat(owned))
        }
    }
}

/// A locale suffix as it stood in the file name, leading dot included.
#[derive(Debug)]
pub struct FileLocale {
    raw_str: String,
}

impl View for FileLocale {
    type V = Seq<char>;

    closed spec fn view(&self) -> Seq<char> {
        self.raw_str@
    }
}

impl FileLocale {
    /// Wraps a raw locale suffix.
    pub fn from_str(s: &str) -> (r: FileLocale)
        ensures
            r@ == s@,
    {
        FileLocale { raw_str: s.to_owned() }
    }

    /// The suffix as text.
    pub fn as_str(&self) -> (r: &str)
        ensures
            r@ == self@,
    {
        self.raw_str.as_str()
    }
}

/// A separator between path segments.
pub open spec fn is_sep(c: char) -> bool {
    c == '/' || c == '\\'
}

/// Index of the first separator at or after `i`, or `s.len()`.
pub open spec fn next_sep(s: Seq<char>, i: int) -> int
    decreases s.len() - i,
{
    if i < 0 || i >= s.len() {
        s.len() as int
    } else if is_sep(s[i]) {
        i
    } else {
        next_sep(s, i + 1)
    }
}

/// `next_sep` never moves backwards and never runs past the end.
pub proof fn lemma_next_sep_bounds(s: Seq<char>, i: int)
    requires
        0 <= i <= s.len(),
    ensures
        i <= next_sep(s, i) <= s.len(),
        next_sep(s, i) < s.len() ==> is_sep(s[next_sep(s, i)]),
    decreases s.len() - i,
{
    if i < s.len() && !is_sep(s[i]) {
        lemma_next_sep_bounds(s, i + 1);
    }
}

/// Start of the first whole path segment naming a kind, or -1.
pub open spec fn find_kind_start(s: Seq<char>, p: int) -> int
    decreases s.len() - p,
    via find_kind_start_decreases
{
    if p < 0 || p >= s.len() {
        -1
    } else {
        let e = next_sep(s, p);
        if kind_of_text(spec_lower(s.subrange(p, e))) is Some {
            p
        } else if e >= s.len() {
            -1
        } else {
            find_kind_start(s, e + 1)
        }
    }
}

#[via_fn]
proof fn find_kind_start_decreases(s: Seq<char>, p: int) {
    if 0 <= p < s.len() {
        lemma_next_sep_bounds(s, p);
    }
}

/// Index just after the last separator, i.e. the start of the file name.
pub open spec fn last_seg_start(s: Seq<char>, i: int) -> int
    decreases i,
{
    if i <= 0 || i > s.len() {
        0
    } else if is_sep(s[i - 1]) {
        i
    } else {
        last_seg_start(s, i - 1)
    }
}

/// Index of the first dot at or after `i`, or `s.len()`.
pub open spec fn next_dot_at(s: Seq<char>, i: int) -> int
    decreases s.len() - i,
{
    if i < 0 || i >= s.len() {
        s.len() as int
    } else if s[i] == '.' {
        i
    } else {
        next_dot_at(s, i + 1)
    }
}

/// `next_dot_at` finds the first dot: none stands before it.
pub proof fn lemma_next_dot_at_min(s: Seq<char>, i: int, j: int)
    requires
        0 <= i <= j < s.len(),
        s[j] == '.',
    ensures
        next_dot_at(s, i) <= j,
    decreases j - i,
{
    if i < j && s[i] != '.' {
        lemma_next_dot_at_min(s, i + 1, j);
    }
}

/// Index of the last dot at or after `lo`, or -1.
pub open spec fn last_dot_from(s: Seq<char>, i: int, lo: int) -> int
    decreases i - lo,
{
    if i <= lo || i > s.len() {
        -1
    } else if s[i - 1] == '.' {
        i - 1
    } else {
        last_dot_from(s, i - 1, lo)
    }
}

/// A character allowed inside one locale part.
pub open spec fn is_locale_char(c: char) -> bool {
    ('a' <= c && c <= 'z') || ('A' <= c && c <= 'Z') || ('0' <= c && c <= '9') || c == '-'
        || c == '_'
}

/// Whether the span `lo..hi` is a well-formed locale suffix: dot-led
/// parts, each non-empty and made of locale characters.  An empty span is
/// fine (no locale).
pub open spec fn locale_ok(s: Seq<char>, lo: int, hi: int) -> bool
    decreases hi - lo,
    via locale_ok_decreases
{
    if lo >= hi {
        true
    } else if s[lo] != '.' {
        false
    } else {
        let e = next_dot_at(s, lo + 1);
        let stop = if e < hi {
            e
        } else {
            hi
        };
        stop > lo + 1 && (forall|j: int| lo + 1 <= j < stop ==> is_locale_char(#[trigger] s[j]))
            && locale_ok(s, stop, hi)
    }
}

#[via_fn]
proof fn locale_ok_decreases(s: Seq<char>, lo: int, hi: int) {
    if 0 <= lo && lo + 1 <= s.len() && lo < hi && s[lo] == '.' {
        lemma_next_dot_at_bounds(s, lo + 1);
    }
}

/// `next_dot_at` never moves backwards and never runs past the end.
pub proof fn lemma_next_dot_at_bounds(s: Seq<char>, i: int)
    requires
        0 <= i <= s.len(),
    ensures
        i <= next_dot_at(s, i) <= s.len(),
        next_dot_at(s, i) < s.len() ==> s[next_dot_at(s, i)] == '.',
    decreases s.len() - i,
{
    if i < s.len() && s[i] != '.' {
        lemma_next_dot_at_bounds(s, i + 1);
    }
}

/// The parts a classified path decomposes into: the kind, the span of the
/// directory part, the file name, the span of the locale suffix, and the
/// extension.
pub struct PathParts {
    pub kind: FileKind,
    pub dir_lo: int,
    pub dir_hi: int,
    pub name_lo: int,
    pub name_hi: int,
    pub loc_hi: int,
    pub ext_lo: int,
}

/// Classifies a path: a whole segment must name a kind; the last segment
/// is the file name, split as name, optional locale suffix and extension;
/// what stands between kind and file name is the directory part.
pub open spec fn classify_path(s: Seq<char>) -> Option<PathParts> {
    let ks = find_kind_start(s, 0);
    if ks < 0 {
        None
    } else {
        let ke = next_sep(s, ks);
        if ke >= s.len() {
            None
        } else {
            let ls = last_seg_start(s, s.len() as int);
            if ls <= ke || ls >= s.len() {
                None
            } else {
                let nd = next_dot_at(s, ls);
                let ld = last_dot_from(s, s.len() as int, ls);
                if nd <= ls || nd >= s.len() || ld < 0 || ld + 1 >= s.len() || !locale_ok(
                    s,
                    nd,
                    ld,
                ) {
                    None
                } else {
                    Some(
                        PathParts {
                            kind: kind_of_text(spec_lower(s.subrange(ks, ke)))->0,
                            dir_lo: ke,
                            dir_hi: ls - 1,
                            name_lo: ls,
                            name_hi: nd,
                            loc_hi: ld,
                            ext_lo: ld + 1,
                        },
                    )
                }
            }
        }
    }
}

/// One classified file path: its kind, the path itself, the directory
/// part, the bare file name, an optional locale suffix, and the format
/// the extension names.
pub struct FileInfo {
    kind: FileKind,
    path: String,
    directory: Option<String>,
    name: String,
    locale: Option<FileLocale>,
    format: FileFormat,
}

impl FileInfo {
    /// Which tree this file belongs to.
    pub fn kind(&self) -> (r: FileKind)
        ensures
            r == self.spec_kind(),
    {
        self.kind
    }

    /// The kind, at the specification level.
    pub closed spec fn spec_kind(&self) -> FileKind {
        self.kind
    }

    /// The whole path this was classified from.
    pub fn path(&self) -> (r: &str)
        ensures
            r@ == self.spec_path(),
    {
        self.path.as_str()
    }

    /// The path, at the specification level.
    pub closed spec fn spec_path(&self) -> Seq<char> {
        self.path@
    }

    /// The directory part between the kind segment and the file name,
    /// separators as they stood in the path.
    pub fn directory(&self) -> (r: Option<&str>)
        ensures
            match r {
                Some(d) => self.spec_directory() is Some && d@ == self.spec_directory()->0,
                None => self.spec_directory() is None,
            },
    {
        match &self.directory {
            Some(d) => Some(d.as_str()),
            None => None,
        }
    }

    /// The directory part, at the specification level.
    pub closed spec fn spec_directory(&self) -> Option<Seq<char>> {
        match self.directory {
            Some(d) => Some(d@),
            None => None,
        }
    }

    /// The bare file name, without locale suffix or extension.
    pub fn name(&self) -> (r: &str)
        ensures
            r@ == self.spec_name(),
    {
        self.name.as_str()
    }

    /// The name, at the specification level.
    pub closed spec fn spec_name(&self) -> Seq<char> {
        self.name@
    }

    /// The locale suffix, if the file name carries one.
    pub fn locale(&self) -> (r: Option<&FileLocale>)
        ensures
            match r {
                Some(l) => self.spec_locale() is Some && l@ == self.spec_locale()->0,
                None => self.spec_locale() is None,
            },
    {
        match &self.locale {
            Some(l) => Some(l),
            None => None,
        }
    }

    /// The locale, at the specification level.
    pub closed spec fn spec_locale(&self) -> Option<Seq<char>> {
        match self.locale {
            Some(l) => Some(l@),
            None => None,
        }
    }

    /// The format the extension names.
    pub fn format(&self) -> (r: FileFormat)
        ensures
            r == self.spec_format(),
    {
        self.format
    }

    /// The format, at the specification level.
    pub closed spec fn spec_format(&self) -> FileFormat {
        self.format
    }
}


/// Tests whether a character separates path segments.
fn is_sep_exec(c: char) -> (r: bool)
    ensures
        r == is_sep(c),
{
    c == '/' || c == '\\'
}

/// Finds the first whole path segment that names a kind: its kind, its
/// start, and its end.
fn find_kind_seg(s: &str) -> (r: Option<(FileKind, usize, usize)>)
    ensures
        match r {
            Some((k, ks, ke)) => find_kind_start(s@, 0) == ks && ks < s@.len() && ke as int
                == next_sep(s@, ks as int) && kind_of_text(
                spec_lower(s@.subrange(ks as int, ke as int)),
            ) == Some(k),
            None => find_kind_start(s@, 0) == -1,
        },
{
    let n = s.unicode_len();
    let mut p: usize = 0;
    loop
        invariant_except_break
            0 <= p <= n,
            n == s@.len(),
            find_kind_start(s@, 0) == find_kind_start(s@, p as int),
        ensures
            find_kind_start(s@, 0) == -1,
        decreases n - p,
    {
        if p >= n {
            break ;
        }
        let mut e: usize = p;
        while e < n && !is_sep_exec(s.get_char(e))
            invariant
                p <= e <= n,
                n == s@.len(),
                next_sep(s@, p as int) == next_sep(s@, e as int),
            decreases n - e,
        {
            e = e + 1;
        }
        assert(next_sep(s@, p as int) == e as int);
        let seg = s.substring_char(p, e);
        match FileKind::from_str(seg) {
            Ok(k) => {
                return Some((k, p, e));
            },
            Err(_) => {},
        }
        if e >= n {
            break ;
        }
        p = e + 1;
    }
    None
}

impl FileInfo {
    /// Classifies a path string into a `FileInfo`, or says why it cannot
    /// be: no whole segment names a kind, or the file name is malformed
    /// (`UnexpectedFilePath`), or the extension is unrecognized
    /// (`UnexpectedFileFormat`).
    #[verifier::loop_isolation(false)]
    #[verifier::rlimit(60)]
    pub fn from_path(s: &str) -> (r: Result<FileInfo, FileInfoError>)
        ensures
            match classify_path(s@) {
                None => r matches Err(FileInfoError::UnexpectedFilePath(t)) && t@ == s@,
                Some(parts) => match format_of_text(
                    spec_lower(s@.subrange(parts.ext_lo, s@.len() as int)),
                ) {
                    None => r matches Err(FileInfoError::UnexpectedFileFormat(t)) && t@
                        == s@.subrange(parts.ext_lo, s@.len() as int),
                    Some(fmt) => r matches Ok(info) && info.spec_kind() == parts.kind
                        && info.spec_path() == s@ && info.spec_format() == fmt
                        && info.spec_name() == s@.subrange(parts.name_lo, parts.name_hi)
                        && info.spec_directory() == (if parts.dir_hi > parts.dir_lo {
                        Some(s@.subrange(parts.dir_lo, parts.dir_hi))
                    } else {
                        None::<Seq<char>>
                    }) && info.spec_locale() == (if parts.loc_hi > parts.name_hi {
                        Some(s@.subrange(parts.name_hi, parts.loc_hi))
                    } else {
                        None::<Seq<char>>
                    }),
                },
            },
    {
        let n = s.unicode_len();
        let kind_opt = find_kind_seg(s);
        let (kind, ks, ke) = match kind_opt {
            Some(t) => t,
            None => {
                return Err(FileInfoError::UnexpectedFilePath(s.to_owned()));
            },
        };
        if ke >= n {
            return Err(FileInfoError::UnexpectedFilePath(s.to_owned()));
        }
        // the last segment is the file name
        let mut ls: usize = n;
        while ls > 0 && !is_sep_exec(s.get_char(ls - 1))
            invariant
                0 <= ls <= n,
                last_seg_start(s@, n as int) == last_seg_start(s@, ls as int),
            decreases ls,
        {
            ls = ls - 1;
        }
        assert(last_seg_start(s@, n as int) == ls as int);
        if ls <= ke || ls >= n {
            return Err(FileInfoError::UnexpectedFilePath(s.to_owned()));
        }
        // first and last dot within the file name
        let mut nd: usize = ls;
        while nd < n && s.get_char(nd) != '.'
            invariant
                ls <= nd <= n,
                next_dot_at(s@, ls as int) == next_dot_at(s@, nd as int),
            decreases n - nd,
        {
            nd = nd + 1;
        }
        assert(next_dot_at(s@, ls as int) == nd as int);
        let mut ld: usize = n;
        while ld > ls && s.get_char(ld - 1) != '.'
            invariant
                ls <= ld <= n,
                last_dot_from(s@, n as int, ls as int) == last_dot_from(s@, ld as int, ls as int),
            decreases ld,
        {
            ld = ld - 1;
        }
        if nd <= ls || nd >= n || ld <= ls {
            proof {
                if ld <= ls {
                    assert(last_dot_from(s@, n as int, ls as int) == -1);
                }
            }
            return Err(FileInfoError::UnexpectedFilePath(s.to_owned()));
        }
        let ld = ld - 1;
        assert(last_dot_from(s@, n as int, ls as int) == ld as int);
        if ld + 1 >= n {
            return Err(FileInfoError::UnexpectedFilePath(s.to_owned()));
        }
        // check the locale span between the first and the last dot
        let mut q: usize = nd;
        let mut loc_good: bool = true;
        proof {
            lemma_next_dot_at_min(s@, ls as int, ld as int);
        }
        while q < ld && loc_good
            invariant
                nd <= q <= ld,
                ld < n,
                n == s@.len(),
                loc_good ==> locale_ok(s@, nd as int, ld as int) == locale_ok(
                    s@,
                    q as int,
                    ld as int,
                ),
                !loc_good ==> !locale_ok(s@, nd as int, ld as int),
            decreases ld - q + (if loc_good {
                1int
            } else {
                0int
            }),
        {
            if s.get_char(q) != '.' {
                loc_good = false;
            } else {
                let mut e2: usize = q + 1;
                while e2 < n && s.get_char(e2) != '.'
                    invariant
                        q + 1 <= e2 <= n,
                        next_dot_at(s@, q + 1) == next_dot_at(s@, e2 as int),
                    decreases n - e2,
                {
                    e2 = e2 + 1;
                }
                assert(next_dot_at(s@, q + 1) == e2 as int);
                let stop: usize = if e2 < ld {
                    e2
                } else {
                    ld
                };
                if stop <= q + 1 {
                    loc_good = false;
                } else {
                    let mut j: usize = q + 1;
                    let mut part_good: bool = true;
                    while j < stop && part_good
                        invariant
                            q + 1 <= j <= stop,
                            stop <= n,
                            n == s@.len(),
                            part_good ==> forall|t: int|
                                q + 1 <= t < j ==> is_locale_char(#[trigger] s@[t]),
                            !part_good ==> !(forall|t: int|
                                q + 1 <= t < stop ==> is_locale_char(#[trigger] s@[t])),
                        decreases stop - j + (if part_good {
                            1int
                        } else {
                            0int
                        }),
                    {
                        let c = s.get_char(j);
                        let u = c as u32;
                        let ok = (97 <= u && u <= 122) || (65 <= u && u <= 90) || (48 <= u && u
                            <= 57) || c == '-' || c == '_';
                        proof {
                            assert(ok == is_locale_char(s@[j as int]));
                        }
                        if !ok {
                            part_good = false;
                        } else {
                            j = j + 1;
                        }
                    }
                    if !part_good {
                        loc_good = false;
                    } else {
                        proof {
                            assert(locale_ok(s@, q as int, ld as int) == locale_ok(
                                s@,
                                stop as int,
                                ld as int,
                            ));
                        }
                        q = stop;
                    }
                }
            }
        }
        if !loc_good {
            return Err(FileInfoError::UnexpectedFilePath(s.to_owned()));
        }
        assert(locale_ok(s@, nd as int, ld as int));
        let ghost parts = classify_path(s@)->0;
        proof {
            assert(classify_path(s@) is Some);
            assert(parts.kind == kind);
            assert(parts.dir_lo == ke as int);
            assert(parts.dir_hi == ls - 1);
            assert(parts.name_lo == ls as int);
            assert(parts.name_hi == nd as int);
            assert(parts.loc_hi == ld as int);
            assert(parts.ext_lo == ld + 1);
        }
        // the extension names the format
        let ext = s.substring_char(ld + 1, n);
        let format = match FileFormat::from_str(ext) {
            Ok(f) => f,
            Err(e) => {
                return Err(e);
            },
        };
        let directory: Option<String> = if ls - 1 > ke {
            Some(s.substring_char(ke, ls - 1).to_owned())
        } else {
            None
        };
        let name = s.substring_char(ls, nd).to_owned();
        let locale: Option<FileLocale> = if ld > nd {
            Some(FileLocale::from_str(s.substring_char(nd, ld)))
        } else {
            None
        };
        Ok(
            FileInfo {
                kind,
                path: s.to_owned(),
                directory,
                name,
                locale,
                format,
            },
        )
    }
}


impl Clone for FileLocale {
    fn clone(&self) -> (r: Self)
        ensures
            r@ == self@,
    {
        FileLocale { raw_str: self.raw_str.clone() }
    }
}

impl Clone for FileInfo {
    fn clone(&self) -> (r: Self)
        ensures
            r.spec_kind() == self.spec_kind(),
            r.spec_path() == self.spec_path(),
            r.spec_directory() == self.spec_directory(),
            r.spec_name() == self.spec_name(),
            r.spec_locale() == self.spec_locale(),
            r.spec_format() == self.spec_format(),
    {
        FileInfo {
            kind: self.kind,
            path: self.path.clone(),
            directory: match &self.directory {
                Some(d) => Some(d.clone()),
                None => None,
            },
            name: self.name.clone(),
            locale: match &self.locale {
                Some(l) => Some(l.clone()),
                None => None,
            },
            format: self.format,
        }
    }
}

} // verus!
