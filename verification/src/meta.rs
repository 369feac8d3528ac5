use vstd::prelude::*;

use crate::data::SpecValue;
use crate::data::Value;
use crate::data::sv;
use crate::decode::RawDoc;
use crate::decode::SpecRaw;
use crate::decode::decode_json;
use crate::decode::decode_yaml;
use crate::decode::json_raw;
use crate::decode::yaml_raw;
use crate::convert::conv;
use crate::file::FileFormat;
use crate::file::FileInfo;
use crate::file::FileInfoError;
use crate::file::classify_path;
use crate::file::format_of_text;
use crate::text::spec_lower;
use crate::path::PathIter;
use crate::query::ValueIter;
use crate::query::svquery;

verus! {

/// Why metadata could not be taken from a file: the bytes did not decode,
/// or the decoded document is not a mapping.
#[derive(Debug, Clone, Copy, PartialEq, Eq, Structural)]
pub enum MetaError {
    Parse,
    NotAMapping,
}

/// A space-like byte on a marker line: space, tab or carriage return.
pub open spec fn is_line_space(b: u8) -> bool {
    b == 32 || b == 9 || b == 13
}

/// Index of the first line feed at or after `i`, or `bs.len()`.
pub open spec fn find_nl(bs: Seq<u8>, i: int) -> int
    decreases bs.len() - i,
{
    if i < 0 || i >= bs.len() {
        bs.len() as int
    } else if bs[i] == 10 {
        i
    } else {
        find_nl(bs, i + 1)
    }
}

/// `find_nl` never moves backwards and never runs past the end.
pub proof fn lemma_find_nl_bounds(bs: Seq<u8>, i: int)
    requires
        0 <= i <= bs.len(),
    ensures
        i <= find_nl(bs, i) <= bs.len(),
        find_nl(bs, i) < bs.len() ==> bs[find_nl(bs, i)] == 10,
    decreases bs.len() - i,
{
    if i < bs.len() && bs[i] != 10 {
        lemma_find_nl_bounds(bs, i + 1);
    }
}

/// First non-space position in `[i, hi)`, or `hi`.
pub open spec fn bspan_lo(bs: Seq<u8>, i: int, hi: int) -> int
    decreases hi - i,
{
    if i < 0 || i >= hi || i >= bs.len() {
        i
    } else if is_line_space(bs[i]) {
        bspan_lo(bs, i + 1, hi)
    } else {
        i
    }
}

/// Position after the last non-space in `(lo, i]`, or `lo`.
pub open spec fn bspan_hi(bs: Seq<u8>, i: int, lo: int) -> int
    decreases i - lo,
{
    if i <= lo || i > bs.len() {
        i
    } else if is_line_space(bs[i - 1]) {
        bspan_hi(bs, i - 1, lo)
    } else {
        i
    }
}

/// Whether the line `[lo, hi)`, with surrounding spaces removed, is
/// exactly `marker`.
pub open spec fn span_is_marker(bs: Seq<u8>, lo: int, hi: int, marker: Seq<u8>) -> bool {
    let a = bspan_lo(bs, lo, hi);
    let b = bspan_hi(bs, hi, lo);
    if a >= b {
        marker.len() == 0
    } else {
        bs.subrange(a, b) == marker
    }
}

/// Start of the first line at or after `p` that is a marker line, or -1.
pub open spec fn find_marker_line(bs: Seq<u8>, p: int, marker: Seq<u8>) -> int
    decreases bs.len() - p,
    via find_marker_line_decreases
{
    if p < 0 || p >= bs.len() {
        -1
    } else {
        let e = find_nl(bs, p);
        if span_is_marker(bs, p, e, marker) {
            p
        } else if e >= bs.len() {
            -1
        } else {
            find_marker_line(bs, e + 1, marker)
        }
    }
}

#[via_fn]
proof fn find_marker_line_decreases(bs: Seq<u8>, p: int, marker: Seq<u8>) {
    if 0 <= p < bs.len() {
        lemma_find_nl_bounds(bs, p);
    }
}

/// Skips line feeds and carriage returns.
pub open spec fn skip_nl(bs: Seq<u8>, i: int) -> int
    decreases bs.len() - i,
{
    if 0 <= i < bs.len() && (bs[i] == 10 || bs[i] == 13) {
        skip_nl(bs, i + 1)
    } else {
        i
    }
}

/// The `---` marker that delimits Markdown front matter.
pub open spec fn dashes_marker() -> Seq<u8> {
    seq![45u8, 45u8, 45u8]
}

/// The marker that opens an HTML front-matter comment.
pub open spec fn html_open_marker() -> Seq<u8> {
    seq![60u8, 33u8, 45u8, 45u8]
}

/// The marker that closes an HTML front-matter comment.
pub open spec fn html_close_marker() -> Seq<u8> {
    seq![45u8, 45u8, 62u8]
}

/// The front-matter split of a file: the metadata bytes lie between an
/// opening marker line at the top and the first closing marker line after
/// it; the content resumes after that line and any blank line bytes.
pub open spec fn front_split(bs: Seq<u8>, open_m: Seq<u8>, close_m: Seq<u8>) -> Option<
    (int, int, int),
> {
    let e0 = find_nl(bs, 0);
    if e0 >= bs.len() || !span_is_marker(bs, 0, e0, open_m) {
        None
    } else {
        let p = find_marker_line(bs, e0 + 1, close_m);
        if p < 0 {
            None
        } else {
            let e = find_nl(bs, p);
            let rest = if e >= bs.len() {
                bs.len() as int
            } else {
                skip_nl(bs, e + 1)
            };
            Some((e0 + 1, p, rest))
        }
    }
}

/// The outcome extraction owes for given bytes under a format: the
/// metadata model (if any) and the remaining content on success, or the
/// error.  With the decoders' outcomes named, this is a function of the
/// format and the bytes alone.
pub open spec fn extract_outcome(format: FileFormat, before: Seq<u8>) -> Result<
    (Option<SpecValue>, Seq<u8>),
    MetaError,
> {
    match format {
        FileFormat::Rhai | FileFormat::Bash => Ok((None::<SpecValue>, before)),
        FileFormat::Markdown => header_outcome(before, dashes_marker(), dashes_marker()),
        FileFormat::Html => header_outcome(before, html_open_marker(), html_close_marker()),
        FileFormat::Yaml => whole_outcome(yaml_raw(before)),
        FileFormat::Json => whole_outcome(json_raw(before)),
    }
}

/// The outcome a whole-file document owes: its mapping conversion with
/// emptied content, a parse error, or the not-a-mapping error.
pub open spec fn whole_outcome(doc: Option<SpecRaw>) -> Result<
    (Option<SpecValue>, Seq<u8>),
    MetaError,
> {
    match doc {
        None => Err(MetaError::Parse),
        Some(d) => if conv(d) is Dict {
            Ok((Some(conv(d)), Seq::empty()))
        } else {
            Err(MetaError::NotAMapping)
        },
    }
}

/// The outcome a front-matter header owes: no block means no metadata and
/// untouched content; a block must decode as YAML to a mapping, which
/// becomes the metadata while the content resumes past the block.
pub open spec fn header_outcome(before: Seq<u8>, open_m: Seq<u8>, close_m: Seq<u8>) -> Result<
    (Option<SpecValue>, Seq<u8>),
    MetaError,
> {
    match front_split(before, open_m, close_m) {
        None => Ok((None::<SpecValue>, before)),
        Some(sp) => match yaml_raw(before.subrange(sp.0, sp.1)) {
            None => Err(MetaError::Parse),
            Some(d) => if conv(d) is Dict {
                Ok((Some(conv(d)), before.skip(sp.2)))
            } else {
                Err(MetaError::NotAMapping)
            },
        },
    }
}

/// Whether a result and the content after the call match the owed
/// outcome: success carries exactly the owed metadata and remainder, a
/// failure is exactly the owed error with the content untouched.
pub open spec fn matches_outcome(
    outcome: Result<(Option<SpecValue>, Seq<u8>), MetaError>,
    before: Seq<u8>,
    after: Seq<u8>,
    r: Result<Option<Meta>, MetaError>,
) -> bool {
    match outcome {
        Ok(pair) => r matches Ok(opt) && after == pair.1 && (match pair.0 {
            Some(mm) => opt matches Some(m) && m.model() == mm,
            None => opt is None,
        }),
        Err(e) => r == Err::<Option<Meta>, MetaError>(e) && after == before,
    }
}

/// The metadata of one file: a value tree, always a mapping, exposed
/// through the same path queries as any value.
pub struct Meta {
    content: Value,
}

impl Meta {
    /// The model of the metadata tree.
    pub closed spec fn model(&self) -> SpecValue {
        sv(self.content)
    }

    /// Wraps a converted document as metadata; a document that is not a
    /// mapping carries no metadata.
    fn from_doc(d: RawDoc) -> (r: Result<Meta, MetaError>)
        ensures
            conv(d@) is Dict ==> (r matches Ok(meta) && meta.model() == conv(d@)),
            !(conv(d@) is Dict) ==> r == Err::<Meta, MetaError>(MetaError::NotAMapping),
    {
        let v = Value::from_raw(d);
        match v {
            Value::Mapping(entries) => Ok(Meta { content: Value::Mapping(entries) }),
            _ => Err(MetaError::NotAMapping),
        }
    }

    /// A copy of the metadata tree as a plain value.
    pub fn to_value(&self) -> (r: Value)
        ensures
            r@ == self.model(),
    {
        self.content.clone()
    }

    /// The first value the path reaches in the metadata.
    pub fn value(&self, path: &PathIter) -> (r: Option<Value>)
        ensures
            svquery(self.model(), path.remaining()).len() == 0 <==> r is None,
            svquery(self.model(), path.remaining()).len() > 0 ==> r is Some && r->0@ == svquery(
                self.model(),
                path.remaining(),
            )[0],
    {
        self.content.value(path)
    }

    /// All values the path reaches in the metadata, lazily.
    pub fn value_iter(&self, path: &PathIter) -> (r: ValueIter)
        ensures
            r.pending() == svquery(self.model(), path.remaining()),
    {
        self.content.value_iter(path)
    }

    /// Splits metadata out of file content, per the file's format:
    /// Markdown and HTML carry it in a front-matter block that is removed
    /// from the content; YAML and JSON files are metadata in their
    /// entirety; script formats carry none.  On an error the content is
    /// left as it was.
    pub fn extract(format: FileFormat, content: &mut Vec<u8>) -> (r: Result<
        Option<Meta>,
        MetaError,
    >)
        ensures
            matches_outcome(
                extract_outcome(format, old(content)@),
                old(content)@,
                final(content)@,
                r,
            ),
    {
        match format {
            FileFormat::Rhai | FileFormat::Bash => Ok(None),
            FileFormat::Markdown => {
                let open_m = dashes_vec();
                let close_m = dashes_vec();
                Meta::extract_header(content, &open_m, &close_m)
            },
            FileFormat::Html => {
                let open_m = html_open_vec();
                let close_m = html_close_vec();
                Meta::extract_header(content, &open_m, &close_m)
            },
            FileFormat::Yaml => {
                match decode_yaml(content.as_slice()) {
                    Ok(d) => {
                        proof {
                            assert(yaml_raw(old(content)@) == Some(d@));
                        }
                        match Meta::from_doc(d) {
                            Ok(meta) => {
                                content.clear();
                                proof {
                                    assert(final(content)@ =~= Seq::<u8>::empty());
                                }
                                Ok(Some(meta))
                            },
                            Err(e) => Err(e),
                        }
                    },
                    Err(_) => Err(MetaError::Parse),
                }
            },
            FileFormat::Json => {
                match decode_json(content.as_slice()) {
                    Ok(d) => {
                        proof {
                            assert(json_raw(old(content)@) == Some(d@));
                        }
                        match Meta::from_doc(d) {
                            Ok(meta) => {
                                content.clear();
                                proof {
                                    assert(final(content)@ =~= Seq::<u8>::empty());
                                }
                                Ok(Some(meta))
                            },
                            Err(e) => Err(e),
                        }
                    },
                    Err(_) => Err(MetaError::Parse),
                }
            },
        }
    }

    /// Extracts a front-matter block delimited by marker lines, decodes
    /// it as YAML, and consumes it from the content.
    fn extract_header(content: &mut Vec<u8>, open_m: &Vec<u8>, close_m: &Vec<u8>) -> (r: Result<
        Option<Meta>,
        MetaError,
    >)
        requires
            open_m@.len() > 0,
            close_m@.len() > 0,
        ensures
            matches_outcome(
                header_outcome(old(content)@, open_m@, close_m@),
                old(content)@,
                final(content)@,
                r,
            ),
    {
        match find_front(content, open_m, close_m) {
            None => Ok(None),
            Some((mlo, mhi, rlo)) => {
                let ghost sp = front_split(old(content)@, open_m@, close_m@)->0;
                let meta_bytes = take_subrange(content, mlo, mhi);
                proof {
                    assert(meta_bytes@ == old(content)@.subrange(sp.0, sp.1));
                }
                match decode_yaml(meta_bytes.as_slice()) {
                    Ok(d) => {
                        proof {
                            assert(yaml_raw(old(content)@.subrange(sp.0, sp.1)) == Some(d@));
                        }
                        match Meta::from_doc(d) {
                            Ok(meta) => {
                                let rest = take_subrange(content, rlo, content.len());
                                proof {
                                    assert(rest@ =~= old(content)@.skip(rlo as int));
                                }
                                *content = rest;
                                Ok(Some(meta))
                            },
                            Err(e) => Err(e),
                        }
                    },
                    Err(_) => Err(MetaError::Parse),
                }
            },
        }
    }
}

/// The `---` marker as bytes.
fn dashes_vec() -> (r: Vec<u8>)
    ensures
        r@ == dashes_marker(),
{
    let mut v: Vec<u8> = Vec::new();
    v.push(45);
    v.push(45);
    v.push(45);
    proof {
        assert(v@ =~= dashes_marker());
    }
    v
}

/// The `<!--` marker as bytes.
fn html_open_vec() -> (r: Vec<u8>)
    ensures
        r@ == html_open_marker(),
{
    let mut v: Vec<u8> = Vec::new();
    v.push(60);
    v.push(33);
    v.push(45);
    v.push(45);
    proof {
        assert(v@ =~= html_open_marker());
    }
    v
}

/// The `-->` marker as bytes.
fn html_close_vec() -> (r: Vec<u8>)
    ensures
        r@ == html_close_marker(),
{
    let mut v: Vec<u8> = Vec::new();
    v.push(45);
    v.push(45);
    v.push(62);
    proof {
        assert(v@ =~= html_close_marker());
    }
    v
}

/// Copies the bytes `[lo, hi)` out of a vector.
fn take_subrange(bs: &Vec<u8>, lo: usize, hi: usize) -> (r: Vec<u8>)
    requires
        lo <= hi <= bs@.len(),
    ensures
        r@ == bs@.subrange(lo as int, hi as int),
{
    let mut out: Vec<u8> = Vec::new();
    let mut i = lo;
    proof {
        assert(out@ =~= bs@.subrange(lo as int, lo as int));
    }
    while i < hi
        invariant
            lo <= i <= hi,
            hi <= bs@.len(),
            out@ == bs@.subrange(lo as int, i as int),
        decreases hi - i,
    {
        let b = bs[i];
        out.push(b);
        proof {
            assert(out@ =~= bs@.subrange(lo as int, i + 1));
        }
        i = i + 1;
    }
    out
}

/// Finds the index of the next line feed at or after `i`.
fn find_nl_exec(bs: &Vec<u8>, i: usize) -> (r: usize)
    requires
        i <= bs@.len(),
    ensures
        r as int == find_nl(bs@, i as int),
        i <= r <= bs@.len(),
{
    let n = bs.len();
    let mut e = i;
    while e < n && bs[e] != 10
        invariant
            i <= e <= n,
            n == bs@.len(),
            find_nl(bs@, i as int) == find_nl(bs@, e as int),
        decreases n - e,
    {
        e = e + 1;
    }
    e
}

/// Whether line `[lo, hi)`, trimmed, equals the marker.
fn span_marker_exec(bs: &Vec<u8>, lo: usize, hi: usize, marker: &Vec<u8>) -> (r: bool)
    requires
        lo <= hi <= bs@.len(),
    ensures
        r == span_is_marker(bs@, lo as int, hi as int, marker@),
{
    let mut a = lo;
    while a < hi && (bs[a] == 32 || bs[a] == 9 || bs[a] == 13)
        invariant
            lo <= a <= hi,
            hi <= bs@.len(),
            bspan_lo(bs@, lo as int, hi as int) == bspan_lo(bs@, a as int, hi as int),
        decreases hi - a,
    {
        a = a + 1;
    }
    assert(bspan_lo(bs@, lo as int, hi as int) == a as int);
    let mut b = hi;
    while b > lo && (bs[b - 1] == 32 || bs[b - 1] == 9 || bs[b - 1] == 13)
        invariant
            lo <= b <= hi,
            hi <= bs@.len(),
            bspan_hi(bs@, hi as int, lo as int) == bspan_hi(bs@, b as int, lo as int),
        decreases b,
    {
        b = b - 1;
    }
    proof {
        lemma_bspan_hi_le(bs@, b as int, lo as int);
    }
    if a >= b {
        return marker.len() == 0;
    }
    assert(bspan_hi(bs@, hi as int, lo as int) == b as int);
    if b - a != marker.len() {
        proof {
            assert(bs@.subrange(a as int, b as int).len() == b - a);
            assert(bs@.subrange(a as int, b as int) != marker@);
        }
        return false;
    }
    let mut j: usize = 0;
    while j < marker.len()
        invariant
            j <= marker@.len(),
            a + marker@.len() == b,
            lo <= a < b <= hi <= bs@.len(),
            bspan_lo(bs@, lo as int, hi as int) == a as int,
            bspan_hi(bs@, hi as int, lo as int) == b as int,
            forall|t: int| 0 <= t < j ==> bs@[a + t] == marker@[t],
        decreases marker@.len() - j,
    {
        if bs[a + j] != marker[j] {
            proof {
                assert(bs@.subrange(a as int, b as int)[j as int] != marker@[j as int]);
                assert(bs@.subrange(a as int, b as int) != marker@);
                assert(!span_is_marker(bs@, lo as int, hi as int, marker@));
            }
            return false;
        }
        j = j + 1;
    }
    proof {
        assert(bs@.subrange(a as int, b as int) =~= marker@);
    }
    true
}

/// `bspan_hi` never moves forwards.
pub proof fn lemma_bspan_hi_le(bs: Seq<u8>, i: int, lo: int)
    ensures
        bspan_hi(bs, i, lo) <= i,
    decreases i - lo,
{
    if lo < i <= bs.len() && is_line_space(bs[i - 1]) {
        lemma_bspan_hi_le(bs, i - 1, lo);
    }
}

/// Finds the front-matter split of the content, if there is one.
fn find_front(content: &Vec<u8>, open_m: &Vec<u8>, close_m: &Vec<u8>) -> (r: Option<
    (usize, usize, usize),
>)
    requires
        open_m@.len() > 0,
        close_m@.len() > 0,
    ensures
        match front_split(content@, open_m@, close_m@) {
            None => r is None,
            Some(sp) => (r matches Some((mlo, mhi, rlo)) && mlo as int == sp.0 && mhi as int
                == sp.1 && rlo as int == sp.2 && mlo <= mhi && mhi <= content@.len() && rlo
                <= content@.len()),
        },
{
    let n = content.len();
    let e0 = find_nl_exec(content, 0);
    if e0 >= n {
        return None;
    }
    if !span_marker_exec(content, 0, e0, open_m) {
        return None;
    }
    // look for the closing marker line
    let mut p: usize = e0 + 1;
    loop
        invariant_except_break
            e0 + 1 <= p <= n,
            e0 < n,
            n == content@.len(),
            e0 as int == find_nl(content@, 0),
            span_is_marker(content@, 0, e0 as int, open_m@),
            open_m@.len() > 0,
            close_m@.len() > 0,
            find_marker_line(content@, e0 + 1, close_m@) == find_marker_line(
                content@,
                p as int,
                close_m@,
            ),
        ensures
            find_marker_line(content@, e0 + 1, close_m@) < 0,
        decreases n - p,
    {
        if p >= n {
            break ;
        }
        let e = find_nl_exec(content, p);
        if span_marker_exec(content, p, e, close_m) {
            proof {
                assert(find_marker_line(content@, p as int, close_m@) == p as int);
            }
            let rest: usize = if e >= n {
                n
            } else {
                let mut t = e + 1;
                while t < n && (content[t] == 10 || content[t] == 13)
                    invariant
                        e + 1 <= t <= n,
                        n == content@.len(),
                        skip_nl(content@, e + 1) == skip_nl(content@, t as int),
                    decreases n - t,
                {
                    t = t + 1;
                }
                assert(skip_nl(content@, e + 1) == t as int);
                t
            };
            proof {
                lemma_find_nl_bounds(content@, p as int);
                let sp = front_split(content@, open_m@, close_m@)->0;
                assert(front_split(content@, open_m@, close_m@) is Some);
                assert(sp.0 == e0 + 1);
                assert(sp.1 == p as int);
                assert(sp.2 == rest as int);
            }
            return Some((e0 + 1, p, rest));
        }
        if e >= n {
            break ;
        }
        p = e + 1;
    }
    None
}

/// The split of one file's bytes: what remains as content, and the
/// metadata taken off the front, if the format carries any.
pub struct FileData {
    content: Vec<u8>,
    meta: Option<Meta>,
}

impl FileData {
    /// The content bytes.
    pub closed spec fn spec_content(&self) -> Seq<u8> {
        self.content@
    }

    /// The metadata, if any was found.
    pub closed spec fn spec_meta(&self) -> Option<Meta> {
        self.meta
    }

    /// The model of the metadata, if any was found.
    pub open spec fn spec_meta_model(&self) -> Option<SpecValue> {
        match self.spec_meta() {
            Some(m) => Some(m.model()),
            None => None,
        }
    }

    /// Splits raw file bytes into content and metadata for the format:
    /// success and failure, and what each carries, follow the owed
    /// outcome exactly.
    pub fn read(bytes: Vec<u8>, format: FileFormat) -> (r: Result<FileData, MetaError>)
        ensures
            match extract_outcome(format, bytes@) {
                Ok(pair) => (r matches Ok(fd) && fd.spec_content() == pair.1
                    && fd.spec_meta_model() == pair.0),
                Err(e) => r == Err::<FileData, MetaError>(e),
            },
    {
        let mut content = bytes;
        match Meta::extract(format, &mut content) {
            Ok(meta) => Ok(FileData { content, meta }),
            Err(e) => Err(e),
        }
    }

    /// The content bytes.
    pub fn content(&self) -> (r: &Vec<u8>)
        ensures
            r@ == self.spec_content(),
    {
        &self.content
    }

    /// The metadata, if any was found.
    pub fn meta(&self) -> (r: Option<&Meta>)
        ensures
            match r {
                Some(m) => self.spec_meta() is Some && *m == self.spec_meta()->0,
                None => self.spec_meta() is None,
            },
    {
        match &self.meta {
            Some(m) => Some(m),
            None => None,
        }
    }
}

/// One file of the workspace: its classification, and, once its bytes
/// have been handed in, its split into content and metadata.  The split
/// happens at most once; afterwards the file keeps it.
pub struct File {
    file_info: FileInfo,
    data: Option<FileData>,
}

impl File {
    /// Whether the file's bytes have been loaded and split.
    pub closed spec fn spec_loaded(&self) -> bool {
        self.data is Some
    }

    /// The classification.
    pub closed spec fn spec_info(&self) -> FileInfo {
        self.file_info
    }

    /// The split, once loaded.
    pub closed spec fn spec_data(&self) -> Option<FileData> {
        self.data
    }

    /// Classifies a path into an unloaded file.
    pub fn new(path: &str) -> (r: Result<File, FileInfoError>)
        ensures
            (r matches Ok(f) ==> !f.spec_loaded() && classify_ok(path@, f.spec_info())),
            r is Err <==> !(classify_path(path@) is Some && format_of_text(
                spec_lower(
                    path@.subrange(classify_path(path@)->0.ext_lo, path@.len() as int),
                ),
            ) is Some),
    {
        match FileInfo::from_path(path) {
            Ok(file_info) => Ok(File { file_info, data: None }),
            Err(e) => Err(e),
        }
    }

    /// Wraps an already-classified file description, unloaded.
    pub fn from_info(file_info: FileInfo) -> (r: File)
        ensures
            !r.spec_loaded() && r.spec_info() == file_info,
    {
        File { file_info, data: None }
    }

    /// Hands the file its bytes, splitting them into content and
    /// metadata per the owed outcome; once loaded, later loads change
    /// nothing.
    pub fn load(&mut self, bytes: Vec<u8>) -> (r: Result<(), MetaError>)
        ensures
            final(self).spec_info() == old(self).spec_info(),
            old(self).spec_loaded() ==> r is Ok && *final(self) == *old(self),
            !old(self).spec_loaded() ==> match extract_outcome(
                old(self).spec_info().spec_format(),
                bytes@,
            ) {
                Ok(pair) => (r is Ok && final(self).spec_loaded()
                    && final(self).spec_data()->0.spec_content() == pair.1
                    && final(self).spec_data()->0.spec_meta_model() == pair.0),
                Err(e) => r == Err::<(), MetaError>(e),
            },
            r is Err ==> *final(self) == *old(self),
    {
        if self.data.is_some() {
            return Ok(());
        }
        match FileData::read(bytes, self.file_info.format()) {
            Ok(fd) => {
                self.data = Some(fd);
                Ok(())
            },
            Err(e) => Err(e),
        }
    }

    /// Whether the file's bytes have been handed in yet.
    pub fn is_loaded(&self) -> (r: bool)
        ensures
            r == self.spec_loaded(),
    {
        self.data.is_some()
    }

    /// The content bytes, once loaded.
    pub fn content(&self) -> (r: Option<&Vec<u8>>)
        ensures
            r is Some <==> self.spec_loaded(),
            (r matches Some(c) ==> c@ == self.spec_data()->0.spec_content()),
    {
        match &self.data {
            Some(fd) => Some(fd.content()),
            None => None,
        }
    }

    /// The metadata, once loaded and if the file carries any.
    pub fn meta(&self) -> (r: Option<&Meta>)
        ensures
            r is Some <==> (self.spec_loaded() && self.spec_data()->0.spec_meta() is Some),
            (r matches Some(m) ==> *m == self.spec_data()->0.spec_meta()->0),
    {
        match &self.data {
            Some(fd) => fd.meta(),
            None => None,
        }
    }

    /// The classification.
    pub fn info(&self) -> (r: &FileInfo)
        ensures
            *r == self.spec_info(),
    {
        &self.file_info
    }
}

/// What `FileInfo::from_path` promises of a successful classification.
pub open spec fn classify_ok(s: Seq<char>, info: FileInfo) -> bool {
    classify_path(s) is Some && {
        let parts = classify_path(s)->0;
        format_of_text(spec_lower(s.subrange(parts.ext_lo, s.len() as int))) is Some
            && info.spec_kind() == parts.kind && info.spec_path() == s && info.spec_format()
            == format_of_text(spec_lower(s.subrange(parts.ext_lo, s.len() as int)))->0
            && info.spec_name() == s.subrange(parts.name_lo, parts.name_hi)
    }
}

} // verus!
