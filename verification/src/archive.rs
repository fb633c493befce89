//! Package archive metadata. A package archive carries, among its files,
//! a fixed set of metadata files under
//! `hab/pkgs/<origin>/<name>/<version>/<release>/<FILE>`; this module
//! extracts them from an archive's entry list and parses what they hold:
//! package identifiers, dependency lists, exposed ports. Opening the
//! archive file and walking its compressed entries is I/O and stays with
//! the caller, which hands the entries in as plain values.

use vstd::prelude::*;

verus! {

use crate::text::bytes_of;
use vstd::string::StringSliceAdditionalSpecFns;

/// The first position of `sep` in `s`, or the length when absent.
pub open spec fn find_byte(s: Seq<u8>, sep: u8) -> int
    decreases s.len(),
{
    if s.len() == 0 {
        0
    } else if s[0] == sep {
        0
    } else {
        1 + find_byte(s.skip(1), sep)
    }
}

/// What `find_byte` finds is in range, is `sep`, and nothing before it is.
pub proof fn lemma_find_byte(s: Seq<u8>, sep: u8)
    ensures
        0 <= find_byte(s, sep) <= s.len(),
        find_byte(s, sep) < s.len() ==> s[find_byte(s, sep)] == sep,
        forall|j: int| 0 <= j < find_byte(s, sep) ==> s[j] != sep,
    decreases s.len(),
{
    if s.len() > 0 && s[0] != sep {
        lemma_find_byte(s.skip(1), sep);
        assert forall|j: int| 0 <= j < find_byte(s, sep) implies s[j] != sep by {
            if j > 0 {
                assert(s.skip(1)[j - 1] == s[j]);
            }
        }
    }
}

/// `s` split at every `sep`: the separators vanish, empty pieces stay.
pub open spec fn split_byte(s: Seq<u8>, sep: u8) -> Seq<Seq<u8>>
    decreases s.len(),
{
    let i = find_byte(s, sep);
    if 0 <= i < s.len() {
        seq![s.subrange(0, i)] + split_byte(s.skip(i + 1), sep)
    } else {
        seq![s]
    }
}

/// Finds the first `sep` at or after `from`.
fn scan_byte(b: &[u8], from: usize, sep: u8) -> (r: usize)
    requires
        from <= b@.len(),
    ensures
        from <= r <= b@.len(),
        r - from == find_byte(b@.skip(from as int), sep),
    decreases b@.len() - from,
{
    proof {
        lemma_find_byte(b@.skip(from as int), sep);
    }
    if from == b.len() {
        return from;
    }
    if b[from] == sep {
        proof {
            assert(b@.skip(from as int)[0] == b@[from as int]);
        }
        return from;
    }
    let r = scan_byte(b, from + 1, sep);
    proof {
        assert(b@.skip(from as int)[0] == b@[from as int]);
        assert(b@.skip(from as int).skip(1) =~= b@.skip(from + 1));
    }
    r
}

/// Splits `b` at every `sep`.
pub fn split_bytes(b: &[u8], sep: u8) -> (r: Vec<Vec<u8>>)
    ensures
        r.deep_view() == split_byte(b@, sep),
{
    let mut out: Vec<Vec<u8>> = Vec::new();
    let ghost whole = b@;
    let mut start: usize = 0;
    proof {
        assert(b@.skip(0) =~= b@);
        assert(out.deep_view() =~= Seq::<Seq<u8>>::empty());
        assert(Seq::<Seq<u8>>::empty() + split_byte(b@, sep) =~= split_byte(b@, sep));
    }
    loop
        invariant
            start <= b@.len(),
            split_byte(whole, sep) == out.deep_view() + split_byte(b@.skip(start as int), sep),
            whole == b@,
        decreases b@.len() - start,
    {
        let i = scan_byte(b, start, sep);
        let piece = vstd::slice::slice_to_vec(vstd::slice::slice_subrange(b, start, i));
        let ghost pre = out.deep_view();
        proof {
            assert(piece.deep_view() =~= piece@);
        }
        if i == b.len() {
            out.push(piece);
            proof {
                assert(out.deep_view() =~= pre.push(piece@));
                assert(b@.skip(start as int).len() == find_byte(b@.skip(start as int), sep));
                assert(split_byte(b@.skip(start as int), sep) == seq![b@.skip(start as int)]);
                assert(piece@ =~= b@.skip(start as int));
                assert(pre + seq![piece@] =~= pre.push(piece@));
                assert(out.deep_view() =~= split_byte(whole, sep));
            }
            return out;
        }
        out.push(piece);
        proof {
            assert(out.deep_view() =~= pre.push(piece@));
            let tail = b@.skip(start as int);
            let k = find_byte(tail, sep);
            lemma_find_byte(tail, sep);
            assert(k < tail.len());
            assert(split_byte(tail, sep) == seq![tail.subrange(0, k)] + split_byte(
                tail.skip(k + 1),
                sep,
            ));
            assert(piece@ =~= tail.subrange(0, k));
            assert(tail.skip(k + 1) =~= b@.skip(i + 1));
            assert(pre + (seq![piece@] + split_byte(b@.skip(i + 1), sep)) =~= pre.push(piece@)
                + split_byte(b@.skip(i + 1), sep));
            assert(out.deep_view() + split_byte(b@.skip(i + 1), sep) =~= split_byte(
                whole,
                sep,
            ));
        }
        start = i + 1;
    }
}

/// The metadata files a package archive may carry.
#[derive(Clone, Copy, Debug, PartialEq, Eq, Structural)]
pub enum MetaFile {
    CFlags,
    Config,
    Deps,
    TDeps,
    BuildDeps,
    BuildTDeps,
    Exposes,
    Ident,
    LdRunPath,
    LdFlags,
    SvcUser,
    Services,
    ResolvedServices,
    Manifest,
    Path,
    Target,
    Type,
}

impl MetaFile {
    /// The file name this metadata lives under inside the archive.
    pub fn name(&self) -> (r: &'static str)
        ensures
            r@ == metafile_name(*self),
    {
        proof {
            reveal_strlit("CFLAGS");
            reveal_strlit("CONFIG");
            reveal_strlit("DEPS");
            reveal_strlit("TDEPS");
            reveal_strlit("BUILD_DEPS");
            reveal_strlit("BUILD_TDEPS");
            reveal_strlit("EXPOSES");
            reveal_strlit("IDENT");
            reveal_strlit("LD_RUN_PATH");
            reveal_strlit("LDFLAGS");
            reveal_strlit("SVC_USER");
            reveal_strlit("SERVICES");
            reveal_strlit("RESOLVED_SERVICES");
            reveal_strlit("MANIFEST");
            reveal_strlit("PATH");
            reveal_strlit("TARGET");
            reveal_strlit("TYPE");
        }
        match self {
            MetaFile::CFlags => "CFLAGS",
            MetaFile::Config => "CONFIG",
            MetaFile::Deps => "DEPS",
            MetaFile::TDeps => "TDEPS",
            MetaFile::BuildDeps => "BUILD_DEPS",
            MetaFile::BuildTDeps => "BUILD_TDEPS",
            MetaFile::Exposes => "EXPOSES",
            MetaFile::Ident => "IDENT",
            MetaFile::LdRunPath => "LD_RUN_PATH",
            MetaFile::LdFlags => "LDFLAGS",
            MetaFile::SvcUser => "SVC_USER",
            MetaFile::Services => "SERVICES",
            MetaFile::ResolvedServices => "RESOLVED_SERVICES",
            MetaFile::Manifest => "MANIFEST",
            MetaFile::Path => "PATH",
            MetaFile::Target => "TARGET",
            MetaFile::Type => "TYPE",
        }
    }
}

/// The file name of a metadata kind.
pub open spec fn metafile_name(m: MetaFile) -> Seq<char> {
    match m {
        MetaFile::CFlags => "CFLAGS"@,
        MetaFile::Config => "CONFIG"@,
        MetaFile::Deps => "DEPS"@,
        MetaFile::TDeps => "TDEPS"@,
        MetaFile::BuildDeps => "BUILD_DEPS"@,
        MetaFile::BuildTDeps => "BUILD_TDEPS"@,
        MetaFile::Exposes => "EXPOSES"@,
        MetaFile::Ident => "IDENT"@,
        MetaFile::LdRunPath => "LD_RUN_PATH"@,
        MetaFile::LdFlags => "LDFLAGS"@,
        MetaFile::SvcUser => "SVC_USER"@,
        MetaFile::Services => "SERVICES"@,
        MetaFile::ResolvedServices => "RESOLVED_SERVICES"@,
        MetaFile::Manifest => "MANIFEST"@,
        MetaFile::Path => "PATH"@,
        MetaFile::Target => "TARGET"@,
        MetaFile::Type => "TYPE"@,
    }
}

/// Whether an entry path names the given metadata file:
/// `hab/pkgs/<origin>/<name>/<version>/<release>/<FILE>`, with an optional
/// leading slash and four non-empty path segments in the middle.
pub open spec fn metafile_path_match(path: Seq<u8>, name: Seq<u8>) -> bool {
    let segs0 = split_byte(path, 47);
    let segs = if segs0.len() > 0 && segs0[0].len() == 0 {
        segs0.skip(1)
    } else {
        segs0
    };
    segs.len() == 7 && segs[0] == "hab"@.map_values(|c: char| c as u8) && segs[1]
        == "pkgs"@.map_values(|c: char| c as u8) && segs[2].len() > 0 && segs[3].len() > 0
        && segs[4].len() > 0 && segs[5].len() > 0 && segs[6] == name
}

/// Decides `metafile_path_match` for an entry path.
pub fn path_matches_metafile(path: &[u8], name: &str) -> (r: bool)
    ensures
        r == metafile_path_match(path@, name.spec_bytes()),
{
    proof {
        reveal_strlit("hab");
        reveal_strlit("pkgs");
    }
    let segs = split_bytes(path, 47);
    let ghost segs0 = segs.deep_view();
    let mut from: usize = 0;
    if segs.len() > 0 && segs[0].len() == 0 {
        from = 1;
    }
    let ghost sg = if segs0.len() > 0 && segs0[0].len() == 0 {
        segs0.skip(1)
    } else {
        segs0
    };
    proof {
        assert(segs0[0] == segs@[0]@);
        assert(sg.len() == segs0.len() - from);
        assert forall|k: int| 0 <= k < sg.len() implies sg[k] == segs0[k + from] by {
            if from == 1 {
                assert(segs0.skip(1)[k] == segs0[k + 1]);
            }
        }
    }
    if segs.len() - from != 7 {
        return false;
    }
    let hab: [u8; 3] = [104, 97, 98];
    let pkgs: [u8; 4] = [112, 107, 103, 115];
    let c0 = eq_bytes(segs[from].as_slice(), hab.as_slice());
    let c1 = eq_bytes(segs[from + 1].as_slice(), pkgs.as_slice());
    let c2 = segs[from + 2].len() > 0;
    let c3 = segs[from + 3].len() > 0;
    let c4 = segs[from + 4].len() > 0;
    let c5 = segs[from + 5].len() > 0;
    let c6 = eq_bytes(segs[from + 6].as_slice(), name.as_bytes());
    proof {
        assert(hab@ =~= "hab"@.map_values(|c: char| c as u8));
        assert(pkgs@ =~= "pkgs"@.map_values(|c: char| c as u8));
        assert(forall|j: int| 0 <= j < segs0.len() ==> segs0[j] == (#[trigger] segs@[j])@);
        assert(sg[0] == segs@[from as int]@);
        assert(sg[1] == segs@[from + 1]@);
        assert(sg[2] == segs@[from + 2]@);
        assert(sg[3] == segs@[from + 3]@);
        assert(sg[4] == segs@[from + 4]@);
        assert(sg[5] == segs@[from + 5]@);
        assert(sg[6] == segs@[from + 6]@);
        assert(segs@[from + 2]@.len() == segs@[from + 2].len());
    }
    c0 && c1 && c2 && c3 && c4 && c5 && c6
}

/// Whether two byte strings are equal.
pub fn eq_bytes(a: &[u8], b: &[u8]) -> (r: bool)
    ensures
        r == (a@ == b@),
{
    if a.len() != b.len() {
        proof {
            if a@ == b@ {
                assert(a@.len() == b@.len());
            }
        }
        return false;
    }
    let mut i: usize = 0;
    while i < a.len()
        invariant
            0 <= i <= a@.len(),
            a@.len() == b@.len(),
            forall|j: int| 0 <= j < i ==> a@[j] == b@[j],
        decreases a@.len() - i,
    {
        if a[i] != b[i] {
            return false;
        }
        i = i + 1;
    }
    proof {
        assert(a@ =~= b@);
    }
    true
}


/// Errors of the package-archive subsystem.
#[derive(Clone, Debug)]
pub enum ArchiveError {
    /// The archive's entries have not been handed in yet.
    ArchiveNotRead,
    /// A metadata file's content is not text.
    MetaFileMalformed { file: MetaFile },
    /// A required metadata file is missing.
    MetaFileNotFound { file: MetaFile },
    /// A dependency line is not a package identifier.
    InvalidPackageIdent { ident: String },
    /// A dependency must name origin, name, version and release.
    FullyQualifiedPackageIdentRequired { ident: String },
    /// An unknown package type.
    InvalidPackageType { value: String },
    /// An unknown package target.
    InvalidPackageTarget { value: String },
}

/// A package identifier: `origin/name[/version[/release]]`.
#[derive(Clone, Debug, PartialEq, Eq)]
pub struct PackageIdent {
    pub origin: String,
    pub name: String,
    pub version: Option<String>,
    pub release: Option<String>,
}

/// Whether the slash-split segments spell a well-formed identifier.
pub open spec fn ident_segs_ok(segs: Seq<Seq<u8>>) -> bool {
    2 <= segs.len() <= 4 && forall|i: int| 0 <= i < segs.len() ==> (#[trigger] segs[i]).len() > 0
}

impl PackageIdent {
    /// Parses `origin/name[/version[/release]]`; anything else is an
    /// invalid identifier.
    pub fn from_str(text: &str) -> (r: Result<PackageIdent, ArchiveError>)
        ensures
            !ident_segs_ok(split_byte(text.spec_bytes(), 47)) ==> r is Err,
            r matches Err(e) ==> (e matches ArchiveError::InvalidPackageIdent { ident }
                && ident@ == text@),
            r matches Ok(id) ==> ({
                let segs = split_byte(text.spec_bytes(), 47);
                &&& ident_segs_ok(segs)
                &&& crate::text::bytes_of(id.origin@) == segs[0]
                &&& crate::text::bytes_of(id.name@) == segs[1]
                &&& (id.version matches Some(v) ==> segs.len() >= 3 && crate::text::bytes_of(v@)
                    == segs[2])
                &&& (id.version is None <==> segs.len() < 3)
                &&& (id.release matches Some(v) ==> segs.len() == 4 && crate::text::bytes_of(v@)
                    == segs[3])
                &&& (id.release is None <==> segs.len() < 4)
            }),
    {
        let segs = split_bytes(text.as_bytes(), 47);
        let ghost sg = segs.deep_view();
        proof {
            assert(forall|j: int| 0 <= j < sg.len() ==> sg[j] == (#[trigger] segs@[j])@);
        }
        if segs.len() < 2 || segs.len() > 4 {
            return Err(ArchiveError::InvalidPackageIdent { ident: text.to_owned() });
        }
        let mut k: usize = 0;
        while k < segs.len()
            invariant
                0 <= k <= segs@.len(),
                sg == segs.deep_view(),
                forall|j: int| 0 <= j < k ==> (#[trigger] sg[j]).len() > 0,
            decreases segs@.len() - k,
        {
            if segs[k].len() == 0 {
                proof {
                    assert(sg[k as int].len() == 0);
                }
                return Err(ArchiveError::InvalidPackageIdent { ident: text.to_owned() });
            }
            k = k + 1;
        }
        let origin = match crate::text::string_from_utf8(segs[0].as_slice()) {
            Some(x) => x,
            None => {
                return Err(ArchiveError::InvalidPackageIdent { ident: text.to_owned() });
            },
        };
        let name = match crate::text::string_from_utf8(segs[1].as_slice()) {
            Some(x) => x,
            None => {
                return Err(ArchiveError::InvalidPackageIdent { ident: text.to_owned() });
            },
        };
        let version: Option<String> = if segs.len() >= 3 {
            match crate::text::string_from_utf8(segs[2].as_slice()) {
                Some(x) => Some(x),
                None => {
                    return Err(ArchiveError::InvalidPackageIdent { ident: text.to_owned() });
                },
            }
        } else {
            None
        };
        let release: Option<String> = if segs.len() == 4 {
            match crate::text::string_from_utf8(segs[3].as_slice()) {
                Some(x) => Some(x),
                None => {
                    return Err(ArchiveError::InvalidPackageIdent { ident: text.to_owned() });
                },
            }
        } else {
            None
        };
        proof {
            vstd::utf8::decode_utf8_encode_utf8(sg[0]);
            vstd::utf8::decode_utf8_encode_utf8(sg[1]);
            if sg.len() >= 3 {
                vstd::utf8::decode_utf8_encode_utf8(sg[2]);
            }
            if sg.len() == 4 {
                vstd::utf8::decode_utf8_encode_utf8(sg[3]);
            }
        }
        Ok(PackageIdent { origin, name, version, release })
    }

    /// Whether this identifier names an exact release.
    pub fn fully_qualified(&self) -> (r: bool)
        ensures
            r == (self.version is Some && self.release is Some),
    {
        self.version.is_some() && self.release.is_some()
    }

    /// The textual `origin/name[/version[/release]]` form.
    pub fn ident_string(&self) -> (r: String)
        ensures
            r@ == self.origin@ + "/"@ + self.name@ + (match self.version {
                Some(v) => "/"@ + v@ + (match self.release {
                    Some(rl) => "/"@ + rl@,
                    None => Seq::<char>::empty(),
                }),
                None => Seq::<char>::empty(),
            }),
    {
        let mut out = self.origin.clone();
        out.append("/");
        out.append(self.name.as_str());
        match &self.version {
            Some(v) => {
                out.append("/");
                out.append(v.as_str());
                match &self.release {
                    Some(rl) => {
                        out.append("/");
                        out.append(rl.as_str());
                    },
                    None => {},
                }
            },
            None => {},
        }
        proof {
            assert(out@ =~= self.origin@ + "/"@ + self.name@ + (match self.version {
                Some(v) => "/"@ + v@ + (match self.release {
                    Some(rl) => "/"@ + rl@,
                    None => Seq::<char>::empty(),
                }),
                None => Seq::<char>::empty(),
            }));
        }
        out
    }
}

/// What a package is for the runtime: a standalone service or a composite.
#[derive(Clone, Copy, Debug, PartialEq, Eq, Structural)]
pub enum PackageType {
    Standalone,
    Composite,
}

impl PackageType {
    /// Parses the TYPE metadata value.
    pub fn from_str(text: &str) -> (r: Result<PackageType, ArchiveError>)
        ensures
            text@ == "standalone"@ ==> (r matches Ok(t) && t is Standalone),
            text@ == "composite"@ ==> (r matches Ok(t) && t is Composite),
            (text@ != "standalone"@ && text@ != "composite"@) ==> (r matches Err(e) && (e
                matches ArchiveError::InvalidPackageType { value } && value@ == text@)),
    {
        proof {
            reveal_strlit("standalone");
            reveal_strlit("composite");
        }
        if crate::text::str_eq(text, "standalone") {
            proof {
                assert("standalone"@.len() == 10);
                assert("composite"@.len() == 9);
                assert(text@ != "composite"@);
            }
            Ok(PackageType::Standalone)
        } else if crate::text::str_eq(text, "composite") {
            Ok(PackageType::Composite)
        } else {
            Err(ArchiveError::InvalidPackageType { value: text.to_owned() })
        }
    }
}

/// A package target: the platform triple a package was built for.
#[derive(Clone, Debug, PartialEq, Eq)]
pub struct PackageTarget {
    pub triple: String,
}

/// The targets this code knows about.
pub open spec fn known_target(s: Seq<char>) -> bool {
    s == "x86_64-linux"@ || s == "x86_64-linux-kernel2"@ || s == "x86_64-windows"@ || s
        == "x86_64-darwin"@
}

impl PackageTarget {
    /// Parses the TARGET metadata value against the known target set.
    pub fn from_str(text: &str) -> (r: Result<PackageTarget, ArchiveError>)
        ensures
            known_target(text@) ==> (r matches Ok(t) && t.triple@ == text@),
            !known_target(text@) ==> (r matches Err(e) && (e
                matches ArchiveError::InvalidPackageTarget { value } && value@ == text@)),
    {
        if crate::text::str_eq(text, "x86_64-linux") || crate::text::str_eq(
            text,
            "x86_64-linux-kernel2",
        ) || crate::text::str_eq(text, "x86_64-windows") || crate::text::str_eq(
            text,
            "x86_64-darwin",
        ) {
            Ok(PackageTarget { triple: text.to_owned() })
        } else {
            Err(ArchiveError::InvalidPackageTarget { value: text.to_owned() })
        }
    }

    /// The x86_64 Linux target.
    pub fn x86_64_linux() -> (r: PackageTarget)
        ensures
            r.triple@ == "x86_64-linux"@,
    {
        PackageTarget { triple: "x86_64-linux".to_owned() }
    }
}


/// Whether a byte is ASCII whitespace.
pub open spec fn is_ws(b: u8) -> bool {
    b == 32 || b == 9 || b == 10 || b == 11 || b == 12 || b == 13
}

/// `s` without leading whitespace.
pub open spec fn trim_front(s: Seq<u8>) -> Seq<u8>
    decreases s.len(),
{
    if s.len() > 0 && is_ws(s[0]) {
        trim_front(s.skip(1))
    } else {
        s
    }
}

/// `s` without trailing whitespace.
pub open spec fn trim_back(s: Seq<u8>) -> Seq<u8>
    decreases s.len(),
{
    if s.len() > 0 && is_ws(s.last()) {
        trim_back(s.drop_last())
    } else {
        s
    }
}

/// `s` without leading or trailing whitespace.
pub open spec fn trimmed(s: Seq<u8>) -> Seq<u8> {
    trim_back(trim_front(s))
}

/// Trims ASCII whitespace from both ends.
pub fn trim_bytes(b: &[u8]) -> (r: Vec<u8>)
    ensures
        r@ == trimmed(b@),
{
    let mut start: usize = 0;
    proof {
        assert(b@.skip(0) =~= b@);
    }
    while start < b.len() && (b[start] == 32 || b[start] == 9 || b[start] == 10 || b[start]
        == 11 || b[start] == 12 || b[start] == 13)
        invariant
            0 <= start <= b@.len(),
            trim_front(b@) == trim_front(b@.skip(start as int)),
        decreases b@.len() - start,
    {
        proof {
            assert(b@.skip(start as int)[0] == b@[start as int]);
            assert(b@.skip(start as int).skip(1) =~= b@.skip(start + 1));
        }
        start = start + 1;
    }
    proof {
        if start < b@.len() {
            assert(b@.skip(start as int)[0] == b@[start as int]);
        }
        assert(trim_front(b@) == b@.skip(start as int));
    }
    let mut end: usize = b.len();
    while end > start && (b[end - 1] == 32 || b[end - 1] == 9 || b[end - 1] == 10 || b[end - 1]
        == 11 || b[end - 1] == 12 || b[end - 1] == 13)
        invariant
            start <= end <= b@.len(),
            trim_front(b@) == b@.skip(start as int),
            trim_back(b@.skip(start as int)) == trim_back(b@.subrange(start as int, end as int)),
        decreases end,
    {
        proof {
            let cur = b@.subrange(start as int, end as int);
            assert(cur.last() == b@[end - 1]);
            assert(cur.drop_last() =~= b@.subrange(start as int, end - 1));
        }
        end = end - 1;
    }
    proof {
        let cur = b@.subrange(start as int, end as int);
        if end > start {
            assert(cur.last() == b@[end - 1]);
        }
        assert(trim_back(cur) == cur);
        assert(b@.skip(start as int) =~= b@.subrange(start as int, b@.len() as int));
    }
    vstd::slice::slice_to_vec(vstd::slice::slice_subrange(b, start, end))
}

/// The metadata kind an entry path names, if any.
pub open spec fn entry_match(path: Seq<u8>) -> Option<MetaFile> {
    if metafile_path_match(path, bytes_of("CFLAGS"@)) {
        Some(MetaFile::CFlags)
    } else if metafile_path_match(path, bytes_of("CONFIG"@)) {
        Some(MetaFile::Config)
    } else if metafile_path_match(path, bytes_of("DEPS"@)) {
        Some(MetaFile::Deps)
    } else if metafile_path_match(path, bytes_of("TDEPS"@)) {
        Some(MetaFile::TDeps)
    } else if metafile_path_match(path, bytes_of("BUILD_DEPS"@)) {
        Some(MetaFile::BuildDeps)
    } else if metafile_path_match(path, bytes_of("BUILD_TDEPS"@)) {
        Some(MetaFile::BuildTDeps)
    } else if metafile_path_match(path, bytes_of("EXPOSES"@)) {
        Some(MetaFile::Exposes)
    } else if metafile_path_match(path, bytes_of("IDENT"@)) {
        Some(MetaFile::Ident)
    } else if metafile_path_match(path, bytes_of("LD_RUN_PATH"@)) {
        Some(MetaFile::LdRunPath)
    } else if metafile_path_match(path, bytes_of("LDFLAGS"@)) {
        Some(MetaFile::LdFlags)
    } else if metafile_path_match(path, bytes_of("SVC_USER"@)) {
        Some(MetaFile::SvcUser)
    } else if metafile_path_match(path, bytes_of("SERVICES"@)) {
        Some(MetaFile::Services)
    } else if metafile_path_match(path, bytes_of("RESOLVED_SERVICES"@)) {
        Some(MetaFile::ResolvedServices)
    } else if metafile_path_match(path, bytes_of("MANIFEST"@)) {
        Some(MetaFile::Manifest)
    } else if metafile_path_match(path, bytes_of("PATH"@)) {
        Some(MetaFile::Path)
    } else if metafile_path_match(path, bytes_of("TARGET"@)) {
        Some(MetaFile::Target)
    } else if metafile_path_match(path, bytes_of("TYPE"@)) {
        Some(MetaFile::Type)
    } else {
        None
    }
}

/// Decides `entry_match` for an entry path.
fn match_entry(path: &[u8]) -> (r: Option<MetaFile>)
    ensures
        r == entry_match(path@),
{
    if path_matches_metafile(path, MetaFile::CFlags.name()) {
        Some(MetaFile::CFlags)
    } else if path_matches_metafile(path, MetaFile::Config.name()) {
        Some(MetaFile::Config)
    } else if path_matches_metafile(path, MetaFile::Deps.name()) {
        Some(MetaFile::Deps)
    } else if path_matches_metafile(path, MetaFile::TDeps.name()) {
        Some(MetaFile::TDeps)
    } else if path_matches_metafile(path, MetaFile::BuildDeps.name()) {
        Some(MetaFile::BuildDeps)
    } else if path_matches_metafile(path, MetaFile::BuildTDeps.name()) {
        Some(MetaFile::BuildTDeps)
    } else if path_matches_metafile(path, MetaFile::Exposes.name()) {
        Some(MetaFile::Exposes)
    } else if path_matches_metafile(path, MetaFile::Ident.name()) {
        Some(MetaFile::Ident)
    } else if path_matches_metafile(path, MetaFile::LdRunPath.name()) {
        Some(MetaFile::LdRunPath)
    } else if path_matches_metafile(path, MetaFile::LdFlags.name()) {
        Some(MetaFile::LdFlags)
    } else if path_matches_metafile(path, MetaFile::SvcUser.name()) {
        Some(MetaFile::SvcUser)
    } else if path_matches_metafile(path, MetaFile::Services.name()) {
        Some(MetaFile::Services)
    } else if path_matches_metafile(path, MetaFile::ResolvedServices.name()) {
        Some(MetaFile::ResolvedServices)
    } else if path_matches_metafile(path, MetaFile::Manifest.name()) {
        Some(MetaFile::Manifest)
    } else if path_matches_metafile(path, MetaFile::Path.name()) {
        Some(MetaFile::Path)
    } else if path_matches_metafile(path, MetaFile::Target.name()) {
        Some(MetaFile::Target)
    } else if path_matches_metafile(path, MetaFile::Type.name()) {
        Some(MetaFile::Type)
    } else {
        None
    }
}

/// The map a metadata entry list spells: later entries shadow earlier.
pub open spec fn mfmap(es: Seq<(MetaFile, Seq<char>)>) -> Map<MetaFile, Seq<char>>
    decreases es.len(),
{
    if es.len() == 0 {
        Map::empty()
    } else {
        mfmap(es.drop_last()).insert(es.last().0, es.last().1)
    }
}

/// The entry list of a whole archive, viewed as path and content bytes.
pub open spec fn entries_view(es: Seq<(String, Vec<u8>)>) -> Seq<(Seq<u8>, Seq<u8>)> {
    Seq::new(es.len(), |i: int| (bytes_of(es[i].0@), es[i].1@))
}

/// The metadata an archive's entries carry: every matching entry, trimmed
/// and decoded, later entries shadowing earlier ones.
pub open spec fn meta_view(ev: Seq<(Seq<u8>, Seq<u8>)>) -> Map<MetaFile, Seq<char>>
    decreases ev.len(),
{
    if ev.len() == 0 {
        Map::empty()
    } else {
        let m = meta_view(ev.drop_last());
        match entry_match(ev.last().0) {
            Some(f) => if vstd::utf8::valid_utf8(trimmed(ev.last().1)) {
                m.insert(f, vstd::utf8::decode_utf8(trimmed(ev.last().1)))
            } else {
                m
            },
            None => m,
        }
    }
}

/// Whether every matching entry's trimmed content is text.
pub open spec fn meta_ok(ev: Seq<(Seq<u8>, Seq<u8>)>) -> bool {
    forall|i: int|
        0 <= i < ev.len() ==> (entry_match((#[trigger] ev[i]).0) is Some
            ==> vstd::utf8::valid_utf8(trimmed(ev[i].1)))
}

/// A package archive: its file path and, once the caller has handed the
/// entries in, the metadata extracted from them.
#[derive(Clone, Debug)]
pub struct PackageArchive {
    pub path: String,
    metadata: Option<Vec<(MetaFile, String)>>,
}

impl PackageArchive {
    /// The archive's file path.
    pub closed spec fn spec_path(&self) -> Seq<char> {
        self.path@
    }

    /// The extracted metadata, once loaded.
    pub closed spec fn meta(&self) -> Option<Map<MetaFile, Seq<char>>> {
        match self.metadata {
            Some(v) => Some(
                mfmap(Seq::new(v@.len(), |i: int| (v@[i].0, v@[i].1@))),
            ),
            None => None,
        }
    }

    /// An archive handle for the file at `path`; nothing is read yet.
    pub fn new(path: &str) -> (r: PackageArchive)
        ensures
            r.spec_path() == path@,
            r.meta() is None,
    {
        PackageArchive { path: path.to_owned(), metadata: None }
    }

    /// Extracts the metadata from the archive's entries: each entry whose
    /// path names a metadata file contributes its content, trimmed of
    /// surrounding whitespace. A matching entry that is not text is
    /// malformed.
    pub fn load(&mut self, entries: &Vec<(String, Vec<u8>)>) -> (r: Result<(), ArchiveError>)
        ensures
            meta_ok(entries_view(entries@)) ==> (r is Ok && final(self).meta() == Some(
                meta_view(entries_view(entries@)),
            )),
            !meta_ok(entries_view(entries@)) ==> (r matches Err(e) && (e
                matches ArchiveError::MetaFileMalformed { file }) && final(self).meta() == old(
                self,
            ).meta()),
            final(self).spec_path() == old(self).spec_path(),
    {
        let ghost ev = entries_view(entries@);
        let mut built: Vec<(MetaFile, String)> = Vec::new();
        let mut i: usize = 0;
        while i < entries.len()
            invariant
                0 <= i <= entries@.len(),
                ev == entries_view(entries@),
                mfmap(Seq::new(built@.len(), |q: int| (built@[q].0, built@[q].1@)))
                    == meta_view(ev.subrange(0, i as int)),
                forall|q: int|
                    0 <= q < i ==> (entry_match((#[trigger] ev[q]).0) is Some
                        ==> vstd::utf8::valid_utf8(trimmed(ev[q].1))),
                self.metadata == old(self).metadata,
                self.path == old(self).path,
            decreases entries@.len() - i,
        {
            let ghost pre = Seq::new(built@.len(), |q: int| (built@[q].0, built@[q].1@));
            let matched = match_entry(entries[i].0.as_str().as_bytes());
            proof {
                assert(ev[i as int] == (bytes_of(entries@[i as int].0@), entries@[i as int].1@));
                assert(ev.subrange(0, i + 1).drop_last() =~= ev.subrange(0, i as int));
                assert(ev.subrange(0, i + 1).last() == ev[i as int]);
            }
            match matched {
                Some(f) => {
                    let t = trim_bytes(entries[i].1.as_slice());
                    match crate::text::string_from_utf8(t.as_slice()) {
                        Some(text) => {
                            built.push((f, text));
                            proof {
                                let now = Seq::new(
                                    built@.len(),
                                    |q: int| (built@[q].0, built@[q].1@),
                                );
                                assert(now.drop_last() =~= pre);
                                assert(mfmap(now) == mfmap(pre).insert(
                                    now.last().0,
                                    now.last().1,
                                ));
                                assert(mfmap(now) == meta_view(ev.subrange(0, i + 1)));
                            }
                        },
                        None => {
                            proof {
                                assert(!meta_ok(ev)) by {
                                    assert(entry_match(ev[i as int].0) is Some);
                                    assert(!vstd::utf8::valid_utf8(trimmed(ev[i as int].1)));
                                }
                            }
                            return Err(ArchiveError::MetaFileMalformed { file: f });
                        },
                    }
                },
                None => {
                    proof {
                        assert(mfmap(pre) == meta_view(ev.subrange(0, i + 1)));
                    }
                },
            }
            i = i + 1;
        }
        proof {
            assert(ev.subrange(0, ev.len() as int) =~= ev);
        }
        self.metadata = Some(built);
        Ok(())
    }

    /// The stored value of one metadata file, cloned; the last matching
    /// entry wins.
    fn meta_get(&self, f: MetaFile) -> (r: Option<String>)
        requires
            self.meta() is Some,
        ensures
            match r {
                Some(x) => self.meta() matches Some(m) && m.contains_key(f) && x@ == m[f],
                None => self.meta() matches Some(m) && !m.contains_key(f),
            },
    {
        let v = match &self.metadata {
            Some(v) => v,
            None => {
                proof {
                    assert(false);
                }
                return None;
            },
        };
        let ghost es = Seq::new(v@.len(), |q: int| (v@[q].0, v@[q].1@));
        proof {
            assert(self.metadata == Some(*v));
            assert(self.meta() == Some(mfmap(es)));
        }
        let mut k: usize = v.len();
        while k > 0
            invariant
                0 <= k <= v@.len(),
                es == Seq::new(v@.len(), |q: int| (v@[q].0, v@[q].1@)),
                self.meta() == Some(mfmap(es)),
                forall|j: int| k <= j < es.len() ==> (#[trigger] es[j]).0 != f,
            decreases k,
        {
            k = k - 1;
            if metafile_eq(&v[k].0, &f) {
                let x = v[k].1.clone();
                proof {
                    assert(es[k as int].0 == v@[k as int].0);
                    lemma_mfmap_last(es, f, k as int);
                    assert(mfmap(es).contains_key(f));
                    assert(x@ == mfmap(es)[f]);
                    assert(self.meta() matches Some(m) && m.contains_key(f) && x@ == m[f]);
                }
                return Some(x);
            }
            proof {
                assert(es[k as int].0 == v@[k as int].0);
            }
        }
        proof {
            lemma_mfmap_absent(es, f);
        }
        None
    }
}

/// Whether two metadata kinds are the same.
fn metafile_eq(a: &MetaFile, b: &MetaFile) -> (r: bool)
    ensures
        r == (a == b),
{
    *a == *b
}

/// The last entry with a key gives the map's value at it.
proof fn lemma_mfmap_last(es: Seq<(MetaFile, Seq<char>)>, f: MetaFile, i: int)
    requires
        0 <= i < es.len(),
        es[i].0 == f,
        forall|j: int| i < j < es.len() ==> (#[trigger] es[j]).0 != f,
    ensures
        mfmap(es).contains_key(f),
        mfmap(es)[f] == es[i].1,
    decreases es.len(),
{
    if i == es.len() - 1 {
    } else {
        assert(es.drop_last()[i] == es[i]);
        assert(forall|j: int|
            i < j < es.drop_last().len() ==> (#[trigger] es.drop_last()[j]).0 != f);
        lemma_mfmap_last(es.drop_last(), f, i);
        assert(es[es.len() - 1].0 != f);
    }
}

/// A key no entry carries is not in the map.
proof fn lemma_mfmap_absent(es: Seq<(MetaFile, Seq<char>)>, f: MetaFile)
    requires
        forall|j: int| 0 <= j < es.len() ==> (#[trigger] es[j]).0 != f,
    ensures
        !mfmap(es).contains_key(f),
    decreases es.len(),
{
    if es.len() > 0 {
        assert(forall|j: int|
            0 <= j < es.drop_last().len() ==> (#[trigger] es.drop_last()[j]).0 != f);
        lemma_mfmap_absent(es.drop_last(), f);
        assert(es[es.len() - 1].0 != f);
    }
}


/// The lines of a text: split at newlines, a trailing carriage return
/// stripped from each, a final empty piece (from a trailing newline)
/// dropped.
pub open spec fn text_lines(b: Seq<u8>) -> Seq<Seq<u8>> {
    let raw = split_byte(b, 10);
    let raw2 = if raw.len() > 0 && raw.last().len() == 0 {
        raw.drop_last()
    } else {
        raw
    };
    Seq::new(
        raw2.len(),
        |i: int|
            if raw2[i].len() > 0 && raw2[i].last() == 13 {
                raw2[i].drop_last()
            } else {
                raw2[i]
            },
    )
}

/// The exposed ports a text spells: every whitespace-separated token that
/// parses as a 16-bit port number, in order. Splitting treats every
/// whitespace byte alike, and empty pieces parse as nothing.
pub open spec fn ports_of(b: Seq<u8>) -> Seq<u16> {
    ports_of_tokens(split_byte(canon_ws(b), 32))
}

/// Every ASCII whitespace byte replaced by a space.
pub open spec fn canon_ws(b: Seq<u8>) -> Seq<u8> {
    Seq::new(
        b.len(),
        |i: int|
            if is_ws(b[i]) {
                32u8
            } else {
                b[i]
            },
    )
}

/// The ports among a token list.
pub open spec fn ports_of_tokens(ts: Seq<Seq<u8>>) -> Seq<u16>
    decreases ts.len(),
{
    if ts.len() == 0 {
        Seq::<u16>::empty()
    } else {
        let rest = ports_of_tokens(ts.drop_last());
        match crate::text::parse_u64_spec(ts.last()) {
            Some(n) => if n <= u16::MAX {
                rest.push(n as u16)
            } else {
                rest
            },
            None => rest,
        }
    }
}

/// Parses the exposed ports of an EXPOSES text.
pub fn parse_ports(b: &[u8]) -> (r: Vec<u16>)
    ensures
        r@ == ports_of(b@),
{
    let mut canon: Vec<u8> = Vec::new();
    let mut i: usize = 0;
    while i < b.len()
        invariant
            0 <= i <= b@.len(),
            canon@ == canon_ws(b@).subrange(0, i as int),
        decreases b@.len() - i,
    {
        let x = b[i];
        let y: u8 = if x == 32 || x == 9 || x == 10 || x == 11 || x == 12 || x == 13 {
            32
        } else {
            x
        };
        canon.push(y);
        proof {
            assert(canon@ =~= canon_ws(b@).subrange(0, i + 1));
        }
        i = i + 1;
    }
    proof {
        assert(canon@ =~= canon_ws(b@));
    }
    let toks = split_bytes(canon.as_slice(), 32);
    let ghost ts = toks.deep_view();
    let mut out: Vec<u16> = Vec::new();
    let mut k: usize = 0;
    while k < toks.len()
        invariant
            0 <= k <= toks@.len(),
            ts == toks.deep_view(),
            out@ == ports_of_tokens(ts.subrange(0, k as int)),
        decreases toks@.len() - k,
    {
        proof {
            assert(ts.subrange(0, k + 1).drop_last() =~= ts.subrange(0, k as int));
            assert(ts.subrange(0, k + 1).last() == ts[k as int]);
            assert(ts[k as int] == toks@[k as int]@);
        }
        match crate::text::parse_u64_dec(toks[k].as_slice()) {
            Some(n) => {
                if n <= u16::MAX as u64 {
                    out.push(n as u16);
                    proof {
                        assert(out@ =~= ports_of_tokens(ts.subrange(0, k + 1)));
                    }
                }
            },
            None => {},
        }
        k = k + 1;
    }
    proof {
        assert(ts.subrange(0, ts.len() as int) =~= ts);
        assert(ts.len() == toks@.len());
    }
    out
}

impl PackageArchive {
    /// One optional metadata value, cloned.
    fn meta_opt(&self, f: MetaFile) -> (r: Result<Option<String>, ArchiveError>)
        ensures
            match self.meta() {
                Some(m) => match r {
                    Ok(Some(x)) => m.contains_key(f) && x@ == m[f],
                    Ok(None) => !m.contains_key(f),
                    Err(_) => false,
                },
                None => r matches Err(e) && (e matches ArchiveError::ArchiveNotRead),
            },
    {
        match &self.metadata {
            None => Err(ArchiveError::ArchiveNotRead),
            Some(_) => Ok(self.meta_get(f)),
        }
    }

    /// One required metadata value.
    fn meta_req(&self, f: MetaFile) -> (r: Result<String, ArchiveError>)
        ensures
            match self.meta() {
                Some(m) => match r {
                    Ok(x) => m.contains_key(f) && x@ == m[f],
                    Err(e) => !m.contains_key(f) && (e matches ArchiveError::MetaFileNotFound {
                        file,
                    } && file == f),
                },
                None => r matches Err(e) && (e matches ArchiveError::ArchiveNotRead),
            },
    {
        match self.meta_opt(f) {
            Err(e) => Err(e),
            Ok(Some(x)) => Ok(x),
            Ok(None) => Err(ArchiveError::MetaFileNotFound { file: f }),
        }
    }

    /// The CFLAGS the package was built with.
    pub fn cflags(&self) -> (r: Result<Option<String>, ArchiveError>)
        ensures
            match self.meta() {
                Some(m) => match r {
                    Ok(Some(x)) => m.contains_key(MetaFile::CFlags) && x@ == m[MetaFile::CFlags],
                    Ok(None) => !m.contains_key(MetaFile::CFlags),
                    Err(_) => false,
                },
                None => r is Err,
            },
    {
        self.meta_opt(MetaFile::CFlags)
    }

    /// The package's default configuration text.
    pub fn config(&self) -> (r: Result<Option<String>, ArchiveError>)
        ensures
            match self.meta() {
                Some(m) => match r {
                    Ok(Some(x)) => m.contains_key(MetaFile::Config) && x@ == m[MetaFile::Config],
                    Ok(None) => !m.contains_key(MetaFile::Config),
                    Err(_) => false,
                },
                None => r is Err,
            },
    {
        self.meta_opt(MetaFile::Config)
    }

    /// The LD_RUN_PATH the package was built with.
    pub fn ld_run_path(&self) -> (r: Result<Option<String>, ArchiveError>)
        ensures
            match self.meta() {
                Some(m) => match r {
                    Ok(Some(x)) => m.contains_key(MetaFile::LdRunPath) && x@
                        == m.index(MetaFile::LdRunPath),
                    Ok(None) => !m.contains_key(MetaFile::LdRunPath),
                    Err(_) => false,
                },
                None => r is Err,
            },
    {
        self.meta_opt(MetaFile::LdRunPath)
    }

    /// The LDFLAGS the package was built with.
    pub fn ldflags(&self) -> (r: Result<Option<String>, ArchiveError>)
        ensures
            match self.meta() {
                Some(m) => match r {
                    Ok(Some(x)) => m.contains_key(MetaFile::LdFlags) && x@ == m.index(
                        MetaFile::LdFlags,
                    ),
                    Ok(None) => !m.contains_key(MetaFile::LdFlags),
                    Err(_) => false,
                },
                None => r is Err,
            },
    {
        self.meta_opt(MetaFile::LdFlags)
    }

    /// The PATH entries the package provides.
    pub fn path(&self) -> (r: Result<Option<String>, ArchiveError>)
        ensures
            match self.meta() {
                Some(m) => match r {
                    Ok(Some(x)) => m.contains_key(MetaFile::Path) && x@ == m[MetaFile::Path],
                    Ok(None) => !m.contains_key(MetaFile::Path),
                    Err(_) => false,
                },
                None => r is Err,
            },
    {
        self.meta_opt(MetaFile::Path)
    }

    /// The user the package's service runs as.
    pub fn svc_user(&self) -> (r: Result<String, ArchiveError>)
        ensures
            match self.meta() {
                Some(m) => match r {
                    Ok(x) => m.contains_key(MetaFile::SvcUser) && x@ == m[MetaFile::SvcUser],
                    Err(e) => !m.contains_key(MetaFile::SvcUser) && (e
                        matches ArchiveError::MetaFileNotFound { file } && file
                        == MetaFile::SvcUser),
                },
                None => r matches Err(e) && (e matches ArchiveError::ArchiveNotRead),
            },
    {
        self.meta_req(MetaFile::SvcUser)
    }

    /// The package's manifest text.
    pub fn manifest(&self) -> (r: Result<String, ArchiveError>)
        ensures
            match self.meta() {
                Some(m) => match r {
                    Ok(x) => m.contains_key(MetaFile::Manifest) && x@ == m[MetaFile::Manifest],
                    Err(e) => !m.contains_key(MetaFile::Manifest) && (e
                        matches ArchiveError::MetaFileNotFound { file } && file
                        == MetaFile::Manifest),
                },
                None => r matches Err(e) && (e matches ArchiveError::ArchiveNotRead),
            },
    {
        self.meta_req(MetaFile::Manifest)
    }

    /// Whether the archive holds a service: the build writes SVC_USER
    /// exactly for services.
    pub fn is_a_service(&self) -> (r: bool)
        ensures
            r == (self.meta() matches Some(m) && m.contains_key(MetaFile::SvcUser)),
    {
        match self.svc_user() {
            Ok(_) => true,
            Err(_) => false,
        }
    }

    /// The package's own identifier.
    pub fn ident(&self) -> (r: Result<PackageIdent, ArchiveError>)
        ensures
            match self.meta() {
                Some(m) => {
                    &&& (!m.contains_key(MetaFile::Ident) ==> (r matches Err(e) && (e
                        matches ArchiveError::MetaFileNotFound { file } && file
                        == MetaFile::Ident)))
                    &&& (m.contains_key(MetaFile::Ident) ==> (r matches Ok(id) ==> ({
                        let segs = split_byte(bytes_of(m[MetaFile::Ident]), 47);
                        ident_segs_ok(segs) && crate::text::bytes_of(id.origin@) == segs[0]
                            && crate::text::bytes_of(id.name@) == segs[1] && (id.version
                            matches Some(v) ==> segs.len() >= 3 && crate::text::bytes_of(v@)
                            == segs[2]) && (id.release matches Some(v) ==> segs.len() == 4
                            && crate::text::bytes_of(v@) == segs[3])
                    })))
                },
                None => r is Err,
            },
    {
        match self.meta_req(MetaFile::Ident) {
            Err(e) => Err(e),
            Ok(text) => PackageIdent::from_str(text.as_str()),
        }
    }

    /// The package's type; a package without a TYPE file is standalone.
    pub fn package_type(&self) -> (r: Result<PackageType, ArchiveError>)
        ensures
            match self.meta() {
                Some(m) => {
                    &&& (!m.contains_key(MetaFile::Type) ==> (r matches Ok(t) && t
                        is Standalone))
                    &&& (m.contains_key(MetaFile::Type) ==> (m[MetaFile::Type] == "standalone"@
                        ==> (r matches Ok(t) && t is Standalone)) && (m[MetaFile::Type]
                        == "composite"@ ==> (r matches Ok(t) && t is Composite)) && ((m[
                        MetaFile::Type] != "standalone"@ && m[MetaFile::Type] != "composite"@)
                        ==> (r matches Err(e) && (e
                        matches ArchiveError::InvalidPackageType { value } && value@ == m[
                        MetaFile::Type]))))
                },
                None => r is Err,
            },
    {
        match self.meta_opt(MetaFile::Type) {
            Err(e) => Err(e),
            Ok(None) => Ok(PackageType::Standalone),
            Ok(Some(text)) => PackageType::from_str(text.as_str()),
        }
    }

    /// The platform target the package was built for.
    pub fn target(&self) -> (r: Result<PackageTarget, ArchiveError>)
        ensures
            match self.meta() {
                Some(m) => {
                    &&& (!m.contains_key(MetaFile::Target) ==> (r matches Err(e) && (e
                        matches ArchiveError::MetaFileNotFound { file } && file
                        == MetaFile::Target)))
                    &&& (m.contains_key(MetaFile::Target) ==> (known_target(m[MetaFile::Target])
                        ==> (r matches Ok(t) && t.triple@ == m[MetaFile::Target]))
                        && (!known_target(m[MetaFile::Target]) ==> r is Err))
                },
                None => r is Err,
            },
    {
        match self.meta_req(MetaFile::Target) {
            Err(e) => Err(e),
            Ok(text) => PackageTarget::from_str(text.as_str()),
        }
    }

    /// The ports the package exposes: every whitespace-separated token of
    /// the EXPOSES file that parses as a port number.
    pub fn exposes(&self) -> (r: Result<Vec<u16>, ArchiveError>)
        ensures
            match self.meta() {
                Some(m) => match r {
                    Ok(ports) => (m.contains_key(MetaFile::Exposes) ==> ports@ == ports_of(
                        bytes_of(m[MetaFile::Exposes]),
                    )) && (!m.contains_key(MetaFile::Exposes) ==> ports@ == Seq::<u16>::empty()),
                    Err(_) => false,
                },
                None => r is Err,
            },
    {
        match self.meta_opt(MetaFile::Exposes) {
            Err(e) => Err(e),
            Ok(None) => {
                let v: Vec<u16> = Vec::new();
                proof {
                    assert(v@ =~= Seq::<u16>::empty());
                }
                Ok(v)
            },
            Ok(Some(text)) => Ok(parse_ports(text.as_str().as_bytes())),
        }
    }

    /// The last component of the archive's file path; the whole path when
    /// that component is not self-contained text.
    pub fn file_name(&self) -> (r: String)
        ensures
            ({
                let segs = split_byte(crate::text::bytes_of(self.spec_path()), 47);
                vstd::utf8::valid_utf8(segs.last()) ==> crate::text::bytes_of(r@) == segs.last()
            }),
    {
        let segs = split_bytes(self.path.as_str().as_bytes(), 47);
        proof {
            lemma_split_nonempty(crate::text::bytes_of(self.spec_path()), 47);
            assert(segs.deep_view().len() > 0);
            assert(segs.deep_view().last() == segs@[segs@.len() - 1]@);
        }
        let last = &segs[segs.len() - 1];
        match crate::text::string_from_utf8(last.as_slice()) {
            Some(x) => {
                proof {
                    vstd::utf8::decode_utf8_encode_utf8(segs.deep_view().last());
                }
                x
            },
            None => self.path.clone(),
        }
    }
}

/// A split has at least one piece.
proof fn lemma_split_nonempty(b: Seq<u8>, sep: u8)
    ensures
        split_byte(b, sep).len() > 0,
    decreases b.len(),
{
    lemma_find_byte(b, sep);
    let i = find_byte(b, sep);
    if 0 <= i < b.len() {
    }
}


/// Whether every line of a dependency file is a well-formed identifier,
/// fully qualified where required.
pub open spec fn dep_lines_ok(b: Seq<u8>, must_fq: bool) -> bool {
    forall|i: int|
        0 <= i < text_lines(b).len() ==> ({
            let segs = split_byte(#[trigger] text_lines(b)[i], 47);
            ident_segs_ok(segs) && (must_fq ==> segs.len() == 4)
        })
}

/// A parsed dependency list matches its file: one identifier per line, in
/// file order, the fields spelling the line's slash-split segments, each
/// fully qualified where that is required.
pub open spec fn deps_parse_ok(b: Seq<u8>, must_fq: bool, ids: Seq<PackageIdent>) -> bool {
    let ls = text_lines(b);
    &&& ids.len() == ls.len()
    &&& forall|i: int|
        0 <= i < ls.len() ==> ({
            let segs = split_byte(#[trigger] ls[i], 47);
            &&& ident_segs_ok(segs)
            &&& (must_fq ==> segs.len() == 4)
            &&& bytes_of(ids[i].origin@) == segs[0]
            &&& bytes_of(ids[i].name@) == segs[1]
            &&& (ids[i].version matches Some(v) ==> segs.len() >= 3 && bytes_of(v@) == segs[2])
            &&& (ids[i].release matches Some(v) ==> segs.len() == 4 && bytes_of(v@) == segs[3])
        })
}

/// Parses a dependency file: one identifier per line.
pub fn parse_deps(b: &[u8], must_fq: bool) -> (r: Result<Vec<PackageIdent>, ArchiveError>)
    ensures
        r matches Ok(ids) ==> deps_parse_ok(b@, must_fq, ids@),
        !dep_lines_ok(b@, must_fq) ==> r is Err,
        r matches Err(e) ==> ((e matches ArchiveError::InvalidPackageIdent { ident }) || (e
            matches ArchiveError::FullyQualifiedPackageIdentRequired { ident })),
{
    let ghost ls = text_lines(b@);
    let mut raw = split_bytes(b, 10);
    proof {
        lemma_split_nonempty(b@, 10);
    }
    if raw.len() > 0 && raw[raw.len() - 1].len() == 0 {
        let _ = raw.pop();
    }
    let ghost raw2v = raw.deep_view();
    proof {
        let r0 = split_byte(b@, 10);
        if r0.len() > 0 && r0.last().len() == 0 {
            assert(raw2v =~= r0.drop_last());
        }
        assert(ls.len() == raw2v.len());
        assert(forall|i: int|
            0 <= i < ls.len() ==> #[trigger] ls[i] == (if raw2v[i].len() > 0 && raw2v[i].last()
                == 13 {
                raw2v[i].drop_last()
            } else {
                raw2v[i]
            }));
    }
    let mut out: Vec<PackageIdent> = Vec::new();
    let mut i: usize = 0;
    while i < raw.len()
        invariant
            0 <= i <= raw@.len(),
            raw2v == raw.deep_view(),
            ls.len() == raw2v.len(),
            forall|q: int|
                0 <= q < ls.len() ==> #[trigger] ls[q] == (if raw2v[q].len() > 0
                    && raw2v[q].last() == 13 {
                    raw2v[q].drop_last()
                } else {
                    raw2v[q]
                }),
            out@.len() == i,
            forall|q: int|
                0 <= q < i ==> ({
                    let segs = split_byte(#[trigger] ls[q], 47);
                    &&& ident_segs_ok(segs)
                    &&& (must_fq ==> segs.len() == 4)
                    &&& bytes_of(out@[q].origin@) == segs[0]
                    &&& bytes_of(out@[q].name@) == segs[1]
                    &&& (out@[q].version matches Some(v) ==> segs.len() >= 3 && bytes_of(v@)
                        == segs[2])
                    &&& (out@[q].release matches Some(v) ==> segs.len() == 4 && bytes_of(v@)
                        == segs[3])
                }),
        decreases raw@.len() - i,
    {
        let line_vec = &raw[i];
        let has_cr = line_vec.len() > 0 && line_vec[line_vec.len() - 1] == 13;
        let end = if has_cr {
            line_vec.len() - 1
        } else {
            line_vec.len()
        };
        let line = vstd::slice::slice_subrange(line_vec.as_slice(), 0, end);
        proof {
            assert(raw2v[i as int] == raw@[i as int]@);
            if has_cr {
                assert(line@ =~= raw2v[i as int].drop_last());
            } else {
                assert(line@ =~= raw2v[i as int]);
            }
            assert(line@ == ls[i as int]);
        }
        let text = match crate::text::string_from_utf8(line) {
            Some(x) => x,
            None => {
                return Err(
                    ArchiveError::InvalidPackageIdent { ident: String::new() },
                );
            },
        };
        proof {
            vstd::utf8::encode_utf8_decode_utf8(text@);
        }
        let id = match PackageIdent::from_str(text.as_str()) {
            Ok(x) => x,
            Err(e) => {
                return Err(e);
            },
        };
        if must_fq && !id.fully_qualified() {
            return Err(
                ArchiveError::FullyQualifiedPackageIdentRequired { ident: id.ident_string() },
            );
        }
        proof {
            vstd::utf8::decode_utf8_encode_utf8(line@);
            if must_fq {
                assert(id.version is Some && id.release is Some);
                assert(split_byte(ls[i as int], 47).len() == 4);
            }
        }
        out.push(id);
        i = i + 1;
    }
    Ok(out)
}

/// What every dependency accessor promises: an unread archive errors, a
/// missing file means no dependencies, a present file either parses line
/// for line or errors, and a file with a malformed or (where required)
/// loosely qualified line always errors.
pub open spec fn dep_list_contract(
    meta: Option<Map<MetaFile, Seq<char>>>,
    f: MetaFile,
    must_fq: bool,
    r: Result<Vec<PackageIdent>, ArchiveError>,
) -> bool {
    match meta {
        Some(m) => {
            &&& (!m.contains_key(f) ==> (r matches Ok(ids) && ids@.len() == 0))
            &&& (m.contains_key(f) ==> (r matches Ok(ids) ==> deps_parse_ok(
                bytes_of(m[f]),
                must_fq,
                ids@,
            )))
            &&& (m.contains_key(f) && !dep_lines_ok(bytes_of(m[f]), must_fq) ==> r is Err)
            &&& (r matches Err(e) ==> ((e matches ArchiveError::InvalidPackageIdent { ident })
                || (e matches ArchiveError::FullyQualifiedPackageIdentRequired { ident })))
        },
        None => r matches Err(e) && (e matches ArchiveError::ArchiveNotRead),
    }
}

impl PackageArchive {
    /// One dependency list, parsed; a missing file means no dependencies.
    fn dep_list(&self, f: MetaFile, must_fq: bool) -> (r: Result<
        Vec<PackageIdent>,
        ArchiveError,
    >)
        ensures
            dep_list_contract(self.meta(), f, must_fq, r),
    {
        match self.meta_opt(f) {
            Err(e) => Err(e),
            Ok(None) => Ok(Vec::new()),
            Ok(Some(text)) => parse_deps(text.as_str().as_bytes(), must_fq),
        }
    }

    /// The runtime dependencies of this package.
    pub fn deps(&self) -> (r: Result<Vec<PackageIdent>, ArchiveError>)
        ensures
            dep_list_contract(self.meta(), MetaFile::Deps, true, r),
    {
        self.dep_list(MetaFile::Deps, true)
    }

    /// The transitive runtime dependencies of this package.
    pub fn tdeps(&self) -> (r: Result<Vec<PackageIdent>, ArchiveError>)
        ensures
            dep_list_contract(self.meta(), MetaFile::TDeps, true, r),
    {
        self.dep_list(MetaFile::TDeps, true)
    }

    /// The build-time dependencies of this package.
    pub fn build_deps(&self) -> (r: Result<Vec<PackageIdent>, ArchiveError>)
        ensures
            dep_list_contract(self.meta(), MetaFile::BuildDeps, true, r),
    {
        self.dep_list(MetaFile::BuildDeps, true)
    }

    /// The transitive build-time dependencies of this package.
    pub fn build_tdeps(&self) -> (r: Result<Vec<PackageIdent>, ArchiveError>)
        ensures
            dep_list_contract(self.meta(), MetaFile::BuildTDeps, true, r),
    {
        self.dep_list(MetaFile::BuildTDeps, true)
    }

    /// The services a composite package runs; these may be loosely
    /// qualified.
    pub fn pkg_services(&self) -> (r: Result<Vec<PackageIdent>, ArchiveError>)
        ensures
            dep_list_contract(self.meta(), MetaFile::Services, false, r),
    {
        self.dep_list(MetaFile::Services, false)
    }

    /// The resolved services of a composite package.
    pub fn resolved_services(&self) -> (r: Result<Vec<PackageIdent>, ArchiveError>)
        ensures
            dep_list_contract(self.meta(), MetaFile::ResolvedServices, true, r),
    {
        self.dep_list(MetaFile::ResolvedServices, true)
    }
}

} // verus!
