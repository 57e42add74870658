//! The compute side of file enumeration for batch splitting: building the
//! walk pattern and settings, and filtering what the filesystem walk hands
//! back. The walk itself is I/O and lives with the caller.

use vstd::prelude::*;
use vstd::string::{StrSliceExecFns, StringExecFns};

verus! {

/// Why an enumeration request failed.
#[derive(Debug)]
pub struct GlobError {
    message: String,
}

impl GlobError {
    /// The error's text.
    pub closed spec fn text(&self) -> Seq<char> {
        self.message@
    }

    /// Wraps the reason an enumeration failed.
    pub fn new(message: String) -> (r: GlobError)
        ensures
            r.text() == message@,
    {
        GlobError { message }
    }

    /// The error's text.
    pub fn message(&self) -> (r: &str)
        ensures
            r@ == self.text(),
    {
        self.message.as_str()
    }
}

/// One entry handed back by the filesystem walk.
pub enum GlobEntry {
    /// The walk could not read this entry.
    Unreadable,
    /// A filesystem object: its path when the name is valid text, and
    /// whether it names a directory.
    Found { path: Option<String>, is_dir: bool },
}

/// How the filesystem walk should match names.
pub struct MatchSettings {
    pub case_sensitive: bool,
    pub require_literal_separator: bool,
    pub require_literal_leading_dot: bool,
}

/// The walk settings for a recursion and hidden-files choice: a
/// non-recursive walk keeps a wildcard from crossing a path separator, and
/// excluding hidden files keeps it from matching a leading dot.
pub fn glob_options(recursive: bool, hidden: bool) -> (r: MatchSettings)
    ensures
        r.case_sensitive,
        r.require_literal_separator == !recursive,
        r.require_literal_leading_dot == !hidden,
{
    MatchSettings {
        case_sensitive: true,
        require_literal_separator: !recursive,
        require_literal_leading_dot: !hidden,
    }
}

/// The full pattern handed to the filesystem walk: the base path, a `**`
/// component when the walk is recursive, and the file pattern.
pub fn glob_pattern(path: &str, pattern: &str, recursive: bool) -> (r: String)
    ensures
        recursive ==> r@ == path@ + seq!['/', '*', '*', '/'] + pattern@,
        !recursive ==> r@ == path@ + seq!['/'] + pattern@,
{
    proof {
        reveal_strlit("/**/");
        reveal_strlit("/");
    }
    let mut r = path.to_owned();
    if recursive {
        r.append("/**/");
        proof {
            assert(r@ =~= path@ + seq!['/', '*', '*', '/']);
        }
    } else {
        r.append("/");
        proof {
            assert(r@ =~= path@ + seq!['/']);
        }
    }
    r.append(pattern);
    r
}

/// The path prefix that a temporary-directory path carries on some systems
/// and that enumeration results are reported without.
pub open spec fn private_prefix() -> Seq<char> {
    seq!['/', 'p', 'r', 'i', 'v', 'a', 't', 'e']
}

/// `s` with every leading `/private` component removed.
pub open spec fn trim_private(s: Seq<char>) -> Seq<char>
    decreases s.len(),
{
    if s.len() >= 8 && s.subrange(0, 8) == private_prefix() {
        trim_private(s.skip(8))
    } else {
        s
    }
}

/// `s` with every leading `/private` component removed.
pub fn strip_private(s: &str) -> (r: String)
    ensures
        r@ == trim_private(s@),
    decreases s@.len(),
{
    let n = s.unicode_len();
    if n >= 8 {
        let matched = s.get_char(0) == '/' && s.get_char(1) == 'p' && s.get_char(2) == 'r'
            && s.get_char(3) == 'i' && s.get_char(4) == 'v' && s.get_char(5) == 'a' && s.get_char(
            6,
        ) == 't' && s.get_char(7) == 'e';
        if matched {
            proof {
                assert(s@.subrange(0, 8) =~= private_prefix());
            }
            let rest = s.substring_char(8, n);
            proof {
                assert(rest@ =~= s@.skip(8));
            }
            return strip_private(rest);
        }
        proof {
            if s@.subrange(0, 8) == private_prefix() {
                assert(s@[0] == s@.subrange(0, 8)[0]);
                assert(s@[1] == s@.subrange(0, 8)[1]);
                assert(s@[2] == s@.subrange(0, 8)[2]);
                assert(s@[3] == s@.subrange(0, 8)[3]);
                assert(s@[4] == s@.subrange(0, 8)[4]);
                assert(s@[5] == s@.subrange(0, 8)[5]);
                assert(s@[6] == s@.subrange(0, 8)[6]);
                assert(s@[7] == s@.subrange(0, 8)[7]);
            }
        }
    }
    s.to_owned()
}

/// The paths the enumeration keeps: one per readable non-directory entry
/// whose name is valid text, in walk order, each with its leading
/// `/private` components removed.
pub open spec fn glob_paths(entries: Seq<GlobEntry>) -> Seq<Seq<char>>
    decreases entries.len(),
{
    if entries.len() == 0 {
        Seq::empty()
    } else {
        let rest = glob_paths(entries.drop_first());
        match entries[0] {
            GlobEntry::Unreadable => rest,
            GlobEntry::Found { path, is_dir } => {
                if is_dir {
                    rest
                } else {
                    match path {
                        None => rest,
                        Some(p) => seq![trim_private(p@)] + rest,
                    }
                }
            },
        }
    }
}

/// Turns one filesystem walk's outcome into the list of file paths to
/// split: a failed walk becomes an error with the walk's reason; a
/// successful one yields the readable non-directory paths, in walk order,
/// without their leading `/private` components.
pub fn glob(listing: Result<Vec<GlobEntry>, String>) -> (r: Result<Vec<String>, GlobError>)
    ensures
        listing matches Err(m) ==> r matches Err(e) && e.text() == m@,
        listing matches Ok(entries) ==> r matches Ok(paths) && paths.deep_view() == glob_paths(
            entries@,
        ),
{
    match listing {
        Err(m) => Err(GlobError::new(m)),
        Ok(entries) => {
            let mut paths: Vec<String> = Vec::new();
            proof {
                assert(paths.deep_view() =~= Seq::<Seq<char>>::empty());
                assert(entries@.skip(0) =~= entries@);
            }
            let mut i: usize = 0;
            while i < entries.len()
                invariant
                    i <= entries@.len(),
                    paths.deep_view() + glob_paths(entries@.skip(i as int)) == glob_paths(
                        entries@,
                    ),
                decreases entries@.len() - i,
            {
                let ghost before = paths.deep_view();
                proof {
                    assert(entries@.skip(i as int)[0] == entries@[i as int]);
                    assert(entries@.skip(i as int).drop_first() =~= entries@.skip(i as int + 1));
                }
                match &entries[i] {
                    GlobEntry::Unreadable => {},
                    GlobEntry::Found { path, is_dir } => {
                        if !*is_dir {
                            match path {
                                None => {},
                                Some(p) => {
                                    let kept = strip_private(p.as_str());
                                    paths.push(kept);
                                    proof {
                                        assert(paths.deep_view() =~= before.push(
                                            trim_private(p@),
                                        ));
                                        assert(before.push(trim_private(p@)) + glob_paths(
                                            entries@.skip(i as int + 1),
                                        ) =~= before + glob_paths(entries@.skip(i as int)));
                                    }
                                },
                            }
                        }
                    },
                }
                i = i + 1;
            }
            proof {
                assert(entries@.skip(entries@.len() as int) =~= Seq::<GlobEntry>::empty());
                assert(paths.deep_view() =~= paths.deep_view() + glob_paths(
                    entries@.skip(entries@.len() as int),
                ));
            }
            Ok(paths)
        },
    }
}

} // verus!
