//! Walking the parts of a file system path one at a time, as text, leaving out the root
//! separator of an absolute path.

use std::path::PathBuf;
use vstd::prelude::*;

verus! {

#[verifier::external_type_specification]
#[verifier::external_body]
pub struct ExPathBuf(PathBuf);

/// Calls `Path::iter` on `path` and turns each part into text with `OsStr::to_str`
/// (`None` for a part that is not UTF-8). Nothing is stated of the parts: how a path is
/// cut depends on the platform.
#[verifier::external_body]
fn path_parts(path: &PathBuf) -> (res: Vec<Option<String>>) {
    path.iter().map(|part| part.to_str().map(|text| text.to_string())).collect()
}

/// Calls `Path::is_absolute` on `path`; what counts as absolute depends on the platform,
/// and nothing is stated of it.
#[verifier::external_body]
fn path_is_absolute(path: &PathBuf) -> (res: bool) {
    path.is_absolute()
}

/// The text of `std::path::MAIN_SEPARATOR`, which depends on the platform; nothing is
/// stated of it.
#[verifier::external_body]
fn main_separator() -> (res: String) {
    std::path::MAIN_SEPARATOR.to_string()
}

/// A walk over the parts of a path.
pub trait PathIterator {
    /// Starts the walk again from the first part.
    fn reset(&mut self);

    /// The next part, or `None` at the end or for a part that is not text.
    fn next(&mut self) -> Option<&str>;

    /// Whether the path is absolute.
    fn is_absolute(&self) -> bool;
}

/// The text of part `k` of `parts`, or `None` past the end or where it is not text.
pub open spec fn text_at(parts: Seq<Option<String>>, k: int) -> Option<Seq<char>> {
    if 0 <= k < parts.len() {
        match parts[k] {
            Some(s) => Some(s@),
            None => None,
        }
    } else {
        None
    }
}

/// The text of an optional string slice.
pub open spec fn opt_text(s: Option<&str>) -> Option<Seq<char>> {
    match s {
        Some(t) => Some(t@),
        None => None,
    }
}

/// The cursor after taking one part at `c` among `n`: one further, but not past the end.
pub open spec fn advance(c: nat, n: nat) -> nat {
    if c < n {
        (c + 1) as nat
    } else {
        c
    }
}

/// A walk over the parts of a path, as `Path::iter` cuts it.
pub struct StdPathIterator<'a, P> {
    raw_path: &'a P,
    parts: Vec<Option<String>>,
    separator: String,
    absolute: bool,
    iter: Option<usize>,
}

impl<'a, P> StdPathIterator<'a, P> {
    #[verifier::type_invariant]
    spec fn inv(&self) -> bool {
        self.iter matches Some(c) ==> c <= self.parts@.len()
    }

    /// The parts of the path, each as text where it is text.
    pub closed spec fn parts(&self) -> Seq<Option<String>> {
        self.parts@
    }

    /// How many parts the walk has taken.
    pub closed spec fn cursor(&self) -> nat {
        match self.iter {
            Some(c) => c as nat,
            None => 0,
        }
    }

    /// The text of the platform's path separator.
    pub closed spec fn separator(&self) -> Seq<char> {
        self.separator@
    }

    /// Whether the path is absolute.
    pub closed spec fn absolute(&self) -> bool {
        self.absolute
    }
}

impl<'a> StdPathIterator<'a, PathBuf> {
    /// A walk over the parts of `path`, not yet started.
    pub fn from(path: &'a PathBuf) -> (res: Self)
        ensures
            res.cursor() == 0,
    {
        Self {
            raw_path: path,
            parts: path_parts(path),
            separator: main_separator(),
            absolute: path_is_absolute(path),
            iter: None,
        }
    }
}

impl<'a, P> PathIterator for StdPathIterator<'a, P> {
    fn reset(&mut self)
        ensures
            final(self).cursor() == 0,
            final(self).parts() == old(self).parts(),
            final(self).separator() == old(self).separator(),
            final(self).absolute() == old(self).absolute(),
    {
        self.iter = Some(0);
    }

    /// Takes the next part; when it is the separator (the root of an absolute path), takes
    /// the part after it instead.
    fn next(&mut self) -> (res: Option<&str>)
        ensures
            ({
                let parts = old(self).parts();
                let n = parts.len();
                let c = old(self).cursor();
                let c1 = advance(c, n);
                let skip = text_at(parts, c as int) == Some(old(self).separator());
                &&& final(self).parts() == parts
                &&& final(self).separator() == old(self).separator()
                &&& final(self).absolute() == old(self).absolute()
                &&& final(self).cursor() == if skip {
                    advance(c1, n)
                } else {
                    c1
                }
                &&& opt_text(res) == if skip {
                    text_at(parts, c1 as int)
                } else {
                    text_at(parts, c as int)
                }
            }),
    {
        proof {
            use_type_invariant(&*self);
        }
        let n = self.parts.len();
        let mut c: usize = match self.iter {
            Some(c) => c,
            None => 0,
        };
        let mut taken: Option<usize> = None;
        if c < n {
            taken = Some(c);
            c += 1;
        }
        let is_separator = match taken {
            Some(k) => match &self.parts[k] {
                Some(text) => *text == self.separator,
                None => false,
            },
            None => false,
        };
        if is_separator {
            taken = None;
            if c < n {
                taken = Some(c);
                c += 1;
            }
        }
        self.iter = Some(c);
        match taken {
            Some(k) => match &self.parts[k] {
                Some(text) => Some(text.as_str()),
                None => None,
            },
            None => None,
        }
    }

    fn is_absolute(&self) -> (res: bool)
        ensures
            res == self.absolute(),
    {
        self.absolute
    }
}

} // verus!
