//! Slash-separated paths for the in-memory filesystem layer.
//!
//! A path is a sequence of bytes; `/` (byte 47) separates components and a
//! leading slash marks an absolute path. All operations are pure views on
//! those bytes.
use vstd::prelude::*;
use vstd::string::StringSliceAdditionalSpecFns;

verus! {

/// The path separator byte.
pub const SLASH: u8 = 47;

/// `i` is the position of the last separator of `s`.
pub open spec fn is_last_slash(s: Seq<u8>, i: int) -> bool {
    &&& 0 <= i < s.len()
    &&& s[i] == SLASH
    &&& forall|k: int| i < k < s.len() ==> s[k] != SLASH
}

/// `i` is the position of the first separator of `s`.
pub open spec fn is_first_slash(s: Seq<u8>, i: int) -> bool {
    &&& 0 <= i < s.len()
    &&& s[i] == SLASH
    &&& forall|k: int| 0 <= k < i ==> s[k] != SLASH
}

/// `s` holds no separator at all.
pub open spec fn no_slash(s: Seq<u8>) -> bool {
    forall|k: int| 0 <= k < s.len() ==> s[k] != SLASH
}

/// A path, owned.
#[derive(Debug)]
pub struct Path {
    inner: Vec<u8>,
}

/// An owned path buffer; the growable counterpart of `Path`.
#[derive(Debug)]
pub struct PathBuf {
    inner: Path,
}

/// Copy the byte range `[from, to)` out of a vector.
fn sub_bytes(v: &Vec<u8>, from: usize, to: usize) -> (r: Vec<u8>)
    requires
        from <= to <= v@.len(),
    ensures
        r@ == v@.subrange(from as int, to as int),
{
    let mut out: Vec<u8> = Vec::new();
    let mut i: usize = from;
    while i < to
        invariant
            from <= i <= to <= v@.len(),
            out@ == v@.subrange(from as int, i as int),
        decreases to - i,
    {
        out.push(v[i]);
        proof {
            assert(out@ =~= v@.subrange(from as int, i + 1));
        }
        i = i + 1;
    }
    out
}

/// Compare two byte vectors for equality.
fn bytes_eq(a: &Vec<u8>, b: &Vec<u8>) -> (r: bool)
    ensures
        r == (a@ =~= b@),
{
    if a.len() != b.len() {
        return false;
    }
    let n = a.len();
    let mut i: usize = 0;
    while i < n
        invariant
            n == a@.len() == b@.len(),
            i <= n,
            forall|k: int| 0 <= k < i ==> a@[k] == b@[k],
        decreases n - i,
    {
        if a[i] != b[i] {
            return false;
        }
        i = i + 1;
    }
    proof {
        assert(a@ =~= b@);
    }
    true
}

impl Path {
    /// The bytes of the path.
    pub closed spec fn bytes(self) -> Seq<u8> {
        self.inner@
    }

    /// A path made of the bytes of `s`.
    pub fn new(s: &str) -> (r: Path)
        ensures
            r.bytes() == s.spec_bytes(),
    {
        let b = s.as_bytes();
        let mut inner: Vec<u8> = Vec::new();
        let n = b.len();
        let mut i: usize = 0;
        while i < n
            invariant
                n == b@.len(),
                i <= n,
                inner@ == b@.subrange(0, i as int),
            decreases n - i,
        {
            inner.push(b[i]);
            proof {
                assert(inner@ =~= b@.subrange(0, i + 1));
            }
            i = i + 1;
        }
        proof {
            assert(inner@ =~= b@);
        }
        Path { inner }
    }

    /// The root path `/`.
    pub fn root() -> (r: Path)
        ensures
            r.bytes() =~= seq![SLASH],
    {
        let mut inner: Vec<u8> = Vec::new();
        inner.push(SLASH);
        Path { inner }
    }

    /// A copy of this path.
    pub fn to_owned_path(&self) -> (r: Path)
        ensures
            r.bytes() == self.bytes(),
    {
        let inner = sub_bytes(&self.inner, 0, self.inner.len());
        proof {
            assert(self.inner@.subrange(0, self.inner@.len() as int) =~= self.inner@);
        }
        Path { inner }
    }

    /// Position of the last separator, if any.
    fn rfind_slash(&self) -> (r: Option<usize>)
        ensures
            match r {
                Some(i) => is_last_slash(self.bytes(), i as int),
                None => no_slash(self.bytes()),
            },
    {
        let n = self.inner.len();
        let mut j: usize = n;
        while j > 0
            invariant
                j <= n,
                n == self.bytes().len(),
                forall|k: int| j <= k < n ==> self.bytes()[k] != SLASH,
            decreases j,
        {
            j = j - 1;
            if self.inner[j] == SLASH {
                return Some(j);
            }
        }
        None
    }

    /// Position of the first separator, if any.
    fn find_slash(&self) -> (r: Option<usize>)
        ensures
            match r {
                Some(i) => is_first_slash(self.bytes(), i as int),
                None => no_slash(self.bytes()),
            },
    {
        let n = self.inner.len();
        let mut j: usize = 0;
        while j < n
            invariant
                j <= n,
                n == self.bytes().len(),
                forall|k: int| 0 <= k < j ==> self.bytes()[k] != SLASH,
            decreases n - j,
        {
            if self.inner[j] == SLASH {
                return Some(j);
            }
            j = j + 1;
        }
        None
    }

    /// Everything before the last separator; the root when the separator
    /// leads the path; nothing when there is no separator at all.
    pub fn parent(&self) -> (r: Option<Path>)
        ensures
            match r {
                Some(p) => exists|i: int|
                    #[trigger] is_last_slash(self.bytes(), i) && p.bytes() == (if i == 0 {
                        seq![SLASH]
                    } else {
                        self.bytes().subrange(0, i)
                    }),
                None => no_slash(self.bytes()),
            },
    {
        match self.rfind_slash() {
            None => None,
            Some(i) => {
                if i == 0 {
                    Some(Path::root())
                } else {
                    Some(Path { inner: sub_bytes(&self.inner, 0, i) })
                }
            },
        }
    }

    /// The top component: the root for an absolute path, the part before
    /// the first separator otherwise, or nothing for a bare name.
    pub fn top_folder(&self) -> (r: Option<Path>)
        ensures
            match r {
                Some(p) => if self.bytes().len() > 0 && self.bytes()[0] == SLASH {
                    p.bytes() =~= seq![SLASH]
                } else {
                    exists|i: int|
                        #[trigger] is_first_slash(self.bytes(), i) && p.bytes()
                            == self.bytes().subrange(0, i)
                },
                None => no_slash(self.bytes()) && !(self.bytes().len() > 0 && self.bytes()[0]
                    == SLASH),
            },
    {
        if self.has_root() {
            return Some(Path::root());
        }
        match self.find_slash() {
            Some(i) => Some(Path { inner: sub_bytes(&self.inner, 0, i) }),
            None => None,
        }
    }

    /// The part after the last separator, unless the path is its own
    /// parent (the root) or has no separator.
    pub fn filename(&self) -> (r: Option<Path>)
        ensures
            match r {
                Some(p) => !(self.bytes() =~= seq![SLASH]) && (exists|i: int|
                    #[trigger] is_last_slash(self.bytes(), i) && p.bytes()
                        == self.bytes().subrange(i + 1, self.bytes().len() as int)),
                None => no_slash(self.bytes()) || self.bytes() =~= seq![SLASH],
            },
    {
        match self.rfind_slash() {
            None => None,
            Some(i) => {
                let parent_is_self = i == 0 && self.inner.len() == 1;
                if parent_is_self {
                    proof {
                        assert(self.bytes() =~= seq![SLASH]);
                    }
                    None
                } else {
                    let n = self.inner.len();
                    proof {
                        assert((i as int) < n as int);
                        if self.bytes() =~= seq![SLASH] {
                            assert(self.bytes().len() == 1);
                            assert(i == 0);
                            assert(false);
                        }
                    }
                    Some(Path { inner: sub_bytes(&self.inner, i + 1, n) })
                }
            },
        }
    }

    /// Split at the first separator into the part before and after it.
    pub fn split_from_top(&self) -> (r: Option<(Path, Path)>)
        ensures
            match r {
                Some(pair) => exists|i: int|
                    #[trigger] is_first_slash(self.bytes(), i) && pair.0.bytes()
                        == self.bytes().subrange(0, i) && pair.1.bytes()
                        == self.bytes().subrange(i + 1, self.bytes().len() as int),
                None => no_slash(self.bytes()),
            },
    {
        match self.find_slash() {
            None => None,
            Some(i) => {
                let n = self.inner.len();
                proof {
                    assert((i as int) < n as int);
                }
                Some(
                    (
                        Path { inner: sub_bytes(&self.inner, 0, i) },
                        Path { inner: sub_bytes(&self.inner, i + 1, n) },
                    ),
                )
            },
        }
    }

    /// Whether the path starts with the separator.
    pub fn has_root(&self) -> (r: bool)
        ensures
            r == (self.bytes().len() > 0 && self.bytes()[0] == SLASH),
    {
        self.inner.len() > 0 && self.inner[0] == SLASH
    }

    /// Whether the path is exactly the root.
    pub fn is_root(&self) -> (r: bool)
        ensures
            r == (self.bytes() =~= seq![SLASH]),
    {
        let r = self.inner.len() == 1 && self.inner[0] == SLASH;
        proof {
            if r {
                assert(self.bytes() =~= seq![SLASH]);
            }
        }
        r
    }

    /// Strip `relative` off the front of the path, and one more separator
    /// if one follows; nothing when the path does not start with it.
    pub fn relative_to(&self, relative: &Path) -> (r: Option<Path>)
        ensures
            ({
                let s = self.bytes();
                let p = relative.bytes();
                match r {
                    Some(rest) => {
                        &&& p.len() <= s.len()
                        &&& s.subrange(0, p.len() as int) == p
                        &&& rest.bytes() == (if p.len() < s.len() && s[p.len() as int] == SLASH {
                            s.subrange(p.len() as int + 1, s.len() as int)
                        } else {
                            s.subrange(p.len() as int, s.len() as int)
                        })
                    },
                    None => p.len() > s.len() || s.subrange(0, p.len() as int) != p,
                }
            }),
    {
        let pl = relative.inner.len();
        if pl > self.inner.len() {
            return None;
        }
        let head = sub_bytes(&self.inner, 0, pl);
        if !bytes_eq(&head, &relative.inner) {
            proof {
                assert(relative.bytes().subrange(0, relative.bytes().len() as int)
                    =~= relative.bytes());
            }
            return None;
        }
        proof {
            assert(relative.bytes().subrange(0, relative.bytes().len() as int)
                =~= relative.bytes());
            assert(self.bytes().subrange(0, pl as int) =~= relative.bytes());
        }
        if pl < self.inner.len() && self.inner[pl] == SLASH {
            Some(Path { inner: sub_bytes(&self.inner, pl + 1, self.inner.len()) })
        } else {
            Some(Path { inner: sub_bytes(&self.inner, pl, self.inner.len()) })
        }
    }
}

impl PartialEq for Path {
    fn eq(&self, other: &Path) -> (r: bool) {
        bytes_eq(&self.inner, &other.inner)
    }
}

impl vstd::std_specs::cmp::PartialEqSpecImpl for Path {
    open spec fn obeys_eq_spec() -> bool {
        true
    }

    open spec fn eq_spec(&self, other: &Path) -> bool {
        self.bytes() == other.bytes()
    }
}

impl PathBuf {
    /// The bytes of the buffered path.
    pub closed spec fn bytes(self) -> Seq<u8> {
        self.inner.bytes()
    }

    /// A buffer holding the bytes of `s`.
    pub fn new(s: &str) -> (r: PathBuf)
        ensures
            r.bytes() == s.spec_bytes(),
    {
        PathBuf { inner: Path::new(s) }
    }

    /// A buffer holding a copy of `p`.
    pub fn from_path(p: &Path) -> (r: PathBuf)
        ensures
            r.bytes() == p.bytes(),
    {
        PathBuf { inner: p.to_owned_path() }
    }

    /// The buffered path.
    pub fn as_path(&self) -> (r: &Path)
        ensures
            r.bytes() == self.bytes(),
    {
        &self.inner
    }

    /// This buffer with the bytes of `rhs` appended.
    pub fn append(&self, rhs: &Path) -> (r: PathBuf)
        ensures
            r.bytes() == self.bytes() + rhs.bytes(),
    {
        let mut inner = sub_bytes(&self.inner.inner, 0, self.inner.inner.len());
        proof {
            assert(self.inner.inner@.subrange(0, self.inner.inner@.len() as int)
                =~= self.inner.inner@);
        }
        let n = rhs.inner.len();
        let mut i: usize = 0;
        while i < n
            invariant
                n == rhs.bytes().len(),
                i <= n,
                inner@ == self.bytes() + rhs.bytes().subrange(0, i as int),
            decreases n - i,
        {
            inner.push(rhs.inner[i]);
            proof {
                assert(inner@ =~= self.bytes() + rhs.bytes().subrange(0, i + 1));
            }
            i = i + 1;
        }
        proof {
            assert(rhs.bytes().subrange(0, rhs.bytes().len() as int) =~= rhs.bytes());
        }
        PathBuf { inner: Path { inner } }
    }
}

impl PartialEq for PathBuf {
    fn eq(&self, other: &PathBuf) -> (r: bool) {
        bytes_eq(&self.inner.inner, &other.inner.inner)
    }
}

impl vstd::std_specs::cmp::PartialEqSpecImpl for PathBuf {
    open spec fn obeys_eq_spec() -> bool {
        true
    }

    open spec fn eq_spec(&self, other: &PathBuf) -> bool {
        self.bytes() == other.bytes()
    }
}

} // verus!
