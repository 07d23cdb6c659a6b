use vstd::prelude::*;

verus! {

/// Index of the last `c` in `s`, or -1 where `s` holds none.
pub open spec fn last_index(s: Seq<char>, c: char) -> int
    decreases s.len(),
{
    if s.len() == 0 {
        -1
    } else if s.last() == c {
        s.len() - 1
    } else {
        last_index(s.drop_last(), c)
    }
}

/// The last component of a path: what follows its last `/`.
pub open spec fn file_name(path: Seq<char>) -> Seq<char> {
    path.subrange(last_index(path, '/') + 1, path.len() as int)
}

/// The extension of a path's file name: what follows the name's last `.`,
/// without the dot. A name without a dot, or whose only dot leads it (a hidden
/// file such as `.profile`), has none.
pub open spec fn extension(path: Seq<char>) -> Option<Seq<char>> {
    let name = file_name(path);
    let dot = last_index(name, '.');
    if dot <= 0 {
        None
    } else {
        Some(name.subrange(dot + 1, name.len() as int))
    }
}

proof fn lemma_last_index_bounds(s: Seq<char>, c: char)
    ensures
        -1 <= last_index(s, c) < s.len(),
        last_index(s, c) >= 0 ==> s[last_index(s, c)] == c,
    decreases s.len(),
{
    if s.len() > 0 && s.last() != c {
        lemma_last_index_bounds(s.drop_last(), c);
    }
}

/// Position of the last `c` among the first `end` characters of `s`.
fn rfind(s: &str, c: char, end: usize) -> (r: Option<usize>)
    requires
        end <= s@.len(),
    ensures
        r matches Some(i) ==> i == last_index(s@.subrange(0, end as int), c),
        r is None ==> last_index(s@.subrange(0, end as int), c) == -1,
{
    let mut i: usize = end;
    while i > 0
        invariant
            i <= end <= s@.len(),
            last_index(s@.subrange(0, end as int), c) == last_index(s@.subrange(0, i as int), c),
        decreases i,
    {
        let ch = s.get_char(i - 1);
        assert(s@.subrange(0, i as int).drop_last() =~= s@.subrange(0, i - 1));
        if ch == c {
            return Some(i - 1);
        }
        i = i - 1;
    }
    None
}

/// The extension of `path`'s file name, as [`extension`] defines it.
pub fn extension_of(path: &str) -> (r: Option<String>)
    ensures
        r matches Some(e) ==> extension(path@) == Some(e@),
        r is None ==> extension(path@) is None,
{
    let len = path.unicode_len();
    assert(path@.subrange(0, len as int) =~= path@);
    proof {
        lemma_last_index_bounds(path@, '/');
    }
    let start: usize = match rfind(path, '/', len) {
        Some(i) => i + 1,
        None => 0,
    };
    let name = path.substring_char(start, len);
    assert(name@ == file_name(path@));
    let nlen = name.unicode_len();
    assert(name@.subrange(0, nlen as int) =~= name@);
    proof {
        lemma_last_index_bounds(name@, '.');
    }
    match rfind(name, '.', nlen) {
        Some(dot) => {
            if dot == 0 {
                None
            } else {
                let ext = name.substring_char(dot + 1, nlen);
                Some(ext.to_owned())
            }
        },
        None => None,
    }
}

/// The texts of a sequence of strings, as a set.
pub open spec fn names(v: Seq<String>) -> Set<Seq<char>> {
    Set::new(|e: Seq<char>| exists|i: int| 0 <= i < v.len() && (#[trigger] v[i])@ == e)
}

/// A set of file extensions, written without the leading dot and compared
/// case-sensitively.
pub struct ExtensionSet {
    pub exts: Vec<String>,
}

impl View for ExtensionSet {
    type V = Set<Seq<char>>;

    open spec fn view(&self) -> Set<Seq<char>> {
        names(self.exts@)
    }
}

/// A path is a candidate of the scan when its file name has an extension
/// and that extension is in the set.
pub open spec fn accepted(exts: Set<Seq<char>>, path: Seq<char>) -> bool {
    match extension(path) {
        Some(e) => exts.contains(e),
        None => false,
    }
}

impl ExtensionSet {
    pub fn new(exts: Vec<String>) -> (r: ExtensionSet)
        ensures
            r.exts@ == exts@,
            r@ == names(exts@),
    {
        ExtensionSet { exts }
    }

    pub fn contains(&self, ext: &String) -> (r: bool)
        ensures
            r == self@.contains(ext@),
    {
        let mut i: usize = 0;
        while i < self.exts.len()
            invariant
                i <= self.exts@.len(),
                forall|j: int| 0 <= j < i ==> self.exts@[j]@ != ext@,
            decreases self.exts@.len() - i,
        {
            if self.exts[i] == *ext {
                return true;
            }
            i = i + 1;
        }
        false
    }

    /// Whether a walked file at `path` is to be hashed.
    pub fn accepts(&self, path: &str) -> (r: bool)
        ensures
            r == accepted(self@, path@),
    {
        match extension_of(path) {
            Some(e) => self.contains(&e),
            None => false,
        }
    }
}

} // verus!
