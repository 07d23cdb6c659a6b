use vstd::prelude::*;

use crate::filter::{names, ExtensionSet};
use crate::scan::HashAlgorithm;
use crate::ui::Error;

verus! {

pub open spec fn is_digit(c: char) -> bool {
    '0' <= c <= '9'
}

/// The value of a string of decimal digits, most significant first.
pub open spec fn decimal_value(s: Seq<char>) -> nat
    decreases s.len(),
{
    if s.len() == 0 {
        0
    } else {
        decimal_value(s.drop_last()) * 10 + (s.last() as u32 - '0' as u32) as nat
    }
}

pub open spec fn all_digits(s: Seq<char>) -> bool {
    forall|i: int| 0 <= i < s.len() ==> is_digit(#[trigger] s[i])
}

/// Length of the longest prefix of `s` made of digits.
pub open spec fn digit_run(s: Seq<char>) -> nat
    decreases s.len(),
{
    if all_digits(s) {
        s.len()
    } else {
        digit_run(s.drop_last())
    }
}

/// The digits of an unsigned number as std reads it: one leading `+` may
/// stand before them.
pub open spec fn number_text(s: Seq<char>) -> Seq<char> {
    if s.len() > 0 && s[0] == '+' {
        s.drop_first()
    } else {
        s
    }
}

/// How the depth limit typed by the user reads.
pub enum DepthText {
    /// Empty: no limit.
    NoLimit,
    Limit(nat),
    Zero,
    /// Not a number.
    Invalid,
    /// A number beyond `usize`.
    TooLarge,
}

/// Digits are read from the left; a number that outgrows `usize` before the
/// first character that is not a digit is too large, otherwise any such
/// character makes the text invalid.
pub open spec fn depth_text(s: Seq<char>) -> DepthText {
    let d = number_text(s);
    let k = digit_run(d);
    if s.len() == 0 {
        DepthText::NoLimit
    } else if decimal_value(d.subrange(0, k as int)) > usize::MAX {
        DepthText::TooLarge
    } else if d.len() == 0 || k < d.len() {
        DepthText::Invalid
    } else if decimal_value(d) == 0 {
        DepthText::Zero
    } else {
        DepthText::Limit(decimal_value(d))
    }
}

proof fn lemma_digit_run(d: Seq<char>, i: int)
    requires
        0 <= i <= d.len(),
        all_digits(d.subrange(0, i)),
        i == d.len() || !is_digit(d[i]),
    ensures
        digit_run(d) == i,
    decreases d.len(),
{
    if i < d.len() {
        assert(!all_digits(d)) by {
            assert(!is_digit(d[i]));
        }
        assert(d.drop_last().subrange(0, i) =~= d.subrange(0, i));
        lemma_digit_run(d.drop_last(), i);
    } else {
        assert(d.subrange(0, i) =~= d);
    }
}

proof fn lemma_value_grows(d: Seq<char>, j: int, k: int)
    requires
        0 <= j <= k <= d.len(),
    ensures
        decimal_value(d.subrange(0, j)) <= decimal_value(d.subrange(0, k)),
    decreases k,
{
    if j < k {
        assert(d.subrange(0, k).drop_last() =~= d.subrange(0, k - 1));
        lemma_value_grows(d, j, k - 1);
    }
}

/// Reads the depth limit: empty means no limit; otherwise an unsigned
/// number above zero.
pub fn parse_max_depth(text: &str) -> (r: Result<Option<usize>, Error>)
    ensures
        match depth_text(text@) {
            DepthText::NoLimit => r == Ok::<Option<usize>, Error>(None),
            DepthText::Limit(n) => r == Ok::<Option<usize>, Error>(Some(n as usize)),
            DepthText::Zero => r matches Err(e) && e.err@ == "Invalid depth limit"@
                && e.detail@ == "A depth limit of 0 doesn't search at all"@,
            DepthText::Invalid => r matches Err(e) && e.err@ == "Error parsing depth limit"@
                && e.detail@ == "invalid digit found in string"@,
            DepthText::TooLarge => r matches Err(e) && e.err@ == "Error parsing depth limit"@
                && e.detail@ == "number too large to fit in target type"@,
        },
{
    let len = text.unicode_len();
    if len == 0 {
        return Ok(None);
    }
    let start: usize = if text.get_char(0) == '+' { 1 } else { 0 };
    let d = text.substring_char(start, len);
    assert(d@ == number_text(text@)) by {
        if start == 1 {
            assert(text@.subrange(1, len as int) =~= text@.drop_first());
        } else {
            assert(text@.subrange(0, len as int) =~= text@);
        }
    }
    let n = len - start;
    let mut v: usize = 0;
    let mut i: usize = 0;
    let mut overflow = false;
    while i < n
        invariant
            n == d@.len(),
            i <= n,
            all_digits(d@.subrange(0, i as int)),
            !overflow ==> v == decimal_value(d@.subrange(0, i as int)),
            overflow ==> decimal_value(d@.subrange(0, i as int)) > usize::MAX,
        ensures
            n == d@.len(),
            i <= n,
            all_digits(d@.subrange(0, i as int)),
            !overflow ==> v == decimal_value(d@.subrange(0, i as int)),
            overflow ==> decimal_value(d@.subrange(0, i as int)) > usize::MAX,
            i == n || !is_digit(d@[i as int]),
        decreases n - i,
    {
        let c = d.get_char(i);
        if !('0' <= c && c <= '9') {
            break;
        }
        assert(d@.subrange(0, i + 1).drop_last() =~= d@.subrange(0, i as int));
        assert(all_digits(d@.subrange(0, i + 1))) by {
            assert forall|j: int| 0 <= j < i + 1 implies is_digit(#[trigger] d@.subrange(0, i + 1)[j]) by {
                if j < i {
                    assert(d@.subrange(0, i + 1)[j] == d@.subrange(0, i as int)[j]);
                }
            }
        }
        let digit = (c as u32 - '0' as u32) as usize;
        if !overflow {
            match v.checked_mul(10) {
                Some(t) => match t.checked_add(digit) {
                    Some(w) => {
                        v = w;
                    },
                    None => {
                        overflow = true;
                    },
                },
                None => {
                    overflow = true;
                },
            }
        } else {
            assert(decimal_value(d@.subrange(0, i + 1)) >= decimal_value(d@.subrange(0, i as int)));
        }
        i = i + 1;
    }
    proof {
        lemma_digit_run(d@, i as int);
        if i == n {
            assert(d@.subrange(0, i as int) =~= d@);
        }
    }
    if overflow {
        proof {
            lemma_value_grows(d@, i as int, digit_run(d@) as int);
        }
        return Err(Error::new(
            String::from_str("Error parsing depth limit"),
            String::from_str("number too large to fit in target type"),
        ));
    }
    if n == 0 || i < n {
        return Err(Error::new(
            String::from_str("Error parsing depth limit"),
            String::from_str("invalid digit found in string"),
        ));
    }
    if v == 0 {
        return Err(Error::new(
            String::from_str("Invalid depth limit"),
            String::from_str("A depth limit of 0 doesn't search at all"),
        ));
    }
    Ok(Some(v))
}

/// The extensions the decoder can read.
pub open spec fn supported() -> Set<Seq<char>> {
    set![
        "jpg"@, "jpeg"@, "avif"@, "bmp"@, "dds"@, "exr"@, "gif"@, "hdr"@,
        "ico"@, "png"@, "pnm"@, "qoi"@, "tga"@, "tif"@, "tiff"@, "webp"@,
    ]
}

/// The supported extensions, as a text the user can edit.
pub open spec fn supported_text() -> Seq<char> {
    "jpg,jpeg,avif,bmp,dds,exr,gif,hdr,ico,png,pnm,qoi,tga,tif,tiff,webp"@
}

pub fn supported_extensions() -> (r: ExtensionSet)
    ensures
        r@ == supported(),
{
    let mut v: Vec<String> = Vec::new();
    v.push(String::from_str("jpg"));
    v.push(String::from_str("jpeg"));
    v.push(String::from_str("avif"));
    v.push(String::from_str("bmp"));
    v.push(String::from_str("dds"));
    v.push(String::from_str("exr"));
    v.push(String::from_str("gif"));
    v.push(String::from_str("hdr"));
    v.push(String::from_str("ico"));
    v.push(String::from_str("png"));
    v.push(String::from_str("pnm"));
    v.push(String::from_str("qoi"));
    v.push(String::from_str("tga"));
    v.push(String::from_str("tif"));
    v.push(String::from_str("tiff"));
    v.push(String::from_str("webp"));
    let r = ExtensionSet::new(v);
    assert forall|e: Seq<char>| r@.contains(e) <==> supported().contains(e) by {
        if supported().contains(e) {
            if e == "jpg"@ { assert(r.exts@[0]@ == e); }
            if e == "jpeg"@ { assert(r.exts@[1]@ == e); }
            if e == "avif"@ { assert(r.exts@[2]@ == e); }
            if e == "bmp"@ { assert(r.exts@[3]@ == e); }
            if e == "dds"@ { assert(r.exts@[4]@ == e); }
            if e == "exr"@ { assert(r.exts@[5]@ == e); }
            if e == "gif"@ { assert(r.exts@[6]@ == e); }
            if e == "hdr"@ { assert(r.exts@[7]@ == e); }
            if e == "ico"@ { assert(r.exts@[8]@ == e); }
            if e == "png"@ { assert(r.exts@[9]@ == e); }
            if e == "pnm"@ { assert(r.exts@[10]@ == e); }
            if e == "qoi"@ { assert(r.exts@[11]@ == e); }
            if e == "tga"@ { assert(r.exts@[12]@ == e); }
            if e == "tif"@ { assert(r.exts@[13]@ == e); }
            if e == "tiff"@ { assert(r.exts@[14]@ == e); }
            if e == "webp"@ { assert(r.exts@[15]@ == e); }
        }
    }
    assert(r@ =~= supported());
    r
}

/// White space as `str::trim` takes it: the characters of Unicode's
/// White_Space property.
pub open spec fn is_space(c: char) -> bool {
    c == '\t' || c == '\n' || c == '\x0B' || c == '\x0C' || c == '\r' || c == ' '
        || c == '\u{85}' || c == '\u{A0}' || c == '\u{1680}' || ('\u{2000}' <= c <= '\u{200A}')
        || c == '\u{2028}' || c == '\u{2029}' || c == '\u{202F}' || c == '\u{205F}'
        || c == '\u{3000}'
}

fn space(c: char) -> (r: bool)
    ensures
        r == is_space(c),
{
    c == '\t' || c == '\n' || c == '\x0B' || c == '\x0C' || c == '\r' || c == ' '
        || c == '\u{85}' || c == '\u{A0}' || c == '\u{1680}' || ('\u{2000}' <= c && c <= '\u{200A}')
        || c == '\u{2028}' || c == '\u{2029}' || c == '\u{202F}' || c == '\u{205F}'
        || c == '\u{3000}'
}

pub open spec fn trim_start(s: Seq<char>) -> Seq<char>
    decreases s.len(),
{
    if s.len() > 0 && is_space(s[0]) {
        trim_start(s.drop_first())
    } else {
        s
    }
}

pub open spec fn trim_end(s: Seq<char>) -> Seq<char>
    decreases s.len(),
{
    if s.len() > 0 && is_space(s.last()) {
        trim_end(s.drop_last())
    } else {
        s
    }
}

pub open spec fn strip_dots(s: Seq<char>) -> Seq<char>
    decreases s.len(),
{
    if s.len() > 0 && s[0] == '.' {
        strip_dots(s.drop_first())
    } else {
        s
    }
}

/// One item of the extension list as the user means it: without white
/// space around it and without leading dots.
pub open spec fn clean(p: Seq<char>) -> Seq<char> {
    strip_dots(trim_end(trim_start(p)))
}

/// The items finished so far, and the one being read, after reading `s`
/// from the left and cutting at each comma.
pub open spec fn split_state(s: Seq<char>) -> (Seq<Seq<char>>, Seq<char>)
    decreases s.len(),
{
    if s.len() == 0 {
        (Seq::empty(), Seq::empty())
    } else {
        let (done, cur) = split_state(s.drop_last());
        if s.last() == ',' {
            (done.push(cur), Seq::empty())
        } else {
            (done, cur.push(s.last()))
        }
    }
}

/// The items of a comma-separated list.
pub open spec fn pieces(s: Seq<char>) -> Seq<Seq<char>> {
    split_state(s).0.push(split_state(s).1)
}

/// The extensions a comma-separated list names; empty items are ignored.
pub open spec fn requested(s: Seq<char>) -> Set<Seq<char>> {
    Set::new(
        |e: Seq<char>|
            e.len() > 0 && exists|i: int| 0 <= i < pieces(s).len() && clean(#[trigger] pieces(s)[i]) == e,
    )
}

fn clean_piece(p: &str) -> (r: String)
    ensures
        r@ == clean(p@),
{
    let n = p.unicode_len();
    let mut lo: usize = 0;
    assert(p@.subrange(0, n as int) =~= p@);
    while lo < n && space(p.get_char(lo))
        invariant
            n == p@.len(),
            lo <= n,
            trim_start(p@) == trim_start(p@.subrange(lo as int, n as int)),
        decreases n - lo,
    {
        assert(p@.subrange(lo as int, n as int).drop_first() =~= p@.subrange(lo + 1, n as int));
        lo = lo + 1;
    }
    assert(trim_start(p@) == p@.subrange(lo as int, n as int));
    let mut hi: usize = n;
    while hi > lo && space(p.get_char(hi - 1))
        invariant
            n == p@.len(),
            lo <= hi <= n,
            trim_end(trim_start(p@)) == trim_end(p@.subrange(lo as int, hi as int)),
        decreases hi,
    {
        assert(p@.subrange(lo as int, hi as int).drop_last() =~= p@.subrange(lo as int, hi - 1));
        hi = hi - 1;
    }
    assert(trim_end(trim_start(p@)) == p@.subrange(lo as int, hi as int));
    let mut d: usize = lo;
    while d < hi && p.get_char(d) == '.'
        invariant
            n == p@.len(),
            lo <= d <= hi <= n,
            clean(p@) == strip_dots(p@.subrange(d as int, hi as int)),
        decreases hi - d,
    {
        assert(p@.subrange(d as int, hi as int).drop_first() =~= p@.subrange(d + 1, hi as int));
        d = d + 1;
    }
    assert(clean(p@) == p@.subrange(d as int, hi as int));
    p.substring_char(d, hi).to_owned()
}

proof fn lemma_split_prefix(s: Seq<char>, i: int, j: int)
    requires
        0 <= i <= j <= s.len(),
    ensures
        split_state(s.subrange(0, i)).0.len() <= split_state(s.subrange(0, j)).0.len(),
        forall|k: int| 0 <= k < split_state(s.subrange(0, i)).0.len()
            ==> split_state(s.subrange(0, j)).0[k] == #[trigger] split_state(s.subrange(0, i)).0[k],
    decreases j - i,
{
    if i < j {
        lemma_split_prefix(s, i, j - 1);
        assert(s.subrange(0, j).drop_last() =~= s.subrange(0, j - 1));
    }
}

/// Reads the list of extensions to scan for: comma-separated, each item
/// trimmed and stripped of leading dots, empty items ignored. Every item
/// must be supported.
pub fn parse_exts(text: &str) -> (r: Result<ExtensionSet, Error>)
    ensures
        requested(text@).subset_of(supported()) ==> (r matches Ok(x) && x@ == requested(text@)),
        !requested(text@).subset_of(supported()) ==> (r matches Err(e)
            && e.err@ == "Extension Error"@
            && exists|x: Seq<char>| #![trigger requested(text@).contains(x)]
                requested(text@).contains(x) && !supported().contains(x)
                && e.detail@ == "Extension "@ + x + " is not supported"@),
{
    let known = supported_extensions();
    let n = text.unicode_len();
    let mut out: Vec<String> = Vec::new();
    let mut start: usize = 0;
    let mut i: usize = 0;
    let ghost mut done: Seq<Seq<char>> = Seq::empty();
    assert(text@.subrange(0, 0) =~= Seq::<char>::empty());
    assert(names(out@) =~= Set::new(|e: Seq<char>| e.len() > 0 && exists|j: int| 0 <= j < done.len() && clean(#[trigger] done[j]) == e));
    let mut finished = false;
    while !finished
        invariant
            n == text@.len(),
            start <= i <= n,
            known@ == supported(),
            !finished ==> split_state(text@.subrange(0, i as int)) == (done, text@.subrange(start as int, i as int)),
            finished ==> pieces(text@) == done,
            forall|j: int| 0 <= j < done.len() && clean(#[trigger] done[j]).len() > 0 ==> supported().contains(clean(done[j])),
            names(out@) == Set::new(|e: Seq<char>| e.len() > 0 && exists|j: int| 0 <= j < done.len() && clean(#[trigger] done[j]) == e),
        decreases n - i + if finished { 0int } else { 1int },
    {
        if i == n || text.get_char(i) == ',' {
            let piece = text.substring_char(start, i);
            let e = clean_piece(piece);
            let ghost before = done;
            let ghost old_out = out@;
            proof {
                done = done.push(piece@);
                if i == n {
                    assert(text@.subrange(0, n as int) =~= text@);
                    assert(pieces(text@) == done);
                } else {
                    let t = text@.subrange(0, i + 1);
                    assert(t.drop_last() =~= text@.subrange(0, i as int));
                    assert(split_state(t).0 == done);
                    lemma_split_prefix(text@, i + 1, n as int);
                    assert(text@.subrange(0, n as int) =~= text@);
                    assert(split_state(text@).0[done.len() - 1] == split_state(t).0[done.len() - 1]);
                }
                assert(pieces(text@)[done.len() - 1] == piece@);
            }
            if e.unicode_len() > 0 {
                if !known.contains(&e) {
                    let mut detail = String::from_str("Extension ");
                    detail.append(e.as_str());
                    detail.append(" is not supported");
                    proof {
                        assert(requested(text@).contains(e@));
                    }
                    return Err(Error::new(String::from_str("Extension Error"), detail));
                }
                out.push(e);
            }
            proof {
                assert forall|x: Seq<char>| names(out@).contains(x) <==> (x.len() > 0 && exists|j: int| 0 <= j < done.len() && clean(#[trigger] done[j]) == x) by {
                    if names(out@).contains(x) {
                        let k = choose|k: int| 0 <= k < out@.len() && (#[trigger] out@[k])@ == x;
                        if k < old_out.len() {
                            assert(old_out[k]@ == x);
                            assert(names(old_out).contains(x));
                            let j = choose|j: int| 0 <= j < before.len() && clean(#[trigger] before[j]) == x;
                            assert(done[j] == before[j]);
                        } else {
                            assert(clean(done[done.len() - 1]) == x);
                        }
                    }
                    if x.len() > 0 && exists|j: int| 0 <= j < done.len() && clean(#[trigger] done[j]) == x {
                        let j = choose|j: int| 0 <= j < done.len() && clean(#[trigger] done[j]) == x;
                        if j < before.len() {
                            assert(before[j] == done[j]);
                            assert(names(old_out).contains(x));
                            let k = choose|k: int| 0 <= k < old_out.len() && (#[trigger] old_out[k])@ == x;
                            assert(out@[k] == old_out[k]);
                        } else {
                            assert(out@[out@.len() - 1]@ == x);
                        }
                    }
                }
                assert(names(out@) =~= Set::new(|e: Seq<char>| e.len() > 0 && exists|j: int| 0 <= j < done.len() && clean(#[trigger] done[j]) == e));
                assert forall|j: int| 0 <= j < done.len() && clean(#[trigger] done[j]).len() > 0 implies supported().contains(clean(done[j])) by {
                    if j < before.len() {
                        assert(before[j] == done[j]);
                    }
                }
                if i < n {
                    assert(text@.subrange(i + 1, i + 1) =~= Seq::<char>::empty());
                }
            }
            if i == n {
                finished = true;
            } else {
                start = i + 1;
                i = i + 1;
            }
        } else {
            proof {
                let t = text@.subrange(0, i + 1);
                assert(t.drop_last() =~= text@.subrange(0, i as int));
                assert(text@.subrange(start as int, i + 1) =~= text@.subrange(start as int, i as int).push(text@[i as int]));
            }
            i = i + 1;
        }
    }
    proof {
        assert(names(out@) =~= requested(text@));
        assert(requested(text@).subset_of(supported())) by {
            assert forall|x: Seq<char>| requested(text@).contains(x) implies supported().contains(x) by {
                let j = choose|j: int| 0 <= j < pieces(text@).len() && clean(#[trigger] pieces(text@)[j]) == x;
                assert(clean(done[j]).len() > 0);
            }
        }
    }
    Ok(ExtensionSet::new(out))
}

/// The depth text reads as a valid setting: empty, or a number above zero
/// that fits `usize`.
pub open spec fn depth_ok(s: Seq<char>) -> bool {
    depth_text(s) is NoLimit || depth_text(s) is Limit
}

/// The limit a valid depth text sets.
pub open spec fn depth_limit(s: Seq<char>) -> Option<usize> {
    match depth_text(s) {
        DepthText::Limit(n) => Some(n as usize),
        _ => None,
    }
}

/// A validated scan request.
pub struct ScanRequest {
    pub root: String,
    pub follow_sym: bool,
    pub max_depth: Option<usize>,
    pub hash: HashAlgorithm,
    pub exts: ExtensionSet,
}

/// The settings as the user typed them.
pub struct UserOpts {
    pub root: String,
    pub follow_sym: bool,
    pub max_depth: String,
    pub exts: String,
    pub hash: HashAlgorithm,
}

impl UserOpts {
    /// Defaults for a root: every supported extension, the gradient hash, no
    /// symbolic links followed, no depth limit.
    pub fn new(root: String) -> (r: UserOpts)
        ensures
            r.root == root,
            r.exts@ == supported_text(),
            r.hash == HashAlgorithm::Gradient,
            !r.follow_sym,
            r.max_depth@.len() == 0,
    {
        UserOpts {
            root,
            exts: String::from_str("jpg,jpeg,avif,bmp,dds,exr,gif,hdr,ico,png,pnm,qoi,tga,tif,tiff,webp"),
            hash: HashAlgorithm::Gradient,
            follow_sym: false,
            max_depth: String::new(),
        }
    }

    /// Moves the settings out, leaving the defaults for an empty root.
    pub fn take(&mut self) -> (r: UserOpts)
        ensures
            r == *old(self),
            final(self).root@.len() == 0,
            final(self).exts@ == supported_text(),
            final(self).hash == HashAlgorithm::Gradient,
            !final(self).follow_sym,
            final(self).max_depth@.len() == 0,
    {
        let mut r = UserOpts::new(String::new());
        std::mem::swap(&mut r, self);
        r
    }

    /// Checks the settings and builds the request, or says what is wrong:
    /// first a missing root, then the depth limit, then the extensions.
    pub fn make_request(&self, root_exists: bool) -> (r: Result<ScanRequest, Error>)
        ensures
            !root_exists ==> (r matches Err(e) && e.err@ == "Path Error"@
                && e.detail@ == self.root@ + " doesn't exist"@),
            root_exists && !depth_ok(self.max_depth@) ==> (r matches Err(e) && e.err@ == if depth_text(
                self.max_depth@,
            ) is Zero {
                "Invalid depth limit"@
            } else {
                "Error parsing depth limit"@
            }),
            root_exists && depth_ok(self.max_depth@) && !requested(self.exts@).subset_of(supported())
                ==> (r matches Err(e) && e.err@ == "Extension Error"@),
            root_exists && depth_ok(self.max_depth@) && requested(self.exts@).subset_of(supported())
                ==> (r matches Ok(q) && q.root == self.root && q.follow_sym == self.follow_sym
                && q.max_depth == depth_limit(self.max_depth@) && q.hash == self.hash
                && q.exts@ == requested(self.exts@)),
    {
        if !root_exists {
            let mut detail = self.root.clone();
            detail.append(" doesn't exist");
            return Err(Error::new(String::from_str("Path Error"), detail));
        }
        let max_depth = match parse_max_depth(self.max_depth.as_str()) {
            Ok(d) => d,
            Err(e) => {
                return Err(e);
            },
        };
        let exts = match parse_exts(self.exts.as_str()) {
            Ok(x) => x,
            Err(e) => {
                return Err(e);
            },
        };
        Ok(ScanRequest {
            root: self.root.clone(),
            follow_sym: self.follow_sym,
            max_depth,
            hash: self.hash,
            exts,
        })
    }
}

} // verus!
